//! A section: a name and the key-value pairs under it.
use crate::entries::{distinct_keys, lemma_position_none, lemma_upsert, lookup, upsert};
use crate::index_map::{
    str_entries, str_map_get, str_map_get_index, str_map_insert, str_map_new, string_entries,
    string_map_insert, string_map_new, view_opt,
};
use indexmap::IndexMap;
use vstd::prelude::*;
use vstd::string::*;

verus! {

/// What a section holds: its name, and its pairs in the order in which their
/// keys were first inserted.
pub struct SectionView {
    pub name: Seq<char>,
    pub entries: Seq<(Seq<char>, Seq<char>)>,
}

/// A section whose name, keys and values are slices of the text it was read
/// from. No key occurs twice.
#[derive(Debug, PartialEq)]
pub struct Section<'a> {
    name: &'a str,
    items: IndexMap<&'a str, &'a str>,
}

impl<'a> View for Section<'a> {
    type V = SectionView;

    closed spec fn view(&self) -> SectionView {
        SectionView { name: self.name@, entries: str_entries(self.items) }
    }
}

impl<'a> Section<'a> {
    #[verifier::type_invariant]
    spec fn well_formed(&self) -> bool {
        distinct_keys(str_entries(self.items))
    }

    /// Creates a section with the given name and no pairs.
    pub fn new(name: &'a str) -> (section: Self)
        ensures
            section@ == (SectionView { name: name@, entries: Seq::empty() }),
    {
        Section { name, items: str_map_new() }
    }

    /// The name of the section.
    pub fn name(&self) -> (name: &'a str)
        ensures
            name@ == self@.name,
    {
        self.name
    }

    /// Sets `key` to `value`. A key that is present keeps its place and has
    /// its value replaced; a new key goes last. Returns the value that the key
    /// had before.
    pub fn insert(&mut self, key: &'a str, value: &'a str) -> (previous: Option<&'a str>)
        ensures
            final(self)@.name == old(self)@.name,
            final(self)@.entries == upsert(old(self)@.entries, key@, value@),
            view_opt(previous) == lookup(old(self)@.entries, key@),
            distinct_keys(final(self)@.entries),
    {
        proof {
            use_type_invariant(&*self);
            lemma_upsert(str_entries(self.items), key@, value@);
        }
        // The map is changed outside the section, which so stays well formed
        // wherever the insertion might unwind.
        let mut items = str_map_new();
        core::mem::swap(&mut self.items, &mut items);
        let previous = str_map_insert(&mut items, key, value);
        core::mem::swap(&mut self.items, &mut items);
        previous
    }

    /// The value of `key`, if the section has the key.
    pub fn get(&self, key: &str) -> (value: Option<&'a str>)
        ensures
            view_opt(value) == lookup(self@.entries, key@),
    {
        str_map_get(&self.items, key)
    }

    /// The pairs of the section, in the order in which their keys were first
    /// inserted.
    pub fn pairs(&self) -> (pairs: Vec<(&'a str, &'a str)>)
        ensures
            pairs@.len() == self@.entries.len(),
            forall|i: int|
                0 <= i < pairs@.len() ==> (#[trigger] pairs@[i]).0@ == self@.entries[i].0
                    && pairs@[i].1@ == self@.entries[i].1,
            distinct_keys(self@.entries),
    {
        proof {
            use_type_invariant(self);
        }
        let mut pairs: Vec<(&'a str, &'a str)> = Vec::new();
        let mut index: usize = 0;
        loop
            invariant
                index == pairs@.len(),
                index <= str_entries(self.items).len(),
                forall|i: int|
                    0 <= i < pairs@.len() ==> (#[trigger] pairs@[i]).0@ == str_entries(
                        self.items,
                    )[i].0 && pairs@[i].1@ == str_entries(self.items)[i].1,
            ensures
                pairs@.len() == str_entries(self.items).len(),
                forall|i: int|
                    0 <= i < pairs@.len() ==> (#[trigger] pairs@[i]).0@ == str_entries(
                        self.items,
                    )[i].0 && pairs@[i].1@ == str_entries(self.items)[i].1,
            decreases str_entries(self.items).len() - index,
        {
            match str_map_get_index(&self.items, index) {
                Some(pair) => {
                    pairs.push(pair);
                    index = pairs.len();
                },
                None => {
                    break ;
                },
            }
        }
        pairs
    }

    /// Copies the section into one that owns its strings. Returns the name
    /// and the copy, which holds the same pairs in the same order.
    pub fn to_owned(&self) -> (r: (&'a str, SectionOwned))
        ensures
            r.0@ == self@.name,
            r.1@ == self@.entries,
    {
        let pairs = self.pairs();
        let mut owned = SectionOwned::new();
        let mut index: usize = 0;
        while index < pairs.len()
            invariant
                distinct_keys(self@.entries),
                pairs@.len() == self@.entries.len(),
                forall|i: int|
                    0 <= i < pairs@.len() ==> (#[trigger] pairs@[i]).0@ == self@.entries[i].0
                        && pairs@[i].1@ == self@.entries[i].1,
                index <= pairs@.len(),
                owned@ == self@.entries.take(index as int),
            decreases pairs@.len() - index,
        {
            let (key, value) = pairs[index];
            proof {
                let all = self@.entries;
                let done = all.take(index as int);
                assert(all[index as int].0 == key@);
                assert forall|j: int| 0 <= j < done.len() implies (#[trigger] done[j]).0
                    != key@ by {
                    assert(done[j] == all[j]);
                }
                lemma_position_none(done, key@);
                assert(done.push((key@, value@)) =~= all.take(index + 1));
            }
            owned.insert(key, value);
            index = index + 1;
        }
        proof {
            assert(self@.entries.take(index as int) =~= self@.entries);
        }
        (self.name, owned)
    }
}

/// A section that owns its keys and values. It holds no name: the document
/// that holds the section knows it by one. No key occurs twice.
#[derive(Debug, PartialEq)]
pub struct SectionOwned {
    items: IndexMap<String, String>,
}

impl View for SectionOwned {
    type V = Seq<(Seq<char>, Seq<char>)>;

    closed spec fn view(&self) -> Seq<(Seq<char>, Seq<char>)> {
        string_entries(self.items)
    }
}

impl SectionOwned {
    #[verifier::type_invariant]
    spec fn well_formed(&self) -> bool {
        distinct_keys(string_entries(self.items))
    }

    /// Creates a section without pairs.
    pub fn new() -> (section: Self)
        ensures
            section@ == Seq::<(Seq<char>, Seq<char>)>::empty(),
    {
        SectionOwned { items: string_map_new() }
    }

    /// Sets `key` to `value`. A key that is present keeps its place and has
    /// its value replaced; a new key goes last. Returns the value that the key
    /// had before.
    pub fn insert(&mut self, key: &str, value: &str) -> (previous: Option<String>)
        ensures
            final(self)@ == upsert(old(self)@, key@, value@),
            match previous {
                Some(was) => lookup(old(self)@, key@) == Some(was@),
                None => lookup(old(self)@, key@) is None,
            },
            distinct_keys(final(self)@),
    {
        proof {
            use_type_invariant(&*self);
            lemma_upsert(string_entries(self.items), key@, value@);
        }
        // The map is changed outside the section, which so stays well formed
        // wherever the insertion might unwind.
        let mut items = string_map_new();
        core::mem::swap(&mut self.items, &mut items);
        let previous = string_map_insert(
            &mut items,
            String::from_str(key),
            String::from_str(value),
        );
        core::mem::swap(&mut self.items, &mut items);
        previous
    }
}

} // verus!
