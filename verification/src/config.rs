//! A document: the sections of a text, each under its name.
use crate::canonical::{theorem_document_is_valid, valid_document};
use crate::entries::{
    distinct_keys, lemma_position_none, lemma_upsert, lookup, upsert, upsert_all,
};
use crate::error::describe_failure;
use crate::index_map::{
    owned_map_get, owned_map_insert, owned_map_new, owned_section_entries, section_entries,
    section_map_get, section_map_get_index, section_map_insert, section_map_new,
};
use crate::parser::{parse_cfg, spec_cfg, view_each};
use crate::section::{Section, SectionOwned, SectionView};
use indexmap::IndexMap;
use vstd::prelude::*;
use vstd::string::*;

verus! {

/// The sections, each under its own name, in their order.
pub open spec fn by_name(sections: Seq<SectionView>) -> Seq<(Seq<char>, SectionView)> {
    Seq::new(sections.len(), |i: int| (sections[i].name, sections[i]))
}

/// The entries of a document with each section reduced to its pairs, as the
/// owned copy of the document holds them.
pub open spec fn owned_entries(entries: Seq<(Seq<char>, SectionView)>) -> Seq<
    (Seq<char>, Seq<(Seq<char>, Seq<char>)>),
> {
    Seq::new(entries.len(), |i: int| (entries[i].0, entries[i].1.entries))
}

/// A document whose strings are slices of the text it was read from: a map
/// from names to sections that keeps the order in which the names were first
/// inserted. No name occurs twice.
#[derive(Debug, PartialEq)]
pub struct Config<'b> {
    sections: IndexMap<&'b str, Section<'b>>,
}

impl<'b> View for Config<'b> {
    type V = Seq<(Seq<char>, SectionView)>;

    closed spec fn view(&self) -> Seq<(Seq<char>, SectionView)> {
        section_entries(self.sections)
    }
}

impl<'b> Default for Config<'b> {
    fn default() -> (config: Config<'b>)
        ensures
            config@ == Seq::<(Seq<char>, SectionView)>::empty(),
    {
        Config { sections: section_map_new() }
    }
}

impl<'b> Config<'b> {
    #[verifier::type_invariant]
    spec fn well_formed(&self) -> bool {
        distinct_keys(section_entries(self.sections))
    }

    /// Creates a document without sections.
    pub fn new() -> (config: Self)
        ensures
            config@ == Seq::<(Seq<char>, SectionView)>::empty(),
    {
        Config { sections: section_map_new() }
    }

    /// Puts `section` under `name`. A section that stood under the name is
    /// replaced as a whole, and the name keeps its place; a new name goes
    /// last. Returns whether the name is new.
    pub fn insert(&mut self, name: &'b str, section: Section<'b>) -> (fresh: bool)
        ensures
            final(self)@ == upsert(old(self)@, name@, section@),
            fresh == (lookup(old(self)@, name@) is None),
            distinct_keys(final(self)@),
    {
        proof {
            use_type_invariant(&*self);
            lemma_upsert(section_entries(self.sections), name@, section@);
        }
        // The map is changed outside the document, which so stays well formed
        // wherever the insertion might unwind.
        let mut sections = section_map_new();
        core::mem::swap(&mut self.sections, &mut sections);
        let previous = section_map_insert(&mut sections, name, section);
        core::mem::swap(&mut self.sections, &mut sections);
        previous.is_none()
    }

    /// The section under `name`, if there is one.
    pub fn get(&self, name: &str) -> (r: Option<&Section<'b>>)
        ensures
            match r {
                Some(section) => lookup(self@, name@) == Some(section@),
                None => lookup(self@, name@) is None,
            },
    {
        section_map_get(&self.sections, name)
    }

    /// The names and their sections, in order.
    fn named_sections(&self) -> (named: Vec<(&'b str, &Section<'b>)>)
        ensures
            named@.len() == self@.len(),
            forall|i: int|
                0 <= i < named@.len() ==> (#[trigger] named@[i]).0@ == self@[i].0 && named@[i].1@
                    == self@[i].1,
            distinct_keys(self@),
    {
        proof {
            use_type_invariant(self);
        }
        let mut named: Vec<(&'b str, &Section<'b>)> = Vec::new();
        let mut index: usize = 0;
        loop
            invariant
                index == named@.len(),
                index <= section_entries(self.sections).len(),
                forall|i: int|
                    0 <= i < named@.len() ==> (#[trigger] named@[i]).0@ == section_entries(
                        self.sections,
                    )[i].0 && named@[i].1@ == section_entries(self.sections)[i].1,
            ensures
                named@.len() == section_entries(self.sections).len(),
                forall|i: int|
                    0 <= i < named@.len() ==> (#[trigger] named@[i]).0@ == section_entries(
                        self.sections,
                    )[i].0 && named@[i].1@ == section_entries(self.sections)[i].1,
            decreases section_entries(self.sections).len() - index,
        {
            match section_map_get_index(&self.sections, index) {
                Some(entry) => {
                    named.push(entry);
                    index = named.len();
                },
                None => {
                    break ;
                },
            }
        }
        named
    }

    /// The sections of the document, in the order in which their names were
    /// first inserted.
    pub fn sections(&self) -> (sections: Vec<&Section<'b>>)
        ensures
            sections@.len() == self@.len(),
            forall|i: int| 0 <= i < sections@.len() ==> (#[trigger] sections@[i])@ == self@[i].1,
            distinct_keys(self@),
    {
        let named = self.named_sections();
        let mut sections: Vec<&Section<'b>> = Vec::new();
        let mut index: usize = 0;
        while index < named.len()
            invariant
                index <= named@.len(),
                named@.len() == self@.len(),
                forall|i: int| 0 <= i < named@.len() ==> (#[trigger] named@[i]).1@ == self@[i].1,
                sections@.len() == index,
                forall|i: int|
                    0 <= i < sections@.len() ==> (#[trigger] sections@[i])@ == self@[i].1,
            decreases named@.len() - index,
        {
            sections.push(named[index].1);
            index = index + 1;
        }
        sections
    }

    /// Copies the document into one that owns its strings: the same names in
    /// the same order, each with the pairs of its section.
    pub fn to_owned(&self) -> (owned: ConfigOwned)
        ensures
            owned@ == owned_entries(self@),
    {
        let named = self.named_sections();
        let mut owned = ConfigOwned::new();
        let mut index: usize = 0;
        while index < named.len()
            invariant
                distinct_keys(self@),
                index <= named@.len(),
                named@.len() == self@.len(),
                forall|i: int|
                    0 <= i < named@.len() ==> (#[trigger] named@[i]).0@ == self@[i].0
                        && named@[i].1@ == self@[i].1,
                owned@ == owned_entries(self@).take(index as int),
            decreases named@.len() - index,
        {
            let (name, section) = named[index];
            let (_, copy) = section.to_owned();
            proof {
                let all = owned_entries(self@);
                let done = all.take(index as int);
                assert(all[index as int].0 == name@);
                assert forall|j: int| 0 <= j < done.len() implies (#[trigger] done[j]).0
                    != name@ by {
                    assert(done[j] == all[j]);
                    assert(self@[j].0 != self@[index as int].0);
                }
                lemma_position_none(done, name@);
                assert(done.push((name@, copy@)) =~= all.take(index + 1));
            }
            owned.put(name, copy);
            index = index + 1;
        }
        proof {
            assert(owned_entries(self@).take(index as int) =~= owned_entries(self@));
        }
        owned
    }

    /// Parses a whole document. Each section goes under its name, in the
    /// order of the text; of two sections with one name the later one stands,
    /// at the place of the first. A document that was read has at least one
    /// section, and each of its sections at least one pair. Where the text is
    /// no document, the failure is returned as text.
    pub fn parse_cfg(input: &'b str) -> (r: Result<Config<'b>, String>)
        ensures
            match r {
                Ok(config) => spec_cfg(input@) matches Ok((_, sections)) && config@ == upsert_all(
                    by_name(sections),
                ) && valid_document(config@),
                Err(message) => spec_cfg(input@) matches Err(failure) && message@
                    == describe_failure(failure),
            },
    {
        proof {
            theorem_document_is_valid(input@);
        }
        match parse_cfg(input) {
            Err(e) => Err(e.describe()),
            Ok((_, sections)) => {
                let ghost all = by_name(view_each(sections@));
                let mut config = Config::new();
                proof {
                    assert(all.take(0) =~= Seq::empty());
                }
                for section in it: sections.into_iter()
                    invariant
                        by_name(view_each(it.seq())) == all,
                        config@ == upsert_all(all.take(it.index() as int)),
                {
                    proof {
                        let done = all.take(it.index() as int);
                        let next = all.take(it.index() + 1);
                        assert(next.drop_last() =~= done);
                        assert(next.last() == (section@.name, section@));
                    }
                    let name = section.name();
                    config.insert(name, section);
                }
                proof {
                    assert(all.take(all.len() as int) =~= all);
                }
                Ok(config)
            },
        }
    }
}

/// A document that owns its strings: a map from names to owned sections that
/// keeps the order in which the names were first inserted. No name occurs
/// twice.
#[derive(Debug, PartialEq)]
pub struct ConfigOwned {
    sections: IndexMap<String, SectionOwned>,
}

impl View for ConfigOwned {
    type V = Seq<(Seq<char>, Seq<(Seq<char>, Seq<char>)>)>;

    closed spec fn view(&self) -> Seq<(Seq<char>, Seq<(Seq<char>, Seq<char>)>)> {
        owned_section_entries(self.sections)
    }
}

impl Default for ConfigOwned {
    fn default() -> (config: ConfigOwned)
        ensures
            config@ == Seq::<(Seq<char>, Seq<(Seq<char>, Seq<char>)>)>::empty(),
    {
        ConfigOwned { sections: owned_map_new() }
    }
}

impl ConfigOwned {
    #[verifier::type_invariant]
    spec fn well_formed(&self) -> bool {
        distinct_keys(owned_section_entries(self.sections))
    }

    /// Creates a document without sections.
    pub fn new() -> (config: Self)
        ensures
            config@ == Seq::<(Seq<char>, Seq<(Seq<char>, Seq<char>)>)>::empty(),
    {
        ConfigOwned { sections: owned_map_new() }
    }

    /// Puts an owned section under `name`.
    fn put(&mut self, name: &str, section: SectionOwned) -> (fresh: bool)
        ensures
            final(self)@ == upsert(old(self)@, name@, section@),
            fresh == (lookup(old(self)@, name@) is None),
            distinct_keys(final(self)@),
    {
        proof {
            use_type_invariant(&*self);
            lemma_upsert(owned_section_entries(self.sections), name@, section@);
        }
        // The map is changed outside the document, which so stays well formed
        // wherever the insertion might unwind.
        let mut sections = owned_map_new();
        core::mem::swap(&mut self.sections, &mut sections);
        let previous = owned_map_insert(&mut sections, String::from_str(name), section);
        core::mem::swap(&mut self.sections, &mut sections);
        previous.is_none()
    }

    /// Puts a copy of `section` under `section_name`, which must be the name
    /// of the section. A section that stood under the name is replaced as a
    /// whole, and the name keeps its place; a new name goes last. Returns
    /// whether the name is new.
    pub fn insert(&mut self, section_name: &str, section: &Section) -> (fresh: bool)
        requires
            section_name@ == section@.name,
        ensures
            final(self)@ == upsert(old(self)@, section_name@, section@.entries),
            fresh == (lookup(old(self)@, section_name@) is None),
            distinct_keys(final(self)@),
    {
        let (name, copy) = section.to_owned();
        self.put(name, copy)
    }

    /// The section under `name`, if there is one.
    pub fn get(&self, name: &str) -> (r: Option<&SectionOwned>)
        ensures
            match r {
                Some(section) => lookup(self@, name@) == Some(section@),
                None => lookup(self@, name@) is None,
            },
    {
        owned_map_get(&self.sections, name)
    }
}

} // verus!
