//! The insertion-ordered hash map of the `indexmap` crate, as far as this
//! crate uses it.
//!
//! Nothing in this file is proved. A map is known to the rest of the crate by
//! the sequence of its entries, in the order in which their keys were first
//! inserted, and the functions below state what `IndexMap`'s documentation
//! says of `new`, `insert`, `get` and `get_index` over that sequence.
use crate::entries::{lookup, upsert};
use crate::section::{Section, SectionOwned, SectionView};
use indexmap::IndexMap;
use vstd::prelude::*;

verus! {

#[verifier::external_type_specification]
#[verifier::external_body]
#[verifier::reject_recursive_types(K)]
#[verifier::reject_recursive_types(V)]
#[verifier::reject_recursive_types(S)]
pub struct ExIndexMap<K, V, S>(IndexMap<K, V, S>);

/// The entries of a map from string slices to string slices, in order.
pub uninterp spec fn str_entries(m: IndexMap<&str, &str>) -> Seq<(Seq<char>, Seq<char>)>;

/// The entries of a map from strings to strings, in order.
pub uninterp spec fn string_entries(m: IndexMap<String, String>) -> Seq<(Seq<char>, Seq<char>)>;

/// The entries of a map from names to sections, in order.
pub uninterp spec fn section_entries(m: IndexMap<&str, Section<'_>>) -> Seq<
    (Seq<char>, SectionView),
>;

/// The entries of a map from names to owned sections, in order.
pub uninterp spec fn owned_section_entries(m: IndexMap<String, SectionOwned>) -> Seq<
    (Seq<char>, Seq<(Seq<char>, Seq<char>)>),
>;

/// The characters of an optional string slice.
pub open spec fn view_opt(r: Option<&str>) -> Option<Seq<char>> {
    match r {
        Some(s) => Some(s@),
        None => None,
    }
}

/// `IndexMap::new`: a map without entries.
#[verifier::external_body]
pub(crate) fn str_map_new<'a>() -> (m: IndexMap<&'a str, &'a str>)
    ensures
        str_entries(m) == Seq::<(Seq<char>, Seq<char>)>::empty(),
{
    IndexMap::new()
}

/// `IndexMap::insert`: where the key is present its value is replaced, the
/// entry keeps its place and the old value is returned; else the entry is
/// added last and `None` is returned.
#[verifier::external_body]
pub(crate) fn str_map_insert<'a>(
    m: &mut IndexMap<&'a str, &'a str>,
    key: &'a str,
    value: &'a str,
) -> (r: Option<&'a str>)
    ensures
        str_entries(*final(m)) == upsert(str_entries(*old(m)), key@, value@),
        view_opt(r) == lookup(str_entries(*old(m)), key@),
{
    m.insert(key, value)
}

/// `IndexMap::get`: the value stored for the key, if it is present.
#[verifier::external_body]
pub(crate) fn str_map_get<'a>(m: &IndexMap<&'a str, &'a str>, key: &str) -> (r: Option<&'a str>)
    ensures
        view_opt(r) == lookup(str_entries(*m), key@),
{
    m.get(key).copied()
}

/// `IndexMap::get_index`: the entry at a position in the order, or `None`
/// where the position is not below the number of entries.
#[verifier::external_body]
pub(crate) fn str_map_get_index<'a>(m: &IndexMap<&'a str, &'a str>, index: usize) -> (r: Option<
    (&'a str, &'a str),
>)
    ensures
        match r {
            Some((key, value)) => index < str_entries(*m).len() && (key@, value@) == str_entries(
                *m,
            )[index as int],
            None => index >= str_entries(*m).len(),
        },
{
    m.get_index(index).map(|(key, value)| (*key, *value))
}

/// `IndexMap::new`: a map without entries.
#[verifier::external_body]
pub(crate) fn string_map_new() -> (m: IndexMap<String, String>)
    ensures
        string_entries(m) == Seq::<(Seq<char>, Seq<char>)>::empty(),
{
    IndexMap::new()
}

/// `IndexMap::insert`: where the key is present its value is replaced, the
/// entry keeps its place and the old value is returned; else the entry is
/// added last and `None` is returned.
#[verifier::external_body]
pub(crate) fn string_map_insert(m: &mut IndexMap<String, String>, key: String, value: String) -> (r:
    Option<String>)
    ensures
        string_entries(*final(m)) == upsert(string_entries(*old(m)), key@, value@),
        match r {
            Some(previous) => lookup(string_entries(*old(m)), key@) == Some(previous@),
            None => lookup(string_entries(*old(m)), key@) is None,
        },
{
    m.insert(key, value)
}

/// `IndexMap::new`: a map without entries.
#[verifier::external_body]
pub(crate) fn section_map_new<'a>() -> (m: IndexMap<&'a str, Section<'a>>)
    ensures
        section_entries(m) == Seq::<(Seq<char>, SectionView)>::empty(),
{
    IndexMap::new()
}

/// `IndexMap::insert`: where the key is present its value is replaced, the
/// entry keeps its place and the old value is returned; else the entry is
/// added last and `None` is returned.
#[verifier::external_body]
pub(crate) fn section_map_insert<'a>(
    m: &mut IndexMap<&'a str, Section<'a>>,
    name: &'a str,
    section: Section<'a>,
) -> (r: Option<Section<'a>>)
    ensures
        section_entries(*final(m)) == upsert(section_entries(*old(m)), name@, section@),
        match r {
            Some(previous) => lookup(section_entries(*old(m)), name@) == Some(previous@),
            None => lookup(section_entries(*old(m)), name@) is None,
        },
{
    m.insert(name, section)
}

/// `IndexMap::get`: the value stored for the key, if it is present.
#[verifier::external_body]
pub(crate) fn section_map_get<'m, 'a>(m: &'m IndexMap<&'a str, Section<'a>>, name: &str) -> (r:
    Option<&'m Section<'a>>)
    ensures
        match r {
            Some(section) => lookup(section_entries(*m), name@) == Some(section@),
            None => lookup(section_entries(*m), name@) is None,
        },
{
    m.get(name)
}

/// `IndexMap::get_index`: the entry at a position in the order, or `None`
/// where the position is not below the number of entries.
#[verifier::external_body]
pub(crate) fn section_map_get_index<'m, 'a>(
    m: &'m IndexMap<&'a str, Section<'a>>,
    index: usize,
) -> (r: Option<(&'a str, &'m Section<'a>)>)
    ensures
        match r {
            Some((name, section)) => index < section_entries(*m).len() && (name@, section@)
                == section_entries(*m)[index as int],
            None => index >= section_entries(*m).len(),
        },
{
    m.get_index(index).map(|(name, section)| (*name, section))
}

/// `IndexMap::new`: a map without entries.
#[verifier::external_body]
pub(crate) fn owned_map_new() -> (m: IndexMap<String, SectionOwned>)
    ensures
        owned_section_entries(m) == Seq::<(Seq<char>, Seq<(Seq<char>, Seq<char>)>)>::empty(),
{
    IndexMap::new()
}

/// `IndexMap::insert`: where the key is present its value is replaced, the
/// entry keeps its place and the old value is returned; else the entry is
/// added last and `None` is returned.
#[verifier::external_body]
pub(crate) fn owned_map_insert(
    m: &mut IndexMap<String, SectionOwned>,
    name: String,
    section: SectionOwned,
) -> (r: Option<SectionOwned>)
    ensures
        owned_section_entries(*final(m)) == upsert(owned_section_entries(*old(m)), name@, section@),
        match r {
            Some(previous) => lookup(owned_section_entries(*old(m)), name@) == Some(previous@),
            None => lookup(owned_section_entries(*old(m)), name@) is None,
        },
{
    m.insert(name, section)
}

/// `IndexMap::get`: the value stored for the key, if it is present.
#[verifier::external_body]
pub(crate) fn owned_map_get<'m>(m: &'m IndexMap<String, SectionOwned>, name: &str) -> (r: Option<
    &'m SectionOwned,
>)
    ensures
        match r {
            Some(section) => lookup(owned_section_entries(*m), name@) == Some(section@),
            None => lookup(owned_section_entries(*m), name@) is None,
        },
{
    m.get(name)
}

} // verus!
