//! Trusted interface to `indexmap::IndexMap`, used for the BNF's
//! insertion-ordered name tables (token name to terminal id, start name to
//! nonterminal id).
//!
//! The contents of a map are named by `imap_entries`: the sequence of
//! (key view, value) pairs in insertion order. Each wrapper states over that
//! name what `indexmap`'s documentation promises of the call it makes.
use vstd::prelude::*;

verus! {

#[verifier::external_type_specification]
#[verifier::external_body]
#[verifier::reject_recursive_types(K)]
#[verifier::reject_recursive_types(V)]
#[verifier::reject_recursive_types(S)]
pub struct ExIndexMap<K, V, S>(indexmap::IndexMap<K, V, S>);

/// The (key view, value) pairs held by a name table, in insertion order.
pub uninterp spec fn imap_entries(m: indexmap::IndexMap<String, u32>) -> Seq<(Seq<char>, u32)>;

/// Whether some entry has the key `k`.
pub open spec fn imap_has_key(m: indexmap::IndexMap<String, u32>, k: Seq<char>) -> bool {
    exists|i: int| 0 <= i < imap_entries(m).len() && imap_entries(m)[i].0 == k
}

/// Relies on `IndexMap::new`: creates an empty map.
#[verifier::external_body]
pub fn imap_new() -> (r: indexmap::IndexMap<String, u32>)
    ensures
        imap_entries(r) == Seq::<(Seq<char>, u32)>::empty(),
{
    indexmap::IndexMap::new()
}

/// Relies on `IndexMap::insert`: when no equivalent key exists, the new pair
/// is inserted last in order.
#[verifier::external_body]
pub fn imap_insert_new(m: &mut indexmap::IndexMap<String, u32>, k: String, v: u32)
    requires
        !imap_has_key(*old(m), k@),
    ensures
        imap_entries(*final(m)) == imap_entries(*old(m)).push((k@, v)),
{
    m.insert(k, v);
}

/// Relies on `IndexMap::len`: the number of entries.
#[verifier::external_body]
pub fn imap_len(m: &indexmap::IndexMap<String, u32>) -> (r: usize)
    ensures
        r == imap_entries(*m).len(),
{
    m.len()
}

/// Relies on `IndexMap::contains_key`: whether an equivalent key exists.
#[verifier::external_body]
pub fn imap_contains(m: &indexmap::IndexMap<String, u32>, k: &String) -> (r: bool)
    ensures
        r == imap_has_key(*m, k@),
{
    m.contains_key(k.as_str())
}

/// Relies on `IndexMap::get_index`: the pair at a position in insertion
/// order, if the position is in range. The key is handed out as a copy.
#[verifier::external_body]
pub fn imap_get_index(m: &indexmap::IndexMap<String, u32>, index: usize) -> (r: Option<(
    String,
    u32,
)>)
    ensures
        match r {
            Some(p) => index < imap_entries(*m).len()
                && imap_entries(*m)[index as int] == (p.0@, p.1),
            None => index >= imap_entries(*m).len(),
        },
{
    m.get_index(index).map(|(k, v)| (k.clone(), *v))
}

} // verus!
