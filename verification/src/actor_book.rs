//! Trusted interface to `bimap::BiHashMap`, used to keep actor names and
//! actor addresses in a one-to-one relation.
//!
//! An actor's name is held as a `String`, its address as the `u64` that the
//! address is made of. What a map holds is named by [`bimap_pairs`]: the set
//! of its (name, address) pairs, names taken by their characters.
use bimap::BiHashMap;
use vstd::prelude::*;

verus! {

#[verifier::external_type_specification]
#[verifier::external_body]
#[verifier::reject_recursive_types(L)]
#[verifier::reject_recursive_types(R)]
#[verifier::reject_recursive_types(LS)]
#[verifier::reject_recursive_types(RS)]
pub struct ExBiHashMap<L, R, LS, RS>(BiHashMap<L, R, LS, RS>);

/// The (name, address) pairs that a map holds.
pub uninterp spec fn bimap_pairs(m: BiHashMap<String, u64>) -> Set<(Seq<char>, u64)>;

/// Whether some pair of `pairs` has the name `name`.
pub open spec fn has_left(pairs: Set<(Seq<char>, u64)>, name: Seq<char>) -> bool {
    exists|a: u64| pairs.contains((name, a))
}

/// Whether some pair of `pairs` has the address `addr`.
pub open spec fn has_right(pairs: Set<(Seq<char>, u64)>, addr: u64) -> bool {
    exists|n: Seq<char>| pairs.contains((n, addr))
}

/// `BiHashMap::new`: the map it returns is empty.
#[verifier::external_body]
pub(crate) fn bimap_new() -> (m: BiHashMap<String, u64>)
    ensures
        bimap_pairs(m) == Set::<(Seq<char>, u64)>::empty(),
{
    BiHashMap::new()
}

/// `BiHashMap::get_by_left`: returns an address paired with `name` when
/// there is one, and `None` when `name` is in no pair.
#[verifier::external_body]
pub(crate) fn bimap_get_by_left(m: &BiHashMap<String, u64>, name: &str) -> (r: Option<u64>)
    ensures
        r matches Some(a) ==> bimap_pairs(*m).contains((name@, a)),
        r is None <==> !has_left(bimap_pairs(*m), name@),
{
    m.get_by_left(name).copied()
}

/// `BiHashMap::get_by_right`: returns a name paired with `addr` when there is
/// one, and `None` when `addr` is in no pair.
#[verifier::external_body]
pub(crate) fn bimap_get_by_right(m: &BiHashMap<String, u64>, addr: u64) -> (r: Option<String>)
    ensures
        r matches Some(n) ==> bimap_pairs(*m).contains((n@, addr)),
        r is None <==> !has_right(bimap_pairs(*m), addr),
{
    m.get_by_right(&addr).cloned()
}

/// `BiHashMap::insert_no_overwrite`: when neither `name` nor `addr` is in a
/// pair, adds the pair and returns `true`; otherwise leaves the map as it
/// was and returns `false`.
#[verifier::external_body]
pub(crate) fn bimap_insert_no_overwrite(m: &mut BiHashMap<String, u64>, name: String, addr: u64) -> (r: bool)
    ensures
        r == !(has_left(bimap_pairs(*old(m)), name@) || has_right(bimap_pairs(*old(m)), addr)),
        r ==> bimap_pairs(*final(m)) == bimap_pairs(*old(m)).insert((name@, addr)),
        !r ==> bimap_pairs(*final(m)) == bimap_pairs(*old(m)),
{
    m.insert_no_overwrite(name, addr).is_ok()
}

/// `BiHashMap::insert`: removes the pairs that hold `name` or `addr`, then
/// adds the pair; returns whether some pair was removed.
#[verifier::external_body]
pub(crate) fn bimap_insert(m: &mut BiHashMap<String, u64>, name: String, addr: u64) -> (r: bool)
    ensures
        r == (has_left(bimap_pairs(*old(m)), name@) || has_right(bimap_pairs(*old(m)), addr)),
        bimap_pairs(*final(m)) == bimap_pairs(*old(m)).filter(
            |p: (Seq<char>, u64)| p.0 != name@ && p.1 != addr,
        ).insert((name@, addr)),
{
    m.insert(name, addr).did_overwrite()
}

/// `Extend::extend` of `BiHashMap` with the pairs of another map: when no
/// name and no address of `other` is in a pair of `m`, `m` ends up holding
/// the pairs of both. (With overlaps, which pairs survive depends on the
/// order in which `other` is walked; nothing is stated of that case.)
#[verifier::external_body]
pub(crate) fn bimap_extend(m: &mut BiHashMap<String, u64>, other: BiHashMap<String, u64>)
    ensures
        (forall|n: Seq<char>| has_left(bimap_pairs(other), n) ==> !has_left(bimap_pairs(*old(m)), n))
            && (forall|a: u64| has_right(bimap_pairs(other), a) ==> !has_right(bimap_pairs(*old(m)), a))
            ==> bimap_pairs(*final(m)) == bimap_pairs(*old(m)).union(bimap_pairs(other)),
{
    m.extend(other)
}

} // verus!
