//! The set of directories that have been found to lie inside a destination.
use rustc_hash::FxBuildHasher;
use rustc_hash::FxHashSet;
use vstd::prelude::*;

verus! {

/// The hasher of `FxHashSet`. Nothing is stated of it.
#[verifier::external_type_specification]
#[verifier::external_body]
pub struct ExFxBuildHasher(FxBuildHasher);

/// The paths that a memo holds.
pub uninterp spec fn memo_paths(memo: FxHashSet<Vec<u8>>) -> Set<Seq<u8>>;

/// `FxHashSet::default`: a new set holds nothing.
#[verifier::external_body]
pub(crate) fn new_memo() -> (memo: FxHashSet<Vec<u8>>)
    ensures
        memo_paths(memo) == Set::<Seq<u8>>::empty(),
{
    FxHashSet::default()
}

/// `FxHashSet::contains`: whether a path with these bytes is in the set.
#[verifier::external_body]
pub(crate) fn memo_contains(memo: &FxHashSet<Vec<u8>>, path: &[u8]) -> (found: bool)
    ensures
        found == memo_paths(*memo).contains(path@),
{
    memo.contains(path)
}

/// `FxHashSet::insert`: the path joins the set.
#[verifier::external_body]
pub(crate) fn memo_insert(memo: &mut FxHashSet<Vec<u8>>, path: Vec<u8>)
    ensures
        memo_paths(*final(memo)) == memo_paths(*old(memo)).insert(path@),
{
    memo.insert(path);
}

/// `FxHashSet::clear`: nothing stays in the set.
#[verifier::external_body]
pub(crate) fn memo_clear(memo: &mut FxHashSet<Vec<u8>>)
    ensures
        memo_paths(*final(memo)) == Set::<Seq<u8>>::empty(),
{
    memo.clear();
}

} // verus!
