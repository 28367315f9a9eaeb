//! Searching and comparing byte strings.
use vstd::prelude::*;

verus! {

/// Where `byte` first stands in `text`, or the length of `text` if it does not.
pub open spec fn first_at(text: Seq<u8>, byte: u8) -> int
    decreases text.len(),
{
    if text.len() == 0 || text[0] == byte {
        0
    } else {
        1 + first_at(text.drop_first(), byte)
    }
}

/// The bytes of `text` before the first `byte`: all of them if there is none.
pub open spec fn up_to(text: Seq<u8>, byte: u8) -> Seq<u8> {
    text.take(first_at(text, byte))
}

/// The place that `first_at` gives is the first one that holds the byte.
pub proof fn lemma_first_at(text: Seq<u8>, byte: u8)
    ensures
        0 <= first_at(text, byte) <= text.len(),
        first_at(text, byte) < text.len() ==> text[first_at(text, byte)] == byte,
        forall|i: int| 0 <= i < first_at(text, byte) ==> text[i] != byte,
    decreases text.len(),
{
    if text.len() > 0 && text[0] != byte {
        let rest = text.drop_first();
        lemma_first_at(rest, byte);
        assert forall|i: int| 0 <= i < first_at(text, byte) implies text[i] != byte by {
            if i > 0 {
                assert(text[i] == rest[i - 1]);
            }
        }
    }
}

/// There is only one place with the properties of `first_at`.
pub proof fn lemma_first_at_unique(text: Seq<u8>, byte: u8, at: int)
    requires
        0 <= at <= text.len(),
        at < text.len() ==> text[at] == byte,
        forall|i: int| 0 <= i < at ==> text[i] != byte,
    ensures
        first_at(text, byte) == at,
{
    lemma_first_at(text, byte);
}

/// Finds the first `byte` in `text`; the result is the length of `text` if there is none.
pub fn find_byte(text: &[u8], byte: u8) -> (at: usize)
    ensures
        at == first_at(text@, byte),
        at <= text@.len(),
{
    let mut i: usize = 0;
    while i < text.len() && text[i] != byte
        invariant
            i <= text@.len(),
            forall|j: int| 0 <= j < i ==> text@[j] != byte,
        decreases text@.len() - i,
    {
        i += 1;
    }
    proof {
        lemma_first_at_unique(text@, byte, i as int);
    }
    i
}

/// Whether two byte strings are equal.
pub fn same_bytes(a: &[u8], b: &[u8]) -> (same: bool)
    ensures
        same == (a@ == b@),
{
    if a.len() != b.len() {
        return false;
    }
    let mut i: usize = 0;
    while i < a.len()
        invariant
            i <= a@.len(),
            a@.len() == b@.len(),
            forall|j: int| 0 <= j < i ==> a@[j] == b@[j],
        decreases a@.len() - i,
    {
        if a[i] != b[i] {
            return false;
        }
        i += 1;
    }
    assert(a@ =~= b@);
    true
}

/// Whether `text` opens with `prefix`.
pub fn opens_with(text: &[u8], prefix: &[u8]) -> (does: bool)
    ensures
        does == prefix@.is_prefix_of(text@),
{
    if text.len() < prefix.len() {
        return false;
    }
    let mut i: usize = 0;
    while i < prefix.len()
        invariant
            i <= prefix@.len() <= text@.len(),
            forall|j: int| 0 <= j < i ==> text@[j] == prefix@[j],
        decreases prefix@.len() - i,
    {
        if text[i] != prefix[i] {
            assert(text@.take(prefix@.len() as int)[i as int] != prefix@[i as int]);
            return false;
        }
        i += 1;
    }
    assert(prefix@ =~= text@.take(prefix@.len() as int));
    true
}

/// Adds `more` at the end of `out`.
pub fn extend_bytes(out: &mut Vec<u8>, more: &[u8])
    ensures
        final(out)@ == old(out)@ + more@,
{
    let mut i: usize = 0;
    let ghost before = out@;
    while i < more.len()
        invariant
            i <= more@.len(),
            out@ == before + more@.take(i as int),
        decreases more@.len() - i,
    {
        out.push(more[i]);
        i += 1;
        assert(more@.take(i as int) =~= more@.take(i - 1).push(more@[i - 1]));
    }
    assert(more@.take(i as int) =~= more@);
}

} // verus!
