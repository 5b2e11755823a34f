//! Small byte-sequence helpers shared by the parsers.
use vstd::prelude::*;

verus! {

/// Byte-wise equality of two slices.
pub fn bytes_eq(a: &[u8], b: &[u8]) -> (r: bool)
    ensures
        r == (a@ == b@),
{
    if a.len() != b.len() {
        return false;
    }
    let mut i: usize = 0;
    while i < a.len()
        invariant
            a@.len() == b@.len(),
            i <= a@.len(),
            forall|k: int| 0 <= k < i ==> a@[k] == b@[k],
        decreases a@.len() - i,
    {
        if a[i] != b[i] {
            return false;
        }
        i = i + 1;
    }
    assert(a@ =~= b@);
    true
}

/// A fresh vector holding `buf[start..end]`.
pub fn copy_range(buf: &[u8], start: usize, end: usize) -> (r: Vec<u8>)
    requires
        start <= end <= buf@.len(),
    ensures
        r@ == buf@.subrange(start as int, end as int),
{
    let mut out: Vec<u8> = Vec::new();
    let mut i = start;
    while i < end
        invariant
            start <= i <= end <= buf@.len(),
            out@ == buf@.subrange(start as int, i as int),
        decreases end - i,
    {
        out.push(buf[i]);
        i = i + 1;
        assert(out@ =~= buf@.subrange(start as int, i as int));
    }
    out
}

/// Appends all of `src` to `dst`.
pub fn append_bytes(dst: &mut Vec<u8>, src: &[u8])
    ensures
        final(dst)@ == old(dst)@ + src@,
{
    let mut i: usize = 0;
    while i < src.len()
        invariant
            i <= src@.len(),
            dst@ == old(dst)@ + src@.subrange(0, i as int),
        decreases src@.len() - i,
    {
        dst.push(src[i]);
        i = i + 1;
        assert(dst@ =~= old(dst)@ + src@.subrange(0, i as int));
    }
    assert(src@.subrange(0, src@.len() as int) =~= src@);
}

/// A fresh copy of a vector of index pairs.
pub fn copy_pairs(v: &Vec<(u32, u32)>) -> (r: Vec<(u32, u32)>)
    ensures
        r@ == v@,
{
    let mut out: Vec<(u32, u32)> = Vec::new();
    let mut i: usize = 0;
    while i < v.len()
        invariant
            i <= v@.len(),
            out@ == v@.subrange(0, i as int),
        decreases v@.len() - i,
    {
        out.push(v[i]);
        i = i + 1;
        assert(out@ =~= v@.subrange(0, i as int));
    }
    assert(v@.subrange(0, v@.len() as int) =~= v@);
    out
}

/// Little-endian value of the `w` bytes of `d` from `i`.
pub open spec fn le_at(d: Seq<u8>, i: int, w: nat) -> nat
    decreases w,
{
    if w == 0 {
        0
    } else {
        d[i] as nat + 256 * le_at(d, i + 1, (w - 1) as nat)
    }
}

/// Index of the first element of `s` that satisfies `p`, if any.
pub open spec fn first_index<A>(s: Seq<A>, p: spec_fn(A) -> bool) -> Option<int> {
    if exists|j: int| is_first(s, p, j) {
        Some(choose|j: int| is_first(s, p, j))
    } else {
        None
    }
}

/// `j` is the position of the first element of `s` satisfying `p`.
pub open spec fn is_first<A>(s: Seq<A>, p: spec_fn(A) -> bool, j: int) -> bool {
    &&& 0 <= j < s.len()
    &&& p(s[j])
    &&& forall|k: int| 0 <= k < j ==> !p(#[trigger] s[k])
}

pub proof fn lemma_first_index_at<A>(s: Seq<A>, p: spec_fn(A) -> bool, j: int)
    requires
        is_first(s, p, j),
    ensures
        first_index(s, p) == Some(j),
{
    let c = choose|i: int| is_first(s, p, i);
    assert(is_first(s, p, c));
    if c < j {
        assert(!p(s[c]));
    } else if c > j {
        assert(!p(s[j]));
    }
}

pub proof fn lemma_first_index_some<A>(s: Seq<A>, p: spec_fn(A) -> bool)
    requires
        first_index(s, p) is Some,
    ensures
        is_first(s, p, first_index(s, p)->0),
{
}

pub proof fn lemma_first_index_none<A>(s: Seq<A>, p: spec_fn(A) -> bool)
    requires
        forall|k: int| 0 <= k < s.len() ==> !p(#[trigger] s[k]),
    ensures
        first_index(s, p) is None,
{
    if exists|j: int| is_first(s, p, j) {
        let c = choose|i: int| is_first(s, p, i);
        assert(p(s[c]));
    }
}


/// `std::path::PathBuf`, carried through as the place a save was read from.
#[verifier::external_type_specification]
#[verifier::external_body]
pub struct ExPathBuf(std::path::PathBuf);

} // verus!
