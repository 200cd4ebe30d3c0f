//! Byte paths: joining, parent directories and parent-directory segments.
use vstd::prelude::*;

verus! {

/// The path separator `/`.
pub const SEP: u8 = 47;

/// The byte `.`.
pub const DOT: u8 = 46;

/// `rel` appended to `base` the way a path is pushed onto another: an
/// absolute `rel` replaces `base`, and one separator stands between the two.
pub open spec fn join(base: Seq<u8>, rel: Seq<u8>) -> Seq<u8> {
    if rel.len() > 0 && rel[0] == SEP {
        rel
    } else if base.len() == 0 || base.last() == SEP {
        base + rel
    } else {
        base.push(SEP) + rel
    }
}

/// A `..` segment of `p` starts at `i`.
pub open spec fn parent_segment_at(p: Seq<u8>, i: int) -> bool {
    &&& 0 <= i
    &&& i + 2 <= p.len()
    &&& p[i] == DOT
    &&& p[i + 1] == DOT
    &&& (i == 0 || p[i - 1] == SEP)
    &&& (i + 2 == p.len() || p[i + 2] == SEP)
}

/// Some segment of `p` is `..`.
pub open spec fn has_parent_segment(p: Seq<u8>) -> bool {
    exists|i: int| parent_segment_at(p, i)
}

/// `acc` with the segment `cur` added, unless it is empty or `.`.
pub open spec fn keep_segment(acc: Seq<Seq<u8>>, cur: Seq<u8>) -> Seq<Seq<u8>> {
    if cur.len() == 0 || cur == seq![DOT] {
        acc
    } else {
        acc.push(cur)
    }
}

/// The segments of `p` after the segments `acc` and the unfinished segment `cur`.
pub open spec fn segments_from(p: Seq<u8>, cur: Seq<u8>, acc: Seq<Seq<u8>>) -> Seq<Seq<u8>>
    decreases p.len(),
{
    if p.len() == 0 {
        keep_segment(acc, cur)
    } else if p[0] == SEP {
        segments_from(p.drop_first(), Seq::empty(), keep_segment(acc, cur))
    } else {
        segments_from(p.drop_first(), cur.push(p[0]), acc)
    }
}

/// The segments of the relative path `p` as the filesystem resolves them:
/// empty segments (repeated or trailing separators) and `.` name nothing.
pub open spec fn segments(p: Seq<u8>) -> Seq<Seq<u8>> {
    segments_from(p, Seq::empty(), Seq::empty())
}

/// Length of the part of `p` before its last separator (0 where it has none).
pub open spec fn dir_prefix_len(p: Seq<u8>) -> nat
    decreases p.len(),
{
    if p.len() == 0 {
        0
    } else if p.last() == SEP {
        (p.len() - 1) as nat
    } else {
        dir_prefix_len(p.drop_last())
    }
}

pub proof fn lemma_dir_prefix_len_bound(p: Seq<u8>)
    ensures
        dir_prefix_len(p) <= p.len(),
        p.len() > 0 ==> dir_prefix_len(p) < p.len(),
    decreases p.len(),
{
    if p.len() > 0 && p.last() != SEP {
        lemma_dir_prefix_len_bound(p.drop_last());
    }
}

/// Appends the bytes of `s` to `r`.
pub fn append_bytes(r: &mut Vec<u8>, s: &[u8])
    ensures
        final(r)@ == old(r)@ + s@,
{
    let mut i: usize = 0;
    while i < s.len()
        invariant
            i <= s@.len(),
            r@ == old(r)@ + s@.subrange(0, i as int),
        decreases s@.len() - i,
    {
        r.push(s[i]);
        i = i + 1;
        assert(s@.subrange(0, i as int) == s@.subrange(0, i - 1) + seq![s@[i - 1]]);
    }
    assert(s@.subrange(0, s@.len() as int) == s@);
}

/// `rel` joined onto `base`.
pub fn join_path(base: &[u8], rel: &[u8]) -> (r: Vec<u8>)
    ensures
        r@ == join(base@, rel@),
{
    let mut r: Vec<u8> = Vec::new();
    if rel.len() > 0 && rel[0] == SEP {
        append_bytes(&mut r, rel);
        return r;
    }
    append_bytes(&mut r, base);
    if base.len() > 0 && base[base.len() - 1] != SEP {
        r.push(SEP);
    }
    append_bytes(&mut r, rel);
    r
}

/// Whether `p` holds a `..` segment.
pub fn contains_parent_segment(p: &[u8]) -> (r: bool)
    ensures
        r == has_parent_segment(p@),
{
    let n = p.len();
    let mut i: usize = 0;
    while i < n && n - i >= 2
        invariant
            n == p@.len(),
            i <= n,
            forall|j: int| 0 <= j < i ==> !parent_segment_at(p@, j),
        decreases n - i,
    {
        if p[i] == DOT && p[i + 1] == DOT && (i == 0 || p[i - 1] == SEP) && (i + 2 == n
            || p[i + 2] == SEP) {
            assert(parent_segment_at(p@, i as int));
            return true;
        }
        i = i + 1;
    }
    assert forall|j: int| !parent_segment_at(p@, j) by {
        if 0 <= j && j >= i {
            assert(j + 2 > n || i >= n);
        }
    }
    false
}

/// Length of the part of `p` before its last separator.
pub fn dir_prefix(p: &[u8]) -> (r: usize)
    ensures
        r == dir_prefix_len(p@),
        r <= p@.len(),
{
    proof {
        lemma_dir_prefix_len_bound(p@);
    }
    let mut i: usize = p.len();
    assert(p@.subrange(0, i as int) == p@);
    while i > 0
        invariant
            i <= p@.len(),
            dir_prefix_len(p@.subrange(0, i as int)) == dir_prefix_len(p@),
        decreases i,
    {
        let ghost q = p@.subrange(0, i as int);
        if p[i - 1] == SEP {
            assert(q.last() == SEP);
            return i - 1;
        }
        assert(q.drop_last() == p@.subrange(0, i - 1));
        i = i - 1;
    }
    0
}

} // verus!
