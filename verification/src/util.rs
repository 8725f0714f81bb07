//! Small verified helpers shared by the coordinator modules.

use vstd::prelude::*;
use vstd::string::StringSliceAdditionalSpecFns;

verus! {

broadcast use vstd::seq::group_seq_axioms;

/// Compares two string slices by their contents.
pub fn str_eq(a: &str, b: &str) -> (r: bool)
    ensures
        r == (a@ == b@),
{
    let ab = a.as_bytes();
    let bb = b.as_bytes();
    proof {
        vstd::utf8::encode_utf8_decode_utf8(a@);
        vstd::utf8::encode_utf8_decode_utf8(b@);
    }
    if ab.len() != bb.len() {
        return false;
    }
    let mut i: usize = 0;
    while i < ab.len()
        invariant
            ab@ == a.spec_bytes(),
            bb@ == b.spec_bytes(),
            ab@.len() == bb@.len(),
            0 <= i <= ab@.len(),
            forall|j: int| 0 <= j < i ==> ab@[j] == bb@[j],
        decreases ab@.len() - i,
    {
        if ab[i] != bb[i] {
            return false;
        }
        i = i + 1;
    }
    assert(ab@ =~= bb@);
    true
}

/// Compares two byte slices by their contents.
pub fn bytes_eq(a: &[u8], b: &[u8]) -> (r: bool)
    ensures
        r == (a@ == b@),
{
    if a.len() != b.len() {
        return false;
    }
    let mut i: usize = 0;
    while i < a.len()
        invariant
            a@.len() == b@.len(),
            0 <= i <= a@.len(),
            forall|j: int| 0 <= j < i ==> a@[j] == b@[j],
        decreases a@.len() - i,
    {
        if a[i] != b[i] {
            return false;
        }
        i = i + 1;
    }
    assert(a@ =~= b@);
    true
}

/// Copies a byte slice into a fresh vector.
pub fn copy_bytes(a: &[u8]) -> (r: Vec<u8>)
    ensures
        r@ == a@,
{
    let mut out: Vec<u8> = Vec::new();
    let mut i: usize = 0;
    while i < a.len()
        invariant
            0 <= i <= a@.len(),
            out@ == a@.subrange(0, i as int),
        decreases a@.len() - i,
    {
        out.push(a[i]);
        i = i + 1;
        assert(out@ =~= a@.subrange(0, i as int));
    }
    assert(a@.subrange(0, a@.len() as int) =~= a@);
    out
}

/// Copies a byte slice range `[start, end)` into a fresh vector.
pub fn copy_range(a: &[u8], start: usize, end: usize) -> (r: Vec<u8>)
    requires
        start <= end <= a@.len(),
    ensures
        r@ == a@.subrange(start as int, end as int),
{
    let mut out: Vec<u8> = Vec::new();
    let mut i: usize = start;
    while i < end
        invariant
            start <= i <= end <= a@.len(),
            out@ == a@.subrange(start as int, i as int),
        decreases end - i,
    {
        out.push(a[i]);
        i = i + 1;
        assert(out@ =~= a@.subrange(start as int, i as int));
    }
    out
}

/// In-place retention starts from the whole sequence: nothing examined yet.
pub proof fn lemma_retain_start<T>(s: Seq<T>, p: spec_fn(T) -> bool)
    ensures
        s == s.take(0).filter(p) + s.skip(0),
        s.take(0).filter(p).len() == 0,
{
    reveal(Seq::filter);
    assert(s.take(0).filter(p) =~= Seq::<T>::empty());
    assert(s =~= s.take(0).filter(p) + s.skip(0));
}

/// One step of in-place retention: the next unexamined element is at `i`;
/// it stays when `p` holds of it and is removed otherwise.
pub proof fn lemma_retain_step<T>(s: Seq<T>, cur: Seq<T>, p: spec_fn(T) -> bool, j: int, i: int)
    requires
        0 <= j < s.len(),
        cur == s.take(j).filter(p) + s.skip(j),
        i == s.take(j).filter(p).len(),
    ensures
        0 <= i < cur.len(),
        cur[i] == s[j],
        p(s[j]) ==> cur == s.take(j + 1).filter(p) + s.skip(j + 1) && i + 1 == s.take(
            j + 1,
        ).filter(p).len(),
        !p(s[j]) ==> cur.remove(i) == s.take(j + 1).filter(p) + s.skip(j + 1) && i == s.take(
            j + 1,
        ).filter(p).len(),
{
    reveal(Seq::filter);
    let pre = s.take(j).filter(p);
    assert(s.take(j + 1).drop_last() =~= s.take(j));
    assert(s.take(j + 1).last() == s[j]);
    assert(cur[i] == s.skip(j)[0]);
    if p(s[j]) {
        assert(s.take(j + 1).filter(p) == pre.push(s[j]));
        assert(cur =~= pre.push(s[j]) + s.skip(j + 1));
    } else {
        assert(s.take(j + 1).filter(p) == pre);
        assert(cur.remove(i) =~= pre + s.skip(j + 1));
    }
}

/// In-place retention is done once every element was examined.
pub proof fn lemma_retain_done<T>(s: Seq<T>, cur: Seq<T>, p: spec_fn(T) -> bool, j: int)
    requires
        0 <= j <= s.len(),
        cur == s.take(j).filter(p) + s.skip(j),
        cur.len() <= s.take(j).filter(p).len(),
    ensures
        cur == s.filter(p),
{
    assert(s.take(j) =~= s) by {
        assert(s.skip(j).len() == 0);
    }
    assert(cur =~= s.filter(p));
}

/// Filtering a prefix one element longer adds that element when it passes.
pub proof fn lemma_filter_take_succ<T>(s: Seq<T>, p: spec_fn(T) -> bool, k: int)
    requires
        0 <= k < s.len(),
    ensures
        s.take(k + 1).filter(p) == (if p(s[k]) {
            s.take(k).filter(p).push(s[k])
        } else {
            s.take(k).filter(p)
        }),
{
    reveal(Seq::filter);
    assert(s.take(k + 1).drop_last() =~= s.take(k));
}

/// One step of an in-place rewrite-and-retain pass: position `i` of `cur`
/// holds the old element `t[j]`; it is replaced by its rewrite `s[j]` when
/// `p` holds of that, and removed otherwise.
pub proof fn lemma_rewrite_step<T>(
    s: Seq<T>,
    t: Seq<T>,
    cur: Seq<T>,
    p: spec_fn(T) -> bool,
    j: int,
    i: int,
)
    requires
        s.len() == t.len(),
        0 <= j < s.len(),
        cur == s.take(j).filter(p) + t.skip(j),
        i == s.take(j).filter(p).len(),
    ensures
        0 <= i < cur.len(),
        cur[i] == t[j],
        p(s[j]) ==> cur.update(i, s[j]) == s.take(j + 1).filter(p) + t.skip(j + 1) && i + 1
            == s.take(j + 1).filter(p).len(),
        !p(s[j]) ==> cur.remove(i) == s.take(j + 1).filter(p) + t.skip(j + 1) && i == s.take(
            j + 1,
        ).filter(p).len(),
{
    lemma_filter_take_succ(s, p, j);
    let pre = s.take(j).filter(p);
    assert(cur[i] == t.skip(j)[0]);
    if p(s[j]) {
        assert(cur.update(i, s[j]) =~= pre.push(s[j]) + t.skip(j + 1));
    } else {
        assert(cur.remove(i) =~= pre + t.skip(j + 1));
    }
}

} // verus!
