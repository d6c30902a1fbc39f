//! Small sets of symbol indices kept in vectors, and byte-string helpers.
use vstd::prelude::*;

verus! {

/// Adds `x` unless it is already there.
pub fn insert_unique(v: &mut Vec<usize>, x: usize)
    ensures
        forall|y: usize| #[trigger] final(v)@.contains(y) <==> (old(v)@.contains(y) || y == x),
{
    let mut i: usize = 0;
    while i < v.len()
        invariant
            0 <= i <= v@.len(),
            forall|k: int| 0 <= k < i ==> v@[k] != x,
        decreases v@.len() - i,
    {
        if v[i] == x {
            return;
        }
        i = i + 1;
    }
    v.push(x);
    proof {
        assert forall|y: usize| final(v)@.contains(y) <==> (old(v)@.contains(y) || y == x) by {
            if old(v)@.contains(y) {
                let k = choose|k: int| 0 <= k < old(v)@.len() && old(v)@[k] == y;
                assert(v@[k] == y);
            }
            if y == x {
                assert(v@[v@.len() - 1] == y);
            }
            if v@.contains(y) {
                let k = choose|k: int| 0 <= k < v@.len() && v@[k] == y;
                if k < old(v)@.len() {
                    assert(old(v)@[k] == y);
                }
            }
        }
    }
}

/// Whether `x` is in `v`.
pub fn member(v: &Vec<usize>, x: usize) -> (r: bool)
    ensures
        r == v@.contains(x),
{
    let mut i: usize = 0;
    while i < v.len()
        invariant
            0 <= i <= v@.len(),
            forall|k: int| 0 <= k < i ==> v@[k] != x,
        decreases v@.len() - i,
    {
        if v[i] == x {
            return true;
        }
        i = i + 1;
    }
    false
}

/// Adds every element of `w` that is not already there.
pub fn insert_all(v: &mut Vec<usize>, w: &Vec<usize>)
    ensures
        forall|y: usize| #[trigger] final(v)@.contains(y) <==> (old(v)@.contains(y) || w@.contains(y)),
{
    let mut i: usize = 0;
    while i < w.len()
        invariant
            0 <= i <= w@.len(),
            forall|y: usize|
                v@.contains(y) <==> (old(v)@.contains(y) || exists|k: int|
                    0 <= k < i && w@[k] == y),
        decreases w@.len() - i,
    {
        insert_unique(v, w[i]);
        proof {
            assert forall|y: usize|
                v@.contains(y) <==> (old(v)@.contains(y) || exists|k: int|
                    0 <= k < i + 1 && w@[k] == y) by {
                if y == w@[i as int] {
                    assert(0 <= i < i + 1 && w@[i as int] == y);
                }
                if exists|k: int| 0 <= k < i + 1 && w@[k] == y {
                    let k = choose|k: int| 0 <= k < i + 1 && w@[k] == y;
                    if k < i {
                        assert(0 <= k < i && w@[k] == y);
                    }
                }
            }
        }
        i = i + 1;
    }
}

/// `x` is among the first `j` elements of `s`.
pub open spec fn in_prefix(s: Seq<usize>, j: int, x: usize) -> bool {
    exists|m: int| 0 <= m < j && s[m] == x
}

pub proof fn lemma_prefix_step(s: Seq<usize>, j: int)
    requires
        0 <= j < s.len(),
    ensures
        forall|x: usize| #[trigger] in_prefix(s, j + 1, x) <==> (in_prefix(s, j, x) || x == s[j]),
{
    assert forall|x: usize| #[trigger] in_prefix(s, j + 1, x) <==> (in_prefix(s, j, x) || x == s[j]) by {
        if x == s[j] {
            assert(0 <= j < j + 1 && s[j] == x);
        }
        if in_prefix(s, j + 1, x) {
            let m = choose|m: int| 0 <= m < j + 1 && s[m] == x;
            if m < j {
                assert(0 <= m < j && s[m] == x);
            }
        }
    }
}

pub proof fn lemma_prefix_full(s: Seq<usize>)
    ensures
        forall|x: usize| #[trigger] in_prefix(s, s.len() as int, x) <==> s.contains(x),
{
}

/// `needle` occurs in `hay` as a contiguous run.
pub open spec fn has_sub(hay: Seq<u8>, needle: Seq<u8>) -> bool {
    exists|i: int|
        0 <= i && i + needle.len() <= hay.len() && #[trigger] hay.subrange(i, i + needle.len())
            == needle
}

/// Whether `hay[at..]` starts with `needle`.
fn matches_at(hay: &Vec<u8>, needle: &Vec<u8>, at: usize) -> (r: bool)
    requires
        at + needle@.len() <= hay@.len(),
    ensures
        r == (hay@.subrange(at as int, at + needle@.len()) == needle@),
{
    let hl = hay.len();
    let mut k: usize = 0;
    while k < needle.len()
        invariant
            hl == hay@.len(),
            at + needle@.len() <= hay@.len(),
            0 <= k <= needle@.len(),
            forall|j: int| 0 <= j < k ==> hay@[at + j] == needle@[j],
        decreases needle@.len() - k,
    {
        if hay[at + k] != needle[k] {
            assert(hay@.subrange(at as int, at + needle@.len())[k as int] != needle@[k as int]);
            return false;
        }
        k = k + 1;
    }
    assert(hay@.subrange(at as int, at + needle@.len()) =~= needle@);
    true
}

/// Whether `needle` occurs in `hay`.
pub fn contains_bytes(hay: &Vec<u8>, needle: &Vec<u8>) -> (r: bool)
    ensures
        r == has_sub(hay@, needle@),
{
    if needle.len() > hay.len() {
        return false;
    }
    let last = hay.len() - needle.len();
    let mut i: usize = 0;
    while i <= last
        invariant
            last + needle@.len() == hay@.len(),
            0 <= i <= last + 1,
            forall|j: int| 0 <= j < i ==> #[trigger] hay@.subrange(j, j + needle@.len()) != needle@,
        decreases last + 1 - i,
    {
        if matches_at(hay, needle, i) {
            return true;
        }
        if i == last {
            assert forall|j: int|
                0 <= j && j + needle@.len() <= hay@.len() implies #[trigger] hay@.subrange(
                j,
                j + needle@.len(),
            ) != needle@ by {
                assert(j <= i);
            }
            return false;
        }
        i = i + 1;
    }
    assert forall|j: int|
        0 <= j && j + needle@.len() <= hay@.len() implies #[trigger] hay@.subrange(
        j,
        j + needle@.len(),
    ) != needle@ by {
        assert(j < i);
    }
    false
}

/// Whether two byte strings are equal.
pub fn bytes_eq(a: &Vec<u8>, b: &Vec<u8>) -> (r: bool)
    ensures
        r == (a@ == b@),
{
    if a.len() != b.len() {
        return false;
    }
    let r = matches_at(a, b, 0);
    assert(a@.subrange(0, b@.len() as int) == a@);
    r
}

} // verus!
