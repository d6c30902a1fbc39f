//! Rebuilding minimized files: line slices of the source text, and the
//! order in which the symbols of one file are written.
use vstd::prelude::*;
use crate::model::Program;

verus! {

/// Lines `a..b` (counted from 0) of `lines`, each followed by a newline.
pub open spec fn line_text(lines: Seq<Vec<u8>>, a: int, b: int) -> Seq<u8>
    decreases b - a,
{
    if a >= b {
        Seq::empty()
    } else {
        line_text(lines, a, b - 1) + lines[b - 1]@.push(10u8)
    }
}

/// The text of the inclusive line ranges `ranges` (counted from 1), one
/// after the other.
pub open spec fn emitted(lines: Seq<Vec<u8>>, ranges: Seq<(u32, u32)>) -> Seq<u8>
    decreases ranges.len(),
{
    if ranges.len() == 0 {
        Seq::empty()
    } else {
        let r = ranges.last();
        emitted(lines, ranges.drop_last()) + line_text(lines, r.0 - 1, r.1 as int)
    }
}

/// Appends `b` and then a newline to `out`.
fn push_line(out: &mut Vec<u8>, b: &Vec<u8>)
    ensures
        final(out)@ == old(out)@ + b@.push(10u8),
{
    let mut k: usize = 0;
    while k < b.len()
        invariant
            0 <= k <= b@.len(),
            out@ == old(out)@ + b@.subrange(0, k as int),
        decreases b@.len() - k,
    {
        out.push(b[k]);
        assert(b@.subrange(0, k + 1) =~= b@.subrange(0, k as int).push(b@[k as int]));
        k = k + 1;
    }
    out.push(10u8);
    assert(b@.subrange(0, b@.len() as int) =~= b@);
}

/// The source text of each inclusive line range, unmodified, in the order
/// given: each line is written as it was read, followed by a newline.
pub fn emit_lines(lines: &Vec<Vec<u8>>, ranges: &Vec<(u32, u32)>) -> (out: Vec<u8>)
    requires
        forall|k: int|
            0 <= k < ranges@.len() ==> 1 <= (#[trigger] ranges@[k]).0 && ranges@[k].1
                <= lines@.len(),
    ensures
        out@ == emitted(lines@, ranges@),
{
    let mut out: Vec<u8> = Vec::new();
    let mut k: usize = 0;
    while k < ranges.len()
        invariant
            forall|q: int|
                0 <= q < ranges@.len() ==> 1 <= (#[trigger] ranges@[q]).0 && ranges@[q].1
                    <= lines@.len(),
            0 <= k <= ranges@.len(),
            out@ == emitted(lines@, ranges@.subrange(0, k as int)),
        decreases ranges@.len() - k,
    {
        let (start, end) = ranges[k];
        assert(1 <= ranges@[k as int].0);
        let ghost base = out@;
        let mut l: u32 = start - 1;
        while l < end
            invariant
                1 <= start,
                end <= lines@.len(),
                start - 1 <= l,
                l <= end || l == start - 1,
                out@ == base + line_text(lines@, start - 1, l as int),
            decreases end - l,
        {
            push_line(&mut out, &lines[l as usize]);
            proof {
                assert(line_text(lines@, start - 1, l + 1) == line_text(lines@, start - 1, l as int)
                    + lines@[l as int]@.push(10u8));
                assert(out@ =~= base + line_text(lines@, start - 1, l + 1));
            }
            l = l + 1;
        }
        proof {
            let pre = ranges@.subrange(0, k + 1);
            assert(pre.drop_last() =~= ranges@.subrange(0, k as int));
            assert(pre.last() == ranges@[k as int]);
            if l != end {
                assert(line_text(lines@, start - 1, l as int) == Seq::<u8>::empty());
                assert(line_text(lines@, start - 1, end as int) == Seq::<u8>::empty());
            }
            assert(out@ =~= emitted(lines@, pre));
        }
        k = k + 1;
    }
    assert(ranges@.subrange(0, ranges@.len() as int) =~= ranges@);
    out
}

pub open spec fn above(bound: Option<u32>, l: u32) -> bool {
    match bound {
        Some(b) => l > b,
        None => true,
    }
}

/// The line on which symbol `s` starts, the key by which a file's symbols are ordered.
pub open spec fn line_of(p: &Program, s: usize) -> u32 {
    p.ent(s as int).start_line
}

/// `syms[m]` is the first of `syms` on its line.
pub open spec fn first_on_line(p: &Program, syms: Seq<usize>, m: int) -> bool {
    forall|q: int| 0 <= q < m ==> line_of(p, #[trigger] syms[q]) != line_of(p, syms[m])
}

/// The lines of the symbols of `r` strictly ascend.
pub open spec fn ascending(p: &Program, r: Seq<usize>) -> bool {
    forall|a: int, b: int| 0 <= a < b < r.len() ==> line_of(p, #[trigger] r[a]) < line_of(p, #[trigger] r[b])
}

/// Each symbol of `r` is a symbol of `syms`, the first of `syms` on its line.
pub open spec fn from_firsts(p: &Program, syms: Seq<usize>, r: Seq<usize>) -> bool {
    forall|k: int|
        0 <= k < r.len() ==> exists|m: int|
            0 <= m < syms.len() && syms[m] == #[trigger] r[k] && first_on_line(p, syms, m)
}

/// Each line that a symbol of `syms` starts on is the line of a symbol of `r`.
pub open spec fn covers(p: &Program, syms: Seq<usize>, r: Seq<usize>) -> bool {
    forall|m: int|
        0 <= m < syms.len() ==> #[trigger] line_covered(p, r, line_of(p, syms[m]))
}

/// Some symbol of `r` is on line `l`.
pub open spec fn line_covered(p: &Program, r: Seq<usize>, l: u32) -> bool {
    exists|k: int| 0 <= k < r.len() && line_of(p, #[trigger] r[k]) == l
}

/// `r` holds, in ascending line order, one symbol for each line that a
/// symbol of `syms` starts on: the first of `syms` on that line.
pub open spec fn ordered_by_line(p: &Program, syms: Seq<usize>, r: Seq<usize>) -> bool {
    ascending(p, r) && from_firsts(p, syms, r) && covers(p, syms, r)
}

/// The first symbol of `syms` on the lowest line above `bound`.
fn next_after(p: &Program, syms: &Vec<usize>, bound: Option<u32>) -> (r: Option<usize>)
    requires
        p.wf(),
        forall|k: int| 0 <= k < syms@.len() ==> #[trigger] syms@[k] < p.n(),
    ensures
        r is None ==> forall|q: int| 0 <= q < syms@.len() ==> !above(bound, line_of(p, #[trigger] syms@[q])),
        r matches Some(m) ==> m < syms@.len() && above(bound, line_of(p, syms@[m as int]))
            && first_on_line(p, syms@, m as int) && forall|q: int|
            0 <= q < syms@.len() && above(bound, line_of(p, #[trigger] syms@[q])) ==> line_of(
                p,
                syms@[q],
            ) >= line_of(p, syms@[m as int]),
{
    let mut best: Option<usize> = None;
    let mut k: usize = 0;
    while k < syms.len()
        invariant
            p.wf(),
            forall|q: int| 0 <= q < syms@.len() ==> #[trigger] syms@[q] < p.n(),
            0 <= k <= syms@.len(),
            best is None ==> forall|q: int| 0 <= q < k ==> !above(bound, line_of(p, #[trigger] syms@[q])),
            best matches Some(m) ==> m < k && above(bound, line_of(p, syms@[m as int]))
                && first_on_line(p, syms@, m as int) && forall|q: int|
                0 <= q < k && above(bound, line_of(p, #[trigger] syms@[q])) ==> line_of(
                    p,
                    syms@[q],
                ) > line_of(p, syms@[m as int]) || (line_of(p, syms@[q]) == line_of(p, syms@[m as int]) && q >= m),
        decreases syms@.len() - k,
    {
        let l = p.entities[syms[k]].start_line;
        let ok = match bound {
            Some(b) => l > b,
            None => true,
        };
        if ok {
            match best {
                None => {
                    best = Some(k);
                },
                Some(m) => {
                    if l < p.entities[syms[m]].start_line {
                        best = Some(k);
                    }
                },
            }
        }
        k = k + 1;
    }
    best
}

/// The state of `order_by_line`: `r` orders the first symbols of the lines
/// up to `bound`.
#[verifier::opaque]
pub open spec fn order_inv(p: &Program, syms: Seq<usize>, r: Seq<usize>, bound: Option<u32>) -> bool {
    &&& ascending(p, r)
    &&& from_firsts(p, syms, r)
    &&& forall|m: int|
        0 <= m < syms.len() && !above(bound, line_of(p, #[trigger] syms[m])) ==> line_covered(
            p,
            r,
            line_of(p, syms[m]),
        )
    &&& (bound is None <==> r.len() == 0)
    &&& (bound matches Some(b) ==> line_of(p, r.last()) == b)
}

proof fn lemma_order_step(p: &Program, syms: Seq<usize>, r0: Seq<usize>, bound: Option<u32>, m: int)
    requires
        order_inv(p, syms, r0, bound),
        0 <= m < syms.len(),
        above(bound, line_of(p, syms[m])),
        first_on_line(p, syms, m),
        forall|q: int|
            0 <= q < syms.len() && above(bound, line_of(p, #[trigger] syms[q])) ==> line_of(
                p,
                syms[q],
            ) >= line_of(p, syms[m]),
    ensures
        order_inv(p, syms, r0.push(syms[m]), Some(line_of(p, syms[m]))),
{
    reveal(order_inv);
    let r = r0.push(syms[m]);
    let l = line_of(p, syms[m]);
    assert(r[r.len() - 1] == syms[m]);
    assert forall|a: int, b: int| 0 <= a < b < r.len() implies line_of(p, #[trigger] r[a]) < line_of(
        p,
        #[trigger] r[b],
    ) by {
        if b == r.len() - 1 {
            if a < r0.len() - 1 {
                assert(line_of(p, r0[a]) < line_of(p, r0[r0.len() - 1]));
            }
            assert(r[a] == r0[a]);
        } else {
            assert(r[a] == r0[a] && r[b] == r0[b]);
        }
    }
    assert forall|k: int| 0 <= k < r.len() implies exists|q: int|
        0 <= q < syms.len() && syms[q] == #[trigger] r[k] && first_on_line(p, syms, q) by {
        if k < r0.len() {
            assert(r[k] == r0[k]);
        } else {
            assert(syms[m] == r[k]);
        }
    }
    assert forall|q: int|
        0 <= q < syms.len() && !above(Some(l), line_of(p, #[trigger] syms[q])) implies line_covered(
        p,
        r,
        line_of(p, syms[q]),
    ) by {
        if above(bound, line_of(p, syms[q])) {
            assert(line_of(p, r[r.len() - 1]) == line_of(p, syms[q]));
        } else {
            assert(line_covered(p, r0, line_of(p, syms[q])));
            let k = choose|k: int| 0 <= k < r0.len() && line_of(p, #[trigger] r0[k]) == line_of(p, syms[q]);
            assert(r[k] == r0[k]);
        }
    }
}

proof fn lemma_order_done(p: &Program, syms: Seq<usize>, r: Seq<usize>, bound: Option<u32>)
    requires
        order_inv(p, syms, r, bound),
        forall|q: int| 0 <= q < syms.len() ==> !above(bound, line_of(p, #[trigger] syms[q])),
    ensures
        ordered_by_line(p, syms, r),
{
    reveal(order_inv);
    assert forall|m: int| 0 <= m < syms.len() implies #[trigger] line_covered(
        p,
        r,
        line_of(p, syms[m]),
    ) by {
        assert(!above(bound, line_of(p, syms[m])));
    }
}

/// The symbols of `syms` in ascending order of their lines; of several on
/// one line only the first is kept.
pub fn order_by_line(p: &Program, syms: &Vec<usize>) -> (r: Vec<usize>)
    requires
        p.wf(),
        forall|k: int| 0 <= k < syms@.len() ==> #[trigger] syms@[k] < p.n(),
    ensures
        ordered_by_line(p, syms@, r@),
{
    let mut r: Vec<usize> = Vec::new();
    let mut bound: Option<u32> = None;
    proof {
        reveal(order_inv);
    }
    loop
        invariant
            p.wf(),
            forall|k: int| 0 <= k < syms@.len() ==> #[trigger] syms@[k] < p.n(),
            order_inv(p, syms@, r@, bound),
        ensures
            ordered_by_line(p, syms@, r@),
        decreases (if bound is None { u32::MAX as int + 1 } else { u32::MAX - bound.unwrap() }),
    {
        match next_after(p, syms, bound) {
            None => {
                proof {
                    lemma_order_done(p, syms@, r@, bound);
                }
                break;
            },
            Some(m) => {
                let s = syms[m];
                let l = p.entities[s].start_line;
                proof {
                    lemma_order_step(p, syms@, r@, bound, m as int);
                }
                r.push(s);
                bound = Some(l);
            },
        }
    }
    r
}

} // verus!
