//! Which files the minimized tree holds, what each of them holds, and which
//! files are copied as they are.
use vstd::prelude::*;
use crate::model::{Program, SymKind};
use crate::reconstruct::{ascending, emit_lines, emitted, line_covered, line_of, order_by_line};
use crate::paths::{basename, is_basename, lemma_basename_unique};
use crate::sets::{
    bytes_eq, in_prefix, insert_unique, lemma_prefix_full, lemma_prefix_step, member,
};

verus! {

/// `s` is an extracted symbol, no inclusion directive, located in file `f`.
pub open spec fn in_group(p: &Program, v: Seq<bool>, s: int, f: int) -> bool {
    &&& 0 <= s < p.n()
    &&& v[s]
    &&& p.ent(s).kind != SymKind::InclusionDirective
    &&& p.ent(s).located
    &&& p.ent(s).file == f
}

/// File `f` holds at least one extracted symbol.
pub open spec fn has_group(p: &Program, v: Seq<bool>, f: int) -> bool {
    exists|s: int| #[trigger] in_group(p, v, s, f)
}

/// A top-level inclusion directive of some unit.
pub open spec fn observed_include(p: &Program, s: int) -> bool {
    p.is_top(s) && !p.ent(s).is_decl() && p.ent(s).kind == SymKind::InclusionDirective
}

/// An extracted inclusion directive whose resolved file holds no extracted symbol.
pub open spec fn unparsable(p: &Program, v: Seq<bool>, norm: Seq<usize>, s: int) -> bool {
    &&& 0 <= s < p.n()
    &&& v[s]
    &&& p.ent(s).kind == SymKind::InclusionDirective
    &&& !has_group(p, v, norm[s] as int)
}

/// File `f` is copied as it is.
pub open spec fn verbatim(p: &Program, v: Seq<bool>, norm: Seq<usize>, f: int) -> bool {
    exists|s: int| #[trigger] unparsable(p, v, norm, s) && norm[s] == f
}

/// `s` is written into the minimized file `f`: an extracted symbol of `f`,
/// or an inclusion directive of `f` whose resolved file holds extracted symbols.
pub open spec fn emits(p: &Program, v: Seq<bool>, norm: Seq<usize>, s: int, f: int) -> bool {
    picked(p, v, norm, s, f, true) || picked(p, v, norm, s, f, false)
}

/// For `inc`, `s` is an inclusion directive written into file `f`;
/// otherwise an extracted symbol of `f`.
pub open spec fn picked(p: &Program, v: Seq<bool>, norm: Seq<usize>, s: int, f: int, inc: bool) -> bool {
    if inc {
        0 <= s < p.n() && observed_include(p, s) && p.ent(s).located && p.ent(s).file == f
            && has_group(p, v, norm[s] as int)
    } else {
        in_group(p, v, s, f)
    }
}

/// Which files hold an extracted symbol, one flag per file.
pub fn group_flags(p: &Program, v: &Vec<bool>) -> (g: Vec<bool>)
    requires
        p.wf(),
        v@.len() == p.n(),
    ensures
        g@.len() == p.files@.len(),
        forall|f: int| 0 <= f < p.files@.len() ==> (g@[f] <==> has_group(p, v@, f)),
{
    let nf = p.files.len();
    let mut g: Vec<bool> = Vec::new();
    let mut i: usize = 0;
    while i < nf
        invariant
            nf == p.files@.len(),
            0 <= i <= nf,
            g@.len() == i,
            forall|f: int| 0 <= f < i ==> !g@[f],
        decreases nf - i,
    {
        g.push(false);
        i = i + 1;
    }
    let mut s: usize = 0;
    while s < p.entities.len()
        invariant
            p.wf(),
            v@.len() == p.n(),
            nf == p.files@.len(),
            g@.len() == nf,
            0 <= s <= p.n(),
            forall|f: int|
                0 <= f < nf ==> (g@[f] <==> exists|t: int| 0 <= t < s && #[trigger] in_group(p, v@, t, f)),
        decreases p.n() - s,
    {
        let e = &p.entities[s];
        assert(p.ent(s as int).wf_in(p.n(), p.files@.len() as int, p.units@.len() as int));
        let is_inc = match e.kind {
            SymKind::InclusionDirective => true,
            _ => false,
        };
        if v[s] && !is_inc && e.located {
            g.set(e.file, true);
        }
        proof {
            assert forall|f: int|
                0 <= f < nf implies (g@[f] <==> exists|t: int| 0 <= t < s + 1 && #[trigger] in_group(p, v@, t, f)) by {
                if exists|t: int| 0 <= t < s + 1 && #[trigger] in_group(p, v@, t, f) {
                    let t = choose|t: int| 0 <= t < s + 1 && #[trigger] in_group(p, v@, t, f);
                    if t < s {
                        assert(0 <= t < s && in_group(p, v@, t, f));
                    }
                }
                if in_group(p, v@, s as int, f) {
                    assert(0 <= s < s + 1 && in_group(p, v@, s as int, f));
                }
            }
        }
        s = s + 1;
    }
    proof {
        assert forall|f: int| 0 <= f < nf implies (g@[f] <==> has_group(p, v@, f)) by {
            if has_group(p, v@, f) {
                let t = choose|t: int| #[trigger] in_group(p, v@, t, f);
                assert(0 <= t < s && in_group(p, v@, t, f));
            }
        }
    }
    g
}

/// The inclusion directives (for `inc`) or the other symbols written into
/// file `f`, in ascending order of their index.
fn emitted_symbols(
    p: &Program,
    v: &Vec<bool>,
    norm: &Vec<usize>,
    groups: &Vec<bool>,
    f: usize,
    inc: bool,
) -> (c: Vec<usize>)
    requires
        p.wf(),
        v@.len() == p.n(),
        norm@.len() == p.n(),
        groups@.len() == p.files@.len(),
        forall|g: int| 0 <= g < p.files@.len() ==> (groups@[g] <==> has_group(p, v@, g)),
        forall|s: int| 0 <= s < p.n() ==> #[trigger] norm@[s] < p.files@.len(),
    ensures
        forall|s: usize| #[trigger] c@.contains(s) <==> picked(p, v@, norm@, s as int, f as int, inc),
        forall|k: int| 0 <= k < c@.len() ==> #[trigger] c@[k] < p.n(),
        forall|a: int, b: int| 0 <= a < b < c@.len() ==> #[trigger] c@[a] < #[trigger] c@[b],
{
    let top = crate::graph::top_flags(p);
    let mut c: Vec<usize> = Vec::new();
    let mut s: usize = 0;
    while s < p.entities.len()
        invariant
            p.wf(),
            v@.len() == p.n(),
            norm@.len() == p.n(),
            groups@.len() == p.files@.len(),
            forall|g: int| 0 <= g < p.files@.len() ==> (groups@[g] <==> has_group(p, v@, g)),
            forall|s: int| 0 <= s < p.n() ==> #[trigger] norm@[s] < p.files@.len(),
            top@.len() == p.n(),
            forall|i: int| 0 <= i < p.n() ==> (top@[i] <==> p.is_top(i)),
            0 <= s <= p.n(),
            forall|x: usize| #[trigger] c@.contains(x) <==> x < s && picked(p, v@, norm@, x as int, f as int, inc),
            forall|k: int| 0 <= k < c@.len() ==> #[trigger] c@[k] < s,
            forall|a: int, b: int| 0 <= a < b < c@.len() ==> #[trigger] c@[a] < #[trigger] c@[b],
        decreases p.n() - s,
    {
        let e = &p.entities[s];
        let is_inc = match e.kind {
            SymKind::InclusionDirective => true,
            _ => false,
        };
        let t = norm[s];
        let grouped = v[s] && !is_inc && e.located && e.file == f;
        let included = top[s] && is_inc && !e.is_declaration && !e.is_definition && e.located
            && e.file == f && groups[t];
        let ghost c0 = c@;
        if (inc && included) || (!inc && grouped) {
            c.push(s);
            proof {
                assert forall|x: usize| #[trigger] c@.contains(x) <==> x < s + 1 && picked(p, v@, norm@, x as int, f as int, inc) by {
                    if c0.contains(x) {
                        let k = choose|k: int| 0 <= k < c0.len() && c0[k] == x;
                        assert(c@[k] == x);
                    }
                    if x == s {
                        assert(c@[c0.len() as int] == x);
                    }
                    if c@.contains(x) && x != s {
                        let k = choose|k: int| 0 <= k < c@.len() && c@[k] == x;
                        assert(k < c0.len());
                        assert(c0[k] == x);
                    }
                }
                assert forall|a: int, b: int| 0 <= a < b < c@.len() implies #[trigger] c@[a] < #[trigger] c@[b] by {
                    if b == c0.len() {
                        assert(c0[a] < s);
                    } else {
                        assert(c@[a] == c0[a] && c@[b] == c0[b]);
                    }
                }
            }
        }
        s = s + 1;
    }
    c
}

/// The inclusion directives (for `inc`) or the other symbols that file `f`
/// holds, in ascending order of their start lines: one per line, the one
/// with the lowest index.
pub fn file_part(
    p: &Program,
    v: &Vec<bool>,
    norm: &Vec<usize>,
    groups: &Vec<bool>,
    f: usize,
    inc: bool,
) -> (r: Vec<usize>)
    requires
        p.wf(),
        v@.len() == p.n(),
        norm@.len() == p.n(),
        groups@.len() == p.files@.len(),
        forall|g: int| 0 <= g < p.files@.len() ==> (groups@[g] <==> has_group(p, v@, g)),
        forall|s: int| 0 <= s < p.n() ==> #[trigger] norm@[s] < p.files@.len(),
    ensures
        ascending(p, r@),
        forall|k: int| 0 <= k < r@.len() ==> picked(p, v@, norm@, #[trigger] r@[k] as int, f as int, inc),
        forall|s: int|
            0 <= s < p.n() && picked(p, v@, norm@, s, f as int, inc) ==> #[trigger] line_covered(
                p,
                r@,
                p.ent(s).start_line,
            ),
        forall|k: int, s: int|
            0 <= k < r@.len() && 0 <= s < p.n() && #[trigger] picked(p, v@, norm@, s, f as int, inc)
                && p.ent(s).start_line == line_of(p, #[trigger] r@[k]) ==> r@[k] <= s,
        is_part(p, v@, norm@, f as int, inc, r@),
        forall|k: int| 0 <= k < r@.len() ==> #[trigger] r@[k] < p.n(),
{
    let n = p.entities.len();
    let c = emitted_symbols(p, v, norm, groups, f, inc);
    let r = order_by_line(p, &c);
    proof {
        assert(crate::reconstruct::from_firsts(p, c@, r@));
        assert(crate::reconstruct::covers(p, c@, r@));
        assert forall|k: int| 0 <= k < r@.len() implies picked(p, v@, norm@, #[trigger] r@[k] as int, f as int, inc) by {
            assert(r@[k] == r@[k]);
            let m = choose|m: int|
                0 <= m < c@.len() && c@[m] == #[trigger] r@[k] && crate::reconstruct::first_on_line(p, c@, m);
            assert(c@.contains(r@[k]));
        }
        assert forall|s: int|
            0 <= s < p.n() && picked(p, v@, norm@, s, f as int, inc) implies #[trigger] line_covered(
                p,
                r@,
                p.ent(s).start_line,
            ) by {
            assert(c@.contains(s as usize));
            let m = choose|m: int| 0 <= m < c@.len() && c@[m] == s as usize;
            assert(line_covered(p, r@, line_of(p, c@[m])));
        }
        assert forall|k: int, s: int|
            0 <= k < r@.len() && 0 <= s < p.n() && #[trigger] picked(p, v@, norm@, s, f as int, inc)
                && p.ent(s).start_line == line_of(p, #[trigger] r@[k]) implies r@[k] <= s by {
            assert(r@[k] == r@[k]);
            let m = choose|m: int|
                0 <= m < c@.len() && c@[m] == #[trigger] r@[k] && crate::reconstruct::first_on_line(p, c@, m);
            assert(c@.contains(s as usize));
            let q = choose|q: int| 0 <= q < c@.len() && c@[q] == s as usize;
            if q < m {
                assert(line_of(p, c@[q]) != line_of(p, c@[m]));
            } else if q > m {
                assert(c@[m] < c@[q]);
            }
        }
    }
    r
}

/// What the minimized file `f` holds: its surviving inclusion directives,
/// then its extracted symbols, each part in ascending line order.
pub fn file_plan(p: &Program, v: &Vec<bool>, norm: &Vec<usize>, groups: &Vec<bool>, f: usize) -> (r: Vec<usize>)
    requires
        p.wf(),
        v@.len() == p.n(),
        norm@.len() == p.n(),
        groups@.len() == p.files@.len(),
        forall|g: int| 0 <= g < p.files@.len() ==> (groups@[g] <==> has_group(p, v@, g)),
        forall|s: int| 0 <= s < p.n() ==> #[trigger] norm@[s] < p.files@.len(),
    ensures
        is_file_plan(p, v@, norm@, f as int, r@),
        forall|k: int| 0 <= k < r@.len() ==> #[trigger] r@[k] < p.n(),
{
    let mut r = file_part(p, v, norm, groups, f, true);
    let ghost a = r@;
    let b = file_part(p, v, norm, groups, f, false);
    let mut k: usize = 0;
    while k < b.len()
        invariant
            0 <= k <= b@.len(),
            r@ == a + b@.subrange(0, k as int),
            forall|j: int| 0 <= j < a.len() ==> #[trigger] a[j] < p.n(),
            forall|j: int| 0 <= j < b@.len() ==> #[trigger] b@[j] < p.n(),
            forall|j: int| 0 <= j < r@.len() ==> #[trigger] r@[j] < p.n(),
        decreases b@.len() - k,
    {
        r.push(b[k]);
        assert(r@ =~= a + b@.subrange(0, k + 1));
        k = k + 1;
    }
    proof {
        assert(b@.subrange(0, b@.len() as int) =~= b@);
        assert(r@.subrange(0, a.len() as int) =~= a);
        assert(r@.subrange(a.len() as int, r@.len() as int) =~= b@);
    }
    r
}

/// The files copied as they are: the resolved files of the unparsable
/// extracted inclusion directives.
pub fn verbatim_files(p: &Program, v: &Vec<bool>, norm: &Vec<usize>, groups: &Vec<bool>) -> (r: Vec<usize>)
    requires
        p.wf(),
        v@.len() == p.n(),
        norm@.len() == p.n(),
        groups@.len() == p.files@.len(),
        forall|g: int| 0 <= g < p.files@.len() ==> (groups@[g] <==> has_group(p, v@, g)),
        forall|s: int| 0 <= s < p.n() ==> #[trigger] norm@[s] < p.files@.len(),
    ensures
        forall|f: usize| #[trigger] r@.contains(f) <==> verbatim(p, v@, norm@, f as int),
{
    let mut r: Vec<usize> = Vec::new();
    let mut s: usize = 0;
    while s < p.entities.len()
        invariant
            p.wf(),
            v@.len() == p.n(),
            norm@.len() == p.n(),
            groups@.len() == p.files@.len(),
            forall|g: int| 0 <= g < p.files@.len() ==> (groups@[g] <==> has_group(p, v@, g)),
            forall|s: int| 0 <= s < p.n() ==> #[trigger] norm@[s] < p.files@.len(),
            0 <= s <= p.n(),
            forall|f: usize|
                #[trigger] r@.contains(f) <==> exists|t: int|
                    0 <= t < s && #[trigger] unparsable(p, v@, norm@, t) && norm@[t] == f,
        decreases p.n() - s,
    {
        let is_inc = match p.entities[s].kind {
            SymKind::InclusionDirective => true,
            _ => false,
        };
        let f = norm[s];
        if v[s] && is_inc && !groups[f] {
            insert_unique(&mut r, f);
        }
        proof {
            assert forall|g: usize|
                #[trigger] r@.contains(g) <==> exists|t: int|
                    0 <= t < s + 1 && #[trigger] unparsable(p, v@, norm@, t) && norm@[t] == g by {
                if exists|t: int| 0 <= t < s + 1 && #[trigger] unparsable(p, v@, norm@, t) && norm@[t] == g {
                    let t = choose|t: int| 0 <= t < s + 1 && #[trigger] unparsable(p, v@, norm@, t) && norm@[t] == g;
                    if t < s {
                        assert(0 <= t < s && unparsable(p, v@, norm@, t) && norm@[t] == g);
                    }
                }
                if unparsable(p, v@, norm@, s as int) && norm@[s as int] == g {
                    assert(0 <= s < s + 1 && unparsable(p, v@, norm@, s as int) && norm@[s as int] == g);
                }
            }
        }
        s = s + 1;
    }
    r
}

/// The files to minimize: the source files and the resolved files of the
/// observed inclusion directives that hold an extracted symbol, less the
/// files copied as they are and those whose bare name is a system header's.
pub open spec fn processed(
    p: &Program,
    v: Seq<bool>,
    norm: Seq<usize>,
    sources: Seq<usize>,
    system_named: Seq<bool>,
    f: int,
) -> bool {
    &&& 0 <= f < p.files@.len()
    &&& (sources.contains(f as usize) || exists|s: int|
        0 <= s < p.n() && #[trigger] observed_include(p, s) && norm[s] == f)
    &&& !verbatim(p, v, norm, f)
    &&& !system_named[f]
    &&& has_group(p, v, f)
}

/// A file copied as it is never is a file to minimize: it holds no
/// extracted symbol.
pub proof fn lemma_verbatim_not_processed(
    p: &Program,
    v: Seq<bool>,
    norm: Seq<usize>,
    sources: Seq<usize>,
    system_named: Seq<bool>,
    f: int,
)
    requires
        verbatim(p, v, norm, f),
    ensures
        !has_group(p, v, f),
        !processed(p, v, norm, sources, system_named, f),
{
    let s = choose|s: int| #[trigger] unparsable(p, v, norm, s) && norm[s] == f;
}

/// Files `f` and `g` have the same bare name.
pub open spec fn same_basename(p: &Program, f: int, g: int) -> bool {
    exists|b: Seq<u8>| is_basename(p.files@[f]@, b) && #[trigger] is_basename(p.files@[g]@, b)
}

/// Which files have the bare name of one of the system files `sys`.
pub fn system_named_flags(p: &Program, sys: &Vec<usize>) -> (r: Vec<bool>)
    requires
        forall|k: int| 0 <= k < sys@.len() ==> #[trigger] sys@[k] < p.files@.len(),
    ensures
        r@.len() == p.files@.len(),
        forall|f: int|
            0 <= f < p.files@.len() ==> (r@[f] <==> exists|k: int|
                0 <= k < sys@.len() && same_basename(p, f, #[trigger] sys@[k] as int)),
{
    let mut r: Vec<bool> = Vec::new();
    let mut f: usize = 0;
    while f < p.files.len()
        invariant
            forall|k: int| 0 <= k < sys@.len() ==> #[trigger] sys@[k] < p.files@.len(),
            0 <= f <= p.files@.len(),
            r@.len() == f,
            forall|g: int|
                0 <= g < f ==> (r@[g] <==> exists|k: int|
                    0 <= k < sys@.len() && same_basename(p, g, #[trigger] sys@[k] as int)),
        decreases p.files@.len() - f,
    {
        let bf = basename(&p.files[f]);
        let mut found = false;
        let mut k: usize = 0;
        while k < sys.len()
            invariant
                forall|k: int| 0 <= k < sys@.len() ==> #[trigger] sys@[k] < p.files@.len(),
                0 <= f < p.files@.len(),
                is_basename(p.files@[f as int]@, bf@),
                0 <= k <= sys@.len(),
                found <==> exists|q: int| 0 <= q < k && same_basename(p, f as int, #[trigger] sys@[q] as int),
            decreases sys@.len() - k,
        {
            let g = sys[k];
            let bg = basename(&p.files[g]);
            let eq = bytes_eq(&bf, &bg);
            proof {
                if eq {
                    assert(is_basename(p.files@[f as int]@, bf@) && is_basename(p.files@[g as int]@, bf@));
                    assert(same_basename(p, f as int, g as int));
                }
                if same_basename(p, f as int, g as int) {
                    let b = choose|b: Seq<u8>| is_basename(p.files@[f as int]@, b) && #[trigger] is_basename(p.files@[g as int]@, b);
                    lemma_basename_unique(p.files@[f as int]@, b, bf@);
                    lemma_basename_unique(p.files@[g as int]@, b, bg@);
                }
                if exists|q: int| 0 <= q < k + 1 && same_basename(p, f as int, #[trigger] sys@[q] as int) {
                    let q = choose|q: int| 0 <= q < k + 1 && same_basename(p, f as int, #[trigger] sys@[q] as int);
                    if q < k {
                        assert(0 <= q < k && same_basename(p, f as int, sys@[q] as int));
                    }
                }
                if eq {
                    assert(0 <= k < k + 1 && same_basename(p, f as int, sys@[k as int] as int));
                }
            }
            found = found || eq;
            k = k + 1;
        }
        r.push(found);
        f = f + 1;
    }
    r
}

/// An observed inclusion directive, top-level in one of the first `u` units,
/// that resolves to `f`.
pub open spec fn target_in(p: &Program, norm: Seq<usize>, u: int, s: int, f: int) -> bool {
    &&& exists|w: int| 0 <= w < u && p.top_in(w, s)
    &&& !p.ent(s).is_decl()
    &&& p.ent(s).kind == SymKind::InclusionDirective
    &&& norm[s] == f
}

/// The candidate files: the sources and the resolved files of the observed
/// inclusion directives, one flag per file.
fn candidate_flags(p: &Program, norm: &Vec<usize>, sources: &Vec<usize>) -> (c: Vec<bool>)
    requires
        p.wf(),
        norm@.len() == p.n(),
    ensures
        c@.len() == p.files@.len(),
        forall|f: int|
            0 <= f < p.files@.len() ==> (c@[f] <==> (sources@.contains(f as usize) || exists|s: int|
                0 <= s < p.n() && #[trigger] observed_include(p, s) && norm@[s] == f)),
{
    let nf = p.files.len();
    let mut c: Vec<bool> = Vec::new();
    let mut i: usize = 0;
    while i < nf
        invariant
            nf == p.files@.len(),
            0 <= i <= nf,
            c@.len() == i,
            forall|f: int| 0 <= f < i ==> (c@[f] <==> in_prefix(sources@, sources@.len() as int, f as usize)),
        decreases nf - i,
    {
        let m = member(sources, i);
        proof {
            lemma_prefix_full(sources@);
        }
        c.push(m);
        i = i + 1;
    }
    proof {
        lemma_prefix_full(sources@);
    }
    let mut u: usize = 0;
    while u < p.units.len()
        invariant
            p.wf(),
            norm@.len() == p.n(),
            nf == p.files@.len(),
            c@.len() == nf,
            0 <= u <= p.units@.len(),
            forall|f: int|
                0 <= f < nf ==> (c@[f] <==> (sources@.contains(f as usize) || exists|s: int|
                    #[trigger] target_in(p, norm@, u as int, s, f))),
        decreases p.units@.len() - u,
    {
        let top = &p.units[u];
        let mut k: usize = 0;
        while k < top.len()
            invariant
                p.wf(),
                norm@.len() == p.n(),
                nf == p.files@.len(),
                c@.len() == nf,
                0 <= u < p.units@.len(),
                top == &p.units@[u as int],
                0 <= k <= top@.len(),
                forall|f: int|
                    0 <= f < nf ==> (c@[f] <==> (sources@.contains(f as usize) || (exists|s: int|
                        #[trigger] target_in(p, norm@, u as int, s, f)) || exists|m: int|
                        0 <= m < k && #[trigger] target_in(p, norm@, u + 1, top@[m] as int, f))),
            decreases top@.len() - k,
        {
            let i = top[k];
            assert(p.units@[u as int]@[k as int] == i);
            assert(p.top_in(u as int, i as int));
            let e = &p.entities[i];
            let is_inc = match e.kind {
                SymKind::InclusionDirective => true,
                _ => false,
            };
            let t = norm[i];
            if is_inc && !e.is_declaration && !e.is_definition && t < nf {
                c.set(t, true);
            }
            proof {
                assert(0 <= u < u + 1 && p.top_in(u as int, i as int));
                assert forall|f: int|
                    0 <= f < nf implies (c@[f] <==> (sources@.contains(f as usize) || (exists|s: int|
                        #[trigger] target_in(p, norm@, u as int, s, f)) || exists|m: int|
                        0 <= m < k + 1 && #[trigger] target_in(p, norm@, u + 1, top@[m] as int, f))) by {
                    if exists|m: int| 0 <= m < k + 1 && #[trigger] target_in(p, norm@, u + 1, top@[m] as int, f) {
                        let m = choose|m: int| 0 <= m < k + 1 && #[trigger] target_in(p, norm@, u + 1, top@[m] as int, f);
                        if m < k {
                            assert(0 <= m < k && target_in(p, norm@, u + 1, top@[m] as int, f));
                        } else {
                            assert(top@[m] == i);
                        }
                    }
                    if target_in(p, norm@, u + 1, i as int, f) {
                        assert(0 <= k < k + 1 && target_in(p, norm@, u + 1, top@[k as int] as int, f));
                    }
                }
            }
            k = k + 1;
        }
        proof {
            assert forall|f: int|
                0 <= f < nf implies (c@[f] <==> (sources@.contains(f as usize) || exists|s: int|
                    #[trigger] target_in(p, norm@, u + 1, s, f))) by {
                if exists|s: int| #[trigger] target_in(p, norm@, u as int, s, f) {
                    let s = choose|s: int| #[trigger] target_in(p, norm@, u as int, s, f);
                    let w = choose|w: int| 0 <= w < u && p.top_in(w, s);
                    assert(0 <= w < u + 1 && p.top_in(w, s));
                    assert(target_in(p, norm@, u + 1, s, f));
                }
                if exists|m: int| 0 <= m < top@.len() && #[trigger] target_in(p, norm@, u + 1, top@[m] as int, f) {
                    let m = choose|m: int| 0 <= m < top@.len() && #[trigger] target_in(p, norm@, u + 1, top@[m] as int, f);
                    assert(target_in(p, norm@, u + 1, top@[m] as int, f));
                }
                if exists|s: int| #[trigger] target_in(p, norm@, u + 1, s, f) {
                    let s = choose|s: int| #[trigger] target_in(p, norm@, u + 1, s, f);
                    if !target_in(p, norm@, u as int, s, f) {
                        let w = choose|w: int| 0 <= w < u + 1 && p.top_in(w, s);
                        if w < u {
                            assert(0 <= w < u && p.top_in(w, s));
                        }
                        assert(top@.contains(s as usize));
                        let m = choose|m: int| 0 <= m < top@.len() && top@[m] == s as usize;
                        assert(target_in(p, norm@, u + 1, top@[m] as int, f));
                    }
                }
            }
        }
        u = u + 1;
    }
    proof {
        assert forall|f: int|
            0 <= f < nf implies (c@[f] <==> (sources@.contains(f as usize) || exists|s: int|
                0 <= s < p.n() && #[trigger] observed_include(p, s) && norm@[s] == f)) by {
            if exists|s: int| #[trigger] target_in(p, norm@, u as int, s, f) {
                let s = choose|s: int| #[trigger] target_in(p, norm@, u as int, s, f);
                let w = choose|w: int| 0 <= w < u && p.top_in(w, s);
                assert(p.units@[w]@.contains(s as usize));
                let m = choose|m: int| 0 <= m < p.units@[w]@.len() && p.units@[w]@[m] == s as usize;
                assert(p.units@[w]@[m] < p.n());
                assert(observed_include(p, s));
            }
            if exists|s: int| 0 <= s < p.n() && #[trigger] observed_include(p, s) && norm@[s] == f {
                let s = choose|s: int| 0 <= s < p.n() && #[trigger] observed_include(p, s) && norm@[s] == f;
                let w = choose|w: int| p.top_in(w, s);
                assert(target_in(p, norm@, u as int, s, f));
            }
        }
    }
    c
}

/// The files to minimize, in ascending order of their index.
pub fn processed_files(
    p: &Program,
    v: &Vec<bool>,
    norm: &Vec<usize>,
    sources: &Vec<usize>,
    system_named: &Vec<bool>,
    groups: &Vec<bool>,
    verb: &Vec<usize>,
) -> (r: Vec<usize>)
    requires
        p.wf(),
        v@.len() == p.n(),
        norm@.len() == p.n(),
        system_named@.len() == p.files@.len(),
        groups@.len() == p.files@.len(),
        forall|g: int| 0 <= g < p.files@.len() ==> (groups@[g] <==> has_group(p, v@, g)),
        forall|f: usize| #[trigger] verb@.contains(f) <==> verbatim(p, v@, norm@, f as int),
    ensures
        forall|f: usize|
            #[trigger] r@.contains(f) <==> processed(p, v@, norm@, sources@, system_named@, f as int),
{
    let c = candidate_flags(p, norm, sources);
    let mut r: Vec<usize> = Vec::new();
    let mut f: usize = 0;
    while f < p.files.len()
        invariant
            p.wf(),
            v@.len() == p.n(),
            norm@.len() == p.n(),
            system_named@.len() == p.files@.len(),
            groups@.len() == p.files@.len(),
            forall|g: int| 0 <= g < p.files@.len() ==> (groups@[g] <==> has_group(p, v@, g)),
            forall|f: usize| #[trigger] verb@.contains(f) <==> verbatim(p, v@, norm@, f as int),
            c@.len() == p.files@.len(),
            forall|f: int|
                0 <= f < p.files@.len() ==> (c@[f] <==> (sources@.contains(f as usize) || exists|s: int|
                    0 <= s < p.n() && #[trigger] observed_include(p, s) && norm@[s] == f)),
            0 <= f <= p.files@.len(),
            forall|g: usize|
                #[trigger] r@.contains(g) <==> g < f && processed(p, v@, norm@, sources@, system_named@, g as int),
        decreases p.files@.len() - f,
    {
        if c[f] && !member(verb, f) && !system_named[f] && groups[f] {
            insert_unique(&mut r, f);
        }
        f = f + 1;
    }
    r
}

/// An extracted symbol without a location, which no file can hold.
pub fn unlocated_extracted(p: &Program, v: &Vec<bool>) -> (r: Option<usize>)
    requires
        v@.len() == p.n(),
    ensures
        r is None <==> forall|s: int| 0 <= s < p.n() && #[trigger] v@[s] ==> p.ent(s).located,
        r matches Some(s) ==> s < p.n() && v@[s as int] && !p.ent(s as int).located,
{
    let mut s: usize = 0;
    while s < p.entities.len()
        invariant
            v@.len() == p.n(),
            0 <= s <= p.n(),
            forall|t: int| 0 <= t < s && #[trigger] v@[t] ==> p.ent(t).located,
        decreases p.n() - s,
    {
        if v[s] && !p.entities[s].located {
            return Some(s);
        }
        s = s + 1;
    }
    None
}

/// `r` is what `file_part` returns for file `f` and `inc`.
pub open spec fn is_part(p: &Program, v: Seq<bool>, norm: Seq<usize>, f: int, inc: bool, r: Seq<usize>) -> bool {
    &&& ascending(p, r)
    &&& forall|k: int| 0 <= k < r.len() ==> picked(p, v, norm, #[trigger] r[k] as int, f, inc)
    &&& forall|s: int| 0 <= s < p.n() && picked(p, v, norm, s, f, inc) ==> #[trigger] line_covered(p, r, p.ent(s).start_line)
    &&& forall|k: int, s: int|
        0 <= k < r.len() && 0 <= s < p.n() && #[trigger] picked(p, v, norm, s, f, inc) && p.ent(s).start_line
            == line_of(p, #[trigger] r[k]) ==> r[k] <= s
}

/// `r` is what `file_plan` returns for file `f`: the inclusion directives
/// part followed by the symbols part.
pub open spec fn is_file_plan(p: &Program, v: Seq<bool>, norm: Seq<usize>, f: int, r: Seq<usize>) -> bool {
    exists|k: int|
        0 <= k <= r.len() && #[trigger] is_part(p, v, norm, f, true, r.subrange(0, k)) && is_part(
            p,
            v,
            norm,
            f,
            false,
            r.subrange(k, r.len() as int),
        )
}

proof fn lemma_ascending_same_elements(p: &Program, r1: Seq<usize>, r2: Seq<usize>)
    requires
        ascending(p, r1),
        ascending(p, r2),
        forall|x: usize| r1.contains(x) <==> r2.contains(x),
    ensures
        r1 == r2,
    decreases r1.len(),
{
    if r1.len() == 0 {
        if r2.len() > 0 {
            assert(r2.contains(r2[0]));
        }
        assert(r1 =~= r2);
    } else {
        assert(r1.contains(r1[0]));
        assert(r2.len() > 0);
        assert(r2.contains(r2[0]));
        let j = choose|j: int| 0 <= j < r2.len() && r2[j] == r1[0];
        let i = choose|i: int| 0 <= i < r1.len() && r1[i] == r2[0];
        if j > 0 {
            assert(line_of(p, r2[0]) < line_of(p, r2[j]));
            if i > 0 {
                assert(line_of(p, r1[0]) < line_of(p, r1[i]));
            }
        }
        assert(r1[0] == r2[0]);
        let t1 = r1.subrange(1, r1.len() as int);
        let t2 = r2.subrange(1, r2.len() as int);
        assert forall|a: int, b: int| 0 <= a < b < t1.len() implies line_of(p, #[trigger] t1[a]) < line_of(p, #[trigger] t1[b]) by {
            assert(t1[a] == r1[a + 1] && t1[b] == r1[b + 1]);
        }
        assert forall|a: int, b: int| 0 <= a < b < t2.len() implies line_of(p, #[trigger] t2[a]) < line_of(p, #[trigger] t2[b]) by {
            assert(t2[a] == r2[a + 1] && t2[b] == r2[b + 1]);
        }
        assert forall|x: usize| t1.contains(x) <==> t2.contains(x) by {
            if t1.contains(x) {
                let a = choose|a: int| 0 <= a < t1.len() && t1[a] == x;
                assert(r1[a + 1] == x);
                assert(line_of(p, r1[0]) < line_of(p, r1[a + 1]));
                assert(r2.contains(x));
                let b = choose|b: int| 0 <= b < r2.len() && r2[b] == x;
                assert(b != 0);
                assert(t2[b - 1] == x);
            }
            if t2.contains(x) {
                let a = choose|a: int| 0 <= a < t2.len() && t2[a] == x;
                assert(r2[a + 1] == x);
                assert(line_of(p, r2[0]) < line_of(p, r2[a + 1]));
                assert(r1.contains(x));
                let b = choose|b: int| 0 <= b < r1.len() && r1[b] == x;
                assert(b != 0);
                assert(t1[b - 1] == x);
            }
        }
        lemma_ascending_same_elements(p, t1, t2);
        assert(r1 =~= seq![r1[0]] + t1);
        assert(r2 =~= seq![r2[0]] + t2);
    }
}

proof fn lemma_part_unique(
    p: &Program,
    v: Seq<bool>,
    norm: Seq<usize>,
    f: int,
    inc: bool,
    r1: Seq<usize>,
    r2: Seq<usize>,
)
    requires
        is_part(p, v, norm, f, inc, r1),
        is_part(p, v, norm, f, inc, r2),
    ensures
        r1 == r2,
{
    assert forall|x: usize| r1.contains(x) implies r2.contains(x) by {
        let k = choose|k: int| 0 <= k < r1.len() && r1[k] == x;
        assert(picked(p, v, norm, r1[k] as int, f, inc));
        assert(0 <= x < p.n());
        assert(line_covered(p, r2, p.ent(x as int).start_line));
        let j = choose|j: int| 0 <= j < r2.len() && line_of(p, #[trigger] r2[j]) == p.ent(x as int).start_line;
        assert(picked(p, v, norm, r2[j] as int, f, inc));
        assert(r2[j] <= x);
        assert(r1[k] <= r2[j]);
    }
    assert forall|x: usize| r2.contains(x) implies r1.contains(x) by {
        let k = choose|k: int| 0 <= k < r2.len() && r2[k] == x;
        assert(picked(p, v, norm, r2[k] as int, f, inc));
        assert(0 <= x < p.n());
        assert(line_covered(p, r1, p.ent(x as int).start_line));
        let j = choose|j: int| 0 <= j < r1.len() && line_of(p, #[trigger] r1[j]) == p.ent(x as int).start_line;
        assert(picked(p, v, norm, r1[j] as int, f, inc));
        assert(r1[j] <= x);
        assert(r2[k] <= r1[j]);
    }
    lemma_ascending_same_elements(p, r1, r2);
}

/// The plan of a file is a function of the program, the extracted set and the
/// resolved inclusion directives: two plans of one file are the same sequence,
/// so repeated runs write the same bytes.
pub proof fn lemma_file_plan_unique(
    p: &Program,
    v: Seq<bool>,
    norm: Seq<usize>,
    f: int,
    r1: Seq<usize>,
    r2: Seq<usize>,
)
    requires
        is_file_plan(p, v, norm, f, r1),
        is_file_plan(p, v, norm, f, r2),
    ensures
        r1 == r2,
{
    let k1 = choose|k: int|
        0 <= k <= r1.len() && #[trigger] is_part(p, v, norm, f, true, r1.subrange(0, k)) && is_part(
            p,
            v,
            norm,
            f,
            false,
            r1.subrange(k, r1.len() as int),
        );
    let k2 = choose|k: int|
        0 <= k <= r2.len() && #[trigger] is_part(p, v, norm, f, true, r2.subrange(0, k)) && is_part(
            p,
            v,
            norm,
            f,
            false,
            r2.subrange(k, r2.len() as int),
        );
    lemma_part_unique(p, v, norm, f, true, r1.subrange(0, k1), r2.subrange(0, k2));
    lemma_part_unique(p, v, norm, f, false, r1.subrange(k1, r1.len() as int), r2.subrange(k2, r2.len() as int));
    assert(r1 =~= r1.subrange(0, k1) + r1.subrange(k1, r1.len() as int));
    assert(r2 =~= r2.subrange(0, k2) + r2.subrange(k2, r2.len() as int));
}

/// The inclusive line ranges of the symbols of `plan`.
pub open spec fn ranges_of(p: &Program, plan: Seq<usize>) -> Seq<(u32, u32)> {
    plan.map_values(|s: usize| (p.ent(s as int).start_line, p.ent(s as int).end_line))
}

/// Every range starts at line 1 or later and ends within `nlines` lines.
pub open spec fn ranges_fit(ranges: Seq<(u32, u32)>, nlines: int) -> bool {
    forall|k: int| 0 <= k < ranges.len() ==> 1 <= (#[trigger] ranges[k]).0 && ranges[k].1 <= nlines
}

/// The minimized text of file `f`, whose lines are `lines`: the lines of each
/// symbol of its plan, in plan order. `None` when a symbol's lines do not lie
/// within the file.
pub fn render_file(
    p: &Program,
    v: &Vec<bool>,
    norm: &Vec<usize>,
    groups: &Vec<bool>,
    f: usize,
    lines: &Vec<Vec<u8>>,
) -> (r: Option<Vec<u8>>)
    requires
        p.wf(),
        v@.len() == p.n(),
        norm@.len() == p.n(),
        groups@.len() == p.files@.len(),
        forall|g: int| 0 <= g < p.files@.len() ==> (groups@[g] <==> has_group(p, v@, g)),
        forall|s: int| 0 <= s < p.n() ==> #[trigger] norm@[s] < p.files@.len(),
    ensures
        forall|plan: Seq<usize>|
            #[trigger] is_file_plan(p, v@, norm@, f as int, plan) ==> (r is Some <==> ranges_fit(
                ranges_of(p, plan),
                lines@.len() as int,
            )) && (r matches Some(out) ==> out@ == emitted(lines@, ranges_of(p, plan))),
{
    let plan = file_plan(p, v, norm, groups, f);
    proof {
        assert forall|q: Seq<usize>| #[trigger] is_file_plan(p, v@, norm@, f as int, q) implies q == plan@ by {
            lemma_file_plan_unique(p, v@, norm@, f as int, q, plan@);
        }
    }
    let mut ranges: Vec<(u32, u32)> = Vec::new();
    let mut k: usize = 0;
    while k < plan.len()
        invariant
            p.wf(),
            is_file_plan(p, v@, norm@, f as int, plan@),
            0 <= k <= plan@.len(),
            ranges@ == ranges_of(p, plan@.subrange(0, k as int)),
            ranges_fit(ranges@, lines@.len() as int),
            forall|q: Seq<usize>| #[trigger] is_file_plan(p, v@, norm@, f as int, q) ==> q == plan@,
            forall|j: int| 0 <= j < plan@.len() ==> #[trigger] plan@[j] < p.n(),
        decreases plan@.len() - k,
    {
        let s = plan[k];
        let e = &p.entities[s];
        if e.start_line < 1 || e.end_line as usize > lines.len() {
            proof {
                assert(ranges_of(p, plan@)[k as int] == (e.start_line, e.end_line));
                assert(!ranges_fit(ranges_of(p, plan@), lines@.len() as int));
            }
            return None;
        }
        ranges.push((e.start_line, e.end_line));
        proof {
            assert(ranges@ =~= ranges_of(p, plan@.subrange(0, k + 1)));
        }
        k = k + 1;
    }
    assert(plan@.subrange(0, plan@.len() as int) =~= plan@);
    let out = emit_lines(lines, &ranges);
    Some(out)
}

} // verus!
