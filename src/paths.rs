//! Bare file names, the registry of system headers, and the resolution of
//! inclusion directives to canonical files.
use vstd::prelude::*;
use crate::model::{Program, SymKind};
use crate::sets::{bytes_eq, insert_unique};

verus! {

/// `b` is what follows the last `/` of `s` (all of `s` if it has none).
pub open spec fn is_basename(s: Seq<u8>, b: Seq<u8>) -> bool {
    exists|i: int|
        0 <= i <= s.len() && (i == 0 || s[i - 1] == 0x2f) && (forall|j: int|
            i <= j < s.len() ==> s[j] != 0x2f) && b == #[trigger] s.subrange(i, s.len() as int)
}

/// The bare file name of a path.
pub fn basename(s: &Vec<u8>) -> (r: Vec<u8>)
    ensures
        is_basename(s@, r@),
{
    let mut i: usize = s.len();
    while i > 0 && s[i - 1] != 0x2f
        invariant
            0 <= i <= s@.len(),
            forall|j: int| i <= j < s@.len() ==> s@[j] != 0x2f,
        decreases i,
    {
        i = i - 1;
    }
    let mut r: Vec<u8> = Vec::new();
    let mut k: usize = i;
    while k < s.len()
        invariant
            i <= k <= s@.len(),
            r@ == s@.subrange(i as int, k as int),
        decreases s@.len() - k,
    {
        r.push(s[k]);
        assert(r@ =~= s@.subrange(i as int, k + 1));
        k = k + 1;
    }
    assert(r@ == s@.subrange(i as int, s@.len() as int));
    r
}

/// The files of the system headers: the file of every located top-level
/// symbol that lies in a system header.
pub fn system_files(p: &Program) -> (sys: Vec<usize>)
    requires
        p.wf(),
    ensures
        forall|f: usize|
            #[trigger] sys@.contains(f) <==> exists|i: int|
                #[trigger] p.is_top(i) && p.ent(i).located && p.ent(i).in_system_header && p.ent(
                    i,
                ).file == f,
        forall|k: int| 0 <= k < sys@.len() ==> #[trigger] sys@[k] < p.files@.len(),
{
    let mut sys: Vec<usize> = Vec::new();
    let mut u: usize = 0;
    while u < p.units.len()
        invariant
            p.wf(),
            0 <= u <= p.units@.len(),
            forall|f: usize|
                #[trigger] sys@.contains(f) <==> exists|i: int|
                    #[trigger] sys_in(p, u as int, i) && p.ent(i).file == f,
        decreases p.units@.len() - u,
    {
        let top = &p.units[u];
        let mut k: usize = 0;
        while k < top.len()
            invariant
                p.wf(),
                0 <= u < p.units@.len(),
                top == &p.units@[u as int],
                0 <= k <= top@.len(),
                forall|f: usize|
                    #[trigger] sys@.contains(f) <==> (exists|i: int|
                        #[trigger] sys_in(p, u as int, i) && p.ent(i).file == f) || exists|m: int|
                        0 <= m < k && p.ent(top@[m] as int).located && p.ent(
                            top@[m] as int,
                        ).in_system_header && p.ent(#[trigger] top@[m] as int).file == f,
            decreases top@.len() - k,
        {
            let i = top[k];
            assert(p.units@[u as int]@[k as int] == i);
            let e = &p.entities[i];
            if e.located && e.in_system_header {
                insert_unique(&mut sys, e.file);
            }
            proof {
                assert forall|f: usize|
                    #[trigger] sys@.contains(f) <==> (exists|i: int|
                        #[trigger] sys_in(p, u as int, i) && p.ent(i).file == f) || exists|m: int|
                        0 <= m < k + 1 && p.ent(top@[m] as int).located && p.ent(
                            top@[m] as int,
                        ).in_system_header && p.ent(#[trigger] top@[m] as int).file == f by {
                    if exists|m: int|
                        0 <= m < k + 1 && p.ent(top@[m] as int).located && p.ent(
                            top@[m] as int,
                        ).in_system_header && p.ent(#[trigger] top@[m] as int).file == f {
                        let m = choose|m: int|
                            0 <= m < k + 1 && p.ent(top@[m] as int).located && p.ent(
                                top@[m] as int,
                            ).in_system_header && p.ent(#[trigger] top@[m] as int).file == f;
                        if m < k {
                            assert(p.ent(top@[m] as int).file == f);
                        }
                    }
                    if e.located && e.in_system_header && e.file == f {
                        assert(p.ent(top@[k as int] as int).file == f);
                    }
                }
            }
            k = k + 1;
        }
        proof {
            assert forall|f: usize|
                #[trigger] sys@.contains(f) <==> exists|i: int|
                    #[trigger] sys_in(p, u + 1, i) && p.ent(i).file == f by {
                if exists|m: int|
                    0 <= m < top@.len() && p.ent(top@[m] as int).located && p.ent(
                        top@[m] as int,
                    ).in_system_header && p.ent(#[trigger] top@[m] as int).file == f {
                    let m = choose|m: int|
                        0 <= m < top@.len() && p.ent(top@[m] as int).located && p.ent(
                            top@[m] as int,
                        ).in_system_header && p.ent(#[trigger] top@[m] as int).file == f;
                    let i = top@[m] as int;
                    assert(p.top_in(u as int, i));
                    assert(sys_in(p, u + 1, i));
                }
                if exists|i: int| #[trigger] sys_in(p, u as int, i) && p.ent(i).file == f {
                    let i = choose|i: int| #[trigger] sys_in(p, u as int, i) && p.ent(i).file == f;
                    let v = choose|v: int| 0 <= v < u && p.top_in(v, i);
                    assert(0 <= v < u + 1 && p.top_in(v, i));
                    assert(sys_in(p, u + 1, i));
                }
                if exists|i: int| #[trigger] sys_in(p, u + 1, i) && p.ent(i).file == f {
                    let i = choose|i: int| #[trigger] sys_in(p, u + 1, i) && p.ent(i).file == f;
                    if !sys_in(p, u as int, i) {
                        let v = choose|v: int| 0 <= v < u + 1 && p.top_in(v, i);
                        assert(v == u);
                        assert(top@.contains(i as usize));
                        let m = choose|m: int| 0 <= m < top@.len() && top@[m] == i as usize;
                        assert(p.ent(top@[m] as int).file == f);
                        assert(0 <= m < top@.len() && p.ent(top@[m] as int).located && p.ent(
                            top@[m] as int,
                        ).in_system_header && p.ent(top@[m] as int).file == f);
                    }
                }
            }
        }
        u = u + 1;
    }
    proof {
        assert forall|f: usize|
            #[trigger] sys@.contains(f) <==> exists|i: int|
                #[trigger] p.is_top(i) && p.ent(i).located && p.ent(i).in_system_header && p.ent(
                    i,
                ).file == f by {
            if exists|i: int|
                #[trigger] p.is_top(i) && p.ent(i).located && p.ent(i).in_system_header && p.ent(
                    i,
                ).file == f {
                let i = choose|i: int|
                    #[trigger] p.is_top(i) && p.ent(i).located && p.ent(i).in_system_header && p.ent(
                        i,
                    ).file == f;
                let v = choose|v: int| p.top_in(v, i);
                assert(0 <= v < u && p.top_in(v, i));
                assert(sys_in(p, u as int, i));
            }
            if exists|i: int| #[trigger] sys_in(p, u as int, i) && p.ent(i).file == f {
                let i = choose|i: int| #[trigger] sys_in(p, u as int, i) && p.ent(i).file == f;
                let v = choose|v: int| 0 <= v < u && p.top_in(v, i);
                assert(p.is_top(i));
            }
        }
        assert forall|k: int| 0 <= k < sys@.len() implies #[trigger] sys@[k] < p.files@.len() by {
            assert(sys@.contains(sys@[k]));
            let i = choose|i: int|
                #[trigger] sys_in(p, u as int, i) && p.ent(i).file == sys@[k];
            let v = choose|v: int| 0 <= v < u && p.top_in(v, i);
            let m = choose|m: int| 0 <= m < p.units@[v]@.len() && p.units@[v]@[m] == i as usize;
            assert(p.units@[v]@[m] < p.n());
            assert(p.ent(i).wf_in(p.n(), p.files@.len() as int, p.units@.len() as int));
        }
    }
    sys
}

/// A located system-header symbol that is top-level in one of the first `u` units.
pub open spec fn sys_in(p: &Program, u: int, i: int) -> bool {
    &&& exists|v: int| 0 <= v < u && p.top_in(v, i)
    &&& p.ent(i).located
    &&& p.ent(i).in_system_header
}

pub proof fn lemma_basename_unique(s: Seq<u8>, a: Seq<u8>, b: Seq<u8>)
    requires
        is_basename(s, a),
        is_basename(s, b),
    ensures
        a == b,
{
    let i = choose|i: int|
        0 <= i <= s.len() && (i == 0 || s[i - 1] == 0x2f) && (forall|j: int|
            i <= j < s.len() ==> s[j] != 0x2f) && a == #[trigger] s.subrange(i, s.len() as int);
    let k = choose|k: int|
        0 <= k <= s.len() && (k == 0 || s[k - 1] == 0x2f) && (forall|j: int|
            k <= j < s.len() ==> s[j] != 0x2f) && b == #[trigger] s.subrange(k, s.len() as int);
    if i < k {
        assert(s[k - 1] != 0x2f);
    }
    if k < i {
        assert(s[i - 1] != 0x2f);
    }
}

/// Position `k` of the registry `sys` holds a file with the bare name `name`.
pub open spec fn registered_at(p: &Program, sys: Seq<usize>, name: Seq<u8>, k: int) -> bool {
    0 <= k < sys.len() && sys[k] < p.files@.len() && is_basename(p.files@[sys[k] as int]@, name)
}

/// What an inclusion directive resolves to: the first system file registered
/// under its spelling if there is one, else the file its spelling names
/// relative to the directory of the file that holds it.
pub open spec fn resolves_to(p: &Program, sys: Seq<usize>, inc: int, f: usize) -> bool {
    let name = p.ent(inc).name.unwrap()@;
    if exists|k: int| #[trigger] registered_at(p, sys, name, k) {
        exists|k: int|
            #[trigger] registered_at(p, sys, name, k) && sys[k] == f && forall|q: int|
                0 <= q < k ==> !registered_at(p, sys, name, q)
    } else {
        p.ent(inc).include_target == Some(f)
    }
}

/// Resolves an inclusion directive to a canonical file.
pub fn normalize_include(p: &Program, sys: &Vec<usize>, inc: usize) -> (r: usize)
    requires
        p.wf(),
        inc < p.n(),
        p.ent(inc as int).kind == SymKind::InclusionDirective,
        forall|k: int| 0 <= k < sys@.len() ==> #[trigger] sys@[k] < p.files@.len(),
    ensures
        resolves_to(p, sys@, inc as int, r),
{
    let e = &p.entities[inc];
    assert(p.ent(inc as int).wf_in(p.n(), p.files@.len() as int, p.units@.len() as int));
    let name = match &e.name {
        Some(nm) => nm,
        None => {
            return 0;
        },
    };
    assert(name@ == p.ent(inc as int).name.unwrap()@);
    let mut k: usize = 0;
    while k < sys.len()
        invariant
            p.wf(),
            inc < p.n(),
            name@ == p.ent(inc as int).name.unwrap()@,
            forall|q: int| 0 <= q < sys@.len() ==> #[trigger] sys@[q] < p.files@.len(),
            0 <= k <= sys@.len(),
            forall|q: int|
                0 <= q < k ==> !is_basename(p.files@[#[trigger] sys@[q] as int]@, name@),
        decreases sys@.len() - k,
    {
        let f = sys[k];
        let b = basename(&p.files[f]);
        if bytes_eq(&b, name) {
            assert(b@ == name@);
            assert(registered_at(p, sys@, name@, k as int));
            assert(forall|q: int| 0 <= q < k ==> !registered_at(p, sys@, name@, q));
            return f;
        }
        proof {
            if is_basename(p.files@[f as int]@, name@) {
                lemma_basename_unique(p.files@[f as int]@, b@, name@);
            }
        }
        k = k + 1;
    }
    proof {
        assert forall|q: int| !#[trigger] registered_at(p, sys@, name@, q) by {
            if 0 <= q < sys@.len() {
                assert(!is_basename(p.files@[sys@[q] as int]@, name@));
            }
        }
    }
    match e.include_target {
        Some(t) => t,
        None => 0,
    }
}

/// The resolved file of every inclusion directive, one entry per symbol (0
/// for the other symbols).
pub fn resolve_includes(p: &Program, sys: &Vec<usize>) -> (norm: Vec<usize>)
    requires
        p.wf(),
        p.files@.len() > 0,
        forall|k: int| 0 <= k < sys@.len() ==> #[trigger] sys@[k] < p.files@.len(),
    ensures
        norm@.len() == p.n(),
        forall|i: int| 0 <= i < p.n() ==> #[trigger] norm@[i] < p.files@.len(),
        forall|i: int|
            0 <= i < p.n() && p.ent(i).kind == SymKind::InclusionDirective ==> resolves_to(
                p,
                sys@,
                i,
                #[trigger] norm@[i],
            ),
        forall|i: int|
            0 <= i < p.n() && p.ent(i).kind != SymKind::InclusionDirective ==> #[trigger] norm@[i]
                == 0,
{
    let mut norm: Vec<usize> = Vec::new();
    let mut i: usize = 0;
    while i < p.entities.len()
        invariant
            p.wf(),
            p.files@.len() > 0,
            forall|k: int| 0 <= k < sys@.len() ==> #[trigger] sys@[k] < p.files@.len(),
            0 <= i <= p.n(),
            norm@.len() == i,
            forall|j: int| 0 <= j < i ==> #[trigger] norm@[j] < p.files@.len(),
            forall|j: int|
                0 <= j < i && p.ent(j).kind == SymKind::InclusionDirective ==> resolves_to(
                    p,
                    sys@,
                    j,
                    #[trigger] norm@[j],
                ),
            forall|j: int|
                0 <= j < i && p.ent(j).kind != SymKind::InclusionDirective ==> #[trigger] norm@[j]
                    == 0,
        decreases p.n() - i,
    {
        let is_inc = match p.entities[i].kind {
            SymKind::InclusionDirective => true,
            _ => false,
        };
        if is_inc {
            let f = normalize_include(p, sys, i);
            proof {
                assert(p.ent(i as int).wf_in(p.n(), p.files@.len() as int, p.units@.len() as int));
                let name = p.ent(i as int).name.unwrap()@;
                if exists|k: int| #[trigger] registered_at(p, sys@, name, k) {
                    let k = choose|k: int|
                        #[trigger] registered_at(p, sys@, name, k) && sys@[k] == f && forall|q: int|
                            0 <= q < k ==> !registered_at(p, sys@, name, q);
                    assert(sys@[k] < p.files@.len());
                }
            }
            norm.push(f);
        } else {
            norm.push(0);
        }
        i = i + 1;
    }
    norm
}

} // verus!
