//! Unifying declarations and definitions that share a source location.
use vstd::prelude::*;
use crate::graph::{analysed, def_of, dep_of, entry_ok, is_key, SymbolDesc, SymbolTable};
use crate::model::Program;
use crate::sets::insert_all;

verus! {

/// Two located symbols at the same file, line and column.
pub open spec fn same_loc(p: &Program, a: int, b: int) -> bool {
    &&& p.ent(a).located
    &&& p.ent(b).located
    &&& p.ent(a).file == p.ent(b).file
    &&& p.ent(a).line == p.ent(b).line
    &&& p.ent(a).column == p.ent(b).column
}

/// A key that the front end calls a declaration.
pub open spec fn decl_key(p: &Program, i: int) -> bool {
    is_key(p, i) && p.ent(i).is_declaration
}

/// A definition recorded by dependency analysis.
pub open spec fn pre_def(p: &Program, i: int, x: int) -> bool {
    analysed(p, i) && def_of(p, i, x)
}

/// A definition of `i` after merging: its own, and for a declaration those
/// of every declaration at its location.
pub open spec fn merged_def(p: &Program, i: int, x: int) -> bool {
    ||| pre_def(p, i, x)
    ||| (decl_key(p, i) && exists|t: int|
        0 <= t < p.n() && decl_key(p, t) && same_loc(p, i, t) && #[trigger] pre_def(p, t, x))
}

/// The merge fails on a declaration without a location.
pub open spec fn all_decls_located(p: &Program) -> bool {
    forall|i: int| 0 <= i < p.n() && #[trigger] decl_key(p, i) ==> p.ent(i).located
}

impl SymbolTable {
    /// The table after the merge: dependencies as analysed, definitions merged.
    pub open spec fn merged_from(&self, p: &Program) -> bool {
        &&& self.shaped(p)
        &&& forall|i: int, x: usize|
            0 <= i < p.n() ==> (#[trigger] self.descs@[i].deps@.contains(x) <==> (analysed(p, i)
                && dep_of(p, i, x as int)))
        &&& forall|i: int, x: usize|
            0 <= i < p.n() ==> (#[trigger] self.descs@[i].definitions@.contains(x)
                <==> merged_def(p, i, x as int))
    }
}

/// Checks that every declaration has a location, or names one that has none.
fn find_unlocated(p: &Program, t: &SymbolTable) -> (r: Option<usize>)
    requires
        p.wf(),
        t.shaped(p),
    ensures
        r is None <==> all_decls_located(p),
        r matches Some(i) ==> i < p.n() && decl_key(p, i as int) && !p.ent(i as int).located,
{
    let mut i: usize = 0;
    while i < p.entities.len()
        invariant
            p.wf(),
            t.shaped(p),
            0 <= i <= p.n(),
            forall|j: int| 0 <= j < i && #[trigger] decl_key(p, j) ==> p.ent(j).located,
        decreases p.n() - i,
    {
        let e = &p.entities[i];
        if t.keys[i] && e.is_declaration && !e.located {
            assert(decl_key(p, i as int));
            return Some(i);
        }
        i = i + 1;
    }
    None
}

/// The merged definitions of `i`, read from the table as analysed.
fn merged_defs_of(p: &Program, t: &SymbolTable, i: usize) -> (defs: Vec<usize>)
    requires
        p.wf(),
        t.analysed_from(p),
        i < p.n(),
        all_decls_located(p),
    ensures
        forall|x: usize| #[trigger] defs@.contains(x) <==> merged_def(p, i as int, x as int),
{
    let mut defs: Vec<usize> = Vec::new();
    assert(entry_ok(p, t.descs@[i as int], i as int, analysed(p, i as int)));
    insert_all(&mut defs, &t.descs[i].definitions);
    let e = &p.entities[i];
    if !(t.keys[i] && e.is_declaration) {
        return defs;
    }
    assert(decl_key(p, i as int));
    let mut k: usize = 0;
    while k < p.entities.len()
        invariant
            p.wf(),
            t.analysed_from(p),
            i < p.n(),
            e == &p.ent(i as int),
            decl_key(p, i as int),
            e.located,
            0 <= k <= p.n(),
            forall|x: usize|
                #[trigger] defs@.contains(x) <==> (pre_def(p, i as int, x as int) || exists|m: int|
                    0 <= m < k && decl_key(p, m) && same_loc(p, i as int, m) && #[trigger] pre_def(
                        p,
                        m,
                        x as int,
                    )),
        decreases p.n() - k,
    {
        let f = &p.entities[k];
        let ghost before = defs@;
        if t.keys[k] && f.is_declaration && f.located && f.file == e.file && f.line == e.line
            && f.column == e.column {
            assert(entry_ok(p, t.descs@[k as int], k as int, analysed(p, k as int)));
            insert_all(&mut defs, &t.descs[k].definitions);
        }
        proof {
            assert(entry_ok(p, t.descs@[k as int], k as int, analysed(p, k as int)));
            assert forall|x: usize|
                #[trigger] defs@.contains(x) <==> (pre_def(p, i as int, x as int) || exists|m: int|
                    0 <= m < k + 1 && decl_key(p, m) && same_loc(p, i as int, m)
                        && #[trigger] pre_def(p, m, x as int)) by {
                if decl_key(p, k as int) && same_loc(p, i as int, k as int) && pre_def(
                    p,
                    k as int,
                    x as int,
                ) {
                    assert(t.descs@[k as int].definitions@.contains(x));
                }
                if exists|m: int|
                    0 <= m < k + 1 && decl_key(p, m) && same_loc(p, i as int, m)
                        && #[trigger] pre_def(p, m, x as int) {
                    let m = choose|m: int|
                        0 <= m < k + 1 && decl_key(p, m) && same_loc(p, i as int, m)
                            && #[trigger] pre_def(p, m, x as int);
                    if m == k {
                        assert(t.descs@[k as int].definitions@.contains(x));
                    }
                }
            }
        }
        k = k + 1;
    }
    defs
}

/// Merges the definitions of declarations that share a location: first the
/// merged sets of every symbol are computed from the table as analysed, then
/// they are stored. A declaration without a location is reported and the
/// table is left as it was.
pub fn merge(p: &Program, t: &mut SymbolTable) -> (r: Result<(), usize>)
    requires
        p.wf(),
        old(t).analysed_from(p),
    ensures
        r is Ok <==> all_decls_located(p),
        r is Ok ==> final(t).merged_from(p),
        r matches Err(i) ==> i < p.n() && decl_key(p, i as int) && !p.ent(i as int).located
            && *final(t) == *old(t),
{
    if let Some(i) = find_unlocated(p, t) {
        return Err(i);
    }
    let n = p.entities.len();
    let mut new_descs: Vec<SymbolDesc> = Vec::new();
    let mut i: usize = 0;
    while i < n
        invariant
            p.wf(),
            t.analysed_from(p),
            all_decls_located(p),
            n == p.n(),
            0 <= i <= n,
            new_descs@.len() == i,
            forall|j: int, x: usize|
                0 <= j < i ==> (#[trigger] new_descs@[j].deps@.contains(x) <==> (analysed(p, j)
                    && dep_of(p, j, x as int))),
            forall|j: int, x: usize|
                0 <= j < i ==> (#[trigger] new_descs@[j].definitions@.contains(x) <==> merged_def(
                    p,
                    j,
                    x as int,
                )),
        decreases n - i,
    {
        let definitions = merged_defs_of(p, t, i);
        let mut deps: Vec<usize> = Vec::new();
        assert(entry_ok(p, t.descs@[i as int], i as int, analysed(p, i as int)));
        insert_all(&mut deps, &t.descs[i].deps);
        new_descs.push(SymbolDesc { deps, definitions });
        i = i + 1;
    }
    t.descs = new_descs;
    Ok(())
}

/// Declarations that share a location end the merge with the same
/// definitions, whichever of them was analysed first.
pub proof fn lemma_merge_symmetry(p: &Program, a: int, b: int, x: int)
    requires
        p.wf(),
        0 <= a < p.n(),
        0 <= b < p.n(),
        decl_key(p, a),
        decl_key(p, b),
        same_loc(p, a, b),
    ensures
        merged_def(p, a, x) <==> merged_def(p, b, x),
{
    if merged_def(p, a, x) {
        if pre_def(p, a, x) {
            assert(same_loc(p, b, a));
        } else {
            let t = choose|t: int|
                0 <= t < p.n() && decl_key(p, t) && same_loc(p, a, t) && #[trigger] pre_def(p, t, x);
            assert(same_loc(p, b, t));
        }
    }
    if merged_def(p, b, x) {
        if pre_def(p, b, x) {
            assert(same_loc(p, a, b));
        } else {
            let t = choose|t: int|
                0 <= t < p.n() && decl_key(p, t) && same_loc(p, b, t) && #[trigger] pre_def(p, t, x);
            assert(same_loc(p, a, t));
        }
    }
}

} // verus!
