//! The reachability closure from a set of entry-symbol names.
use vstd::prelude::*;
use vstd::set_lib::{lemma_int_range, lemma_len_subset, set_int_range};
use crate::graph::{analysed, dep_of, in_index, is_key, SymbolTable};
use crate::merge::merged_def;
use crate::model::{Entity, Program, SymKind};
use crate::sets::{bytes_eq, has_sub};

verus! {

/// An edge of the dependency graph: a symbol that is no terminal leaf
/// depends on `b`, or `b` defines it.
pub open spec fn edge(p: &Program, a: int, b: int) -> bool {
    &&& !p.ent(a).is_terminal()
    &&& ((analysed(p, a) && dep_of(p, a, b)) || merged_def(p, a, b))
}

/// A key whose name is one of the entry names.
pub open spec fn seed(p: &Program, targets: Seq<Vec<u8>>, s: int) -> bool {
    &&& 0 <= s < p.n()
    &&& is_key(p, s)
    &&& p.ent(s).name is Some
    &&& exists|m: int| 0 <= m < targets.len() && #[trigger] targets[m]@ == p.ent(s).name.unwrap()@
}

/// `path` starts at an entry symbol and follows edges.
pub open spec fn is_path(p: &Program, targets: Seq<Vec<u8>>, path: Seq<int>) -> bool {
    &&& path.len() > 0
    &&& seed(p, targets, path[0])
    &&& forall|i: int| 0 <= i < path.len() - 1 ==> #[trigger] edge(p, path[i], path[i + 1])
}

/// `s` has a path from some entry symbol along dependency and definition edges.
pub open spec fn reachable(p: &Program, targets: Seq<Vec<u8>>, s: int) -> bool {
    exists|path: Seq<int>| #[trigger] is_path(p, targets, path) && path.last() == s
}

/// Every reachable symbol that is no terminal leaf has a descriptor.
pub open spec fn reached_have_desc(p: &Program, targets: Seq<Vec<u8>>) -> bool {
    forall|s: int|
        #[trigger] reachable(p, targets, s) && !p.ent(s).is_terminal() ==> is_key(p, s)
}

/// `v` flags exactly the reachable symbols.
pub open spec fn is_extraction(p: &Program, targets: Seq<Vec<u8>>, v: Seq<bool>) -> bool {
    &&& v.len() == p.n()
    &&& forall|s: int| 0 <= s < p.n() ==> (v[s] <==> #[trigger] reachable(p, targets, s))
}

/// All targets of `s` are flagged in `v`, or `s` is a terminal leaf.
pub open spec fn done(p: &Program, v: Seq<bool>, s: int) -> bool {
    ||| p.ent(s).is_terminal()
    ||| (is_key(p, s) && forall|x: int| 0 <= x < p.n() && #[trigger] edge(p, s, x) ==> v[x])
}

pub proof fn lemma_edge_in_range(p: &Program, a: int, b: int)
    requires
        p.wf(),
        0 <= a < p.n(),
        edge(p, a, b),
    ensures
        0 <= b < p.n(),
{
    assert(p.ent(a).wf_in(p.n(), p.files@.len() as int, p.units@.len() as int));
    if merged_def(p, a, b) {
        if !crate::merge::pre_def(p, a, b) {
            let t = choose|t: int|
                0 <= t < p.n() && crate::merge::decl_key(p, t) && crate::merge::same_loc(p, a, t)
                    && #[trigger] crate::merge::pre_def(p, t, b);
            assert(p.ent(t).wf_in(p.n(), p.files@.len() as int, p.units@.len() as int));
        }
    } else {
        lemma_dep_in_range(p, a, b);
    }
}

proof fn lemma_top_in_range(p: &Program, u: int, i: int)
    requires
        p.wf(),
        p.top_in(u, i),
    ensures
        0 <= i < p.n(),
{
    let k = choose|k: int| 0 <= k < p.units@[u]@.len() && p.units@[u]@[k] == i as usize;
    assert(p.units@[u]@[k] < p.n());
}

proof fn lemma_dep_in_range(p: &Program, a: int, b: int)
    requires
        p.wf(),
        0 <= a < p.n(),
        dep_of(p, a, b),
    ensures
        0 <= b < p.n(),
{
    if crate::graph::via_child(p, a, b) {
        let k = choose|k: int|
            0 <= k < p.ent(a).descendants@.len() && crate::graph::child_dep(
                p,
                #[trigger] p.ent(a).descendants@[k] as int,
                b,
            );
        let u = choose|u: int| p.top_in(u, b);
        lemma_top_in_range(p, u, b);
    } else {
        assert(in_index(p, p.ent(a).unit as int, b));
        lemma_top_in_range(p, p.ent(a).unit as int, b);
    }
}

proof fn lemma_done_grows(p: &Program, v: Seq<bool>, w: Seq<bool>, s: int)
    requires
        v.len() == p.n(),
        w.len() == p.n(),
        forall|i: int| 0 <= i < p.n() && v[i] ==> w[i],
        done(p, v, s),
    ensures
        done(p, w, s),
{
}

proof fn lemma_path_flagged(p: &Program, targets: Seq<Vec<u8>>, v: Seq<bool>, path: Seq<int>)
    requires
        p.wf(),
        v.len() == p.n(),
        forall|i: int| 0 <= i < p.n() && #[trigger] seed(p, targets, i) ==> v[i],
        forall|i: int| 0 <= i < p.n() && v[i] ==> #[trigger] done(p, v, i),
        is_path(p, targets, path),
    ensures
        0 <= path.last() < p.n() && v[path.last()],
    decreases path.len(),
{
    if path.len() > 1 {
        let q = path.drop_last();
        assert(is_path(p, targets, q)) by {
            assert forall|i: int| 0 <= i < q.len() - 1 implies #[trigger] edge(p, q[i], q[i + 1]) by {
                assert(edge(p, path[i], path[i + 1]));
            }
        }
        lemma_path_flagged(p, targets, v, q);
        let a = q.last();
        let i = path.len() - 2;
        assert(edge(p, path[i], path[i + 1]));
        assert(path[i] == a && path[i + 1] == path.last());
        lemma_edge_in_range(p, a, path.last());
        assert(done(p, v, a));
    }
}

/// Extending a path by one edge gives a path.
pub proof fn lemma_path_extend(p: &Program, targets: Seq<Vec<u8>>, path: Seq<int>, x: int)
    requires
        is_path(p, targets, path),
        edge(p, path.last(), x),
    ensures
        is_path(p, targets, path.push(x)),
        path.push(x).last() == x,
{
    let q = path.push(x);
    assert forall|i: int| 0 <= i < q.len() - 1 implies #[trigger] edge(p, q[i], q[i + 1]) by {
        if i < path.len() - 1 {
            assert(edge(p, path[i], path[i + 1]));
        }
    }
}

/// Whether `name` is one of `targets`.
fn is_target(name: &Vec<u8>, targets: &Vec<Vec<u8>>) -> (r: bool)
    ensures
        r == exists|m: int| 0 <= m < targets@.len() && #[trigger] targets@[m]@ == name@,
{
    let mut m: usize = 0;
    while m < targets.len()
        invariant
            0 <= m <= targets@.len(),
            forall|q: int| 0 <= q < m ==> #[trigger] targets@[q]@ != name@,
        decreases targets@.len() - m,
    {
        if bytes_eq(&targets[m], name) {
            return true;
        }
        m = m + 1;
    }
    false
}

/// The symbols flagged in `v`.
pub open spec fn flagged(v: Seq<bool>) -> Set<int> {
    Set::new(|j: int| 0 <= j < v.len() && v[j])
}

proof fn lemma_flagged_bound(v: Seq<bool>)
    ensures
        flagged(v).finite(),
        flagged(v).len() <= v.len(),
{
    lemma_int_range(0, v.len() as int);
    assert(flagged(v).subset_of(set_int_range(0, v.len() as int)));
    lemma_len_subset(flagged(v), set_int_range(0, v.len() as int));
}

proof fn lemma_flagged_insert(v: Seq<bool>, x: int)
    requires
        0 <= x < v.len(),
        !v[x],
    ensures
        flagged(v.update(x, true)).len() == flagged(v).len() + 1,
{
    lemma_flagged_bound(v);
    assert(flagged(v.update(x, true)) =~= flagged(v).insert(x));
}

/// The state of the search: every flagged symbol is reachable, and has all
/// its targets flagged unless it waits on the stack or is `pending`.
pub open spec fn bfs_inv(
    p: &Program,
    targets: Seq<Vec<u8>>,
    v: Seq<bool>,
    st: Seq<usize>,
    pending: int,
) -> bool {
    &&& v.len() == p.n()
    &&& p.n() <= usize::MAX
    &&& forall|k: int| 0 <= k < st.len() ==> #[trigger] st[k] < p.n() && v[st[k] as int]
    &&& forall|j: int| 0 <= j < p.n() && #[trigger] v[j] ==> reachable(p, targets, j)
    &&& forall|j: int|
        0 <= j < p.n() && #[trigger] v[j] ==> done(p, v, j) || st.contains(j as usize) || j
            == pending
}

fn mark(
    p: &Program,
    targets: Ghost<Seq<Vec<u8>>>,
    visited: &mut Vec<bool>,
    stack: &mut Vec<usize>,
    x: usize,
    pending: Ghost<int>,
)
    requires
        p.wf(),
        bfs_inv(p, targets@, old(visited)@, old(stack)@, pending@),
        x < p.n(),
        reachable(p, targets@, x as int),
    ensures
        bfs_inv(p, targets@, final(visited)@, final(stack)@, pending@),
        final(visited)@[x as int],
        forall|j: int| 0 <= j < p.n() && old(visited)@[j] ==> #[trigger] final(visited)@[j],
        final(stack)@.len() + flagged(old(visited)@).len() == old(stack)@.len() + flagged(
            final(visited)@,
        ).len(),
{
    if !visited[x] {
        proof {
            lemma_flagged_insert(visited@, x as int);
        }
        let ghost v0 = visited@;
        let ghost s0 = stack@;
        visited.set(x, true);
        stack.push(x);
        proof {
            assert forall|k: int| 0 <= k < stack@.len() implies #[trigger] stack@[k] < p.n()
                && visited@[stack@[k] as int] by {
                if k < s0.len() {
                    assert(s0[k] == stack@[k]);
                }
            }
            assert forall|j: int|
                0 <= j < p.n() && #[trigger] visited@[j] implies done(p, visited@, j)
                    || stack@.contains(j as usize) || j == pending@ by {
                if j == x {
                    assert(stack@[stack@.len() - 1] == x);
                } else {
                    assert(v0[j]);
                    if done(p, v0, j) {
                        lemma_done_grows(p, v0, visited@, j);
                    } else if s0.contains(j as usize) {
                        let k = choose|k: int| 0 <= k < s0.len() && s0[k] == j as usize;
                        assert(stack@[k] == j as usize);
                    }
                }
            }
        }
    }
}

/// Follows every edge from `a` that `list` holds.
fn mark_targets(
    p: &Program,
    t: &SymbolTable,
    targets: Ghost<Seq<Vec<u8>>>,
    visited: &mut Vec<bool>,
    stack: &mut Vec<usize>,
    a: usize,
    list: &Vec<usize>,
)
    requires
        p.wf(),
        t.merged_from(p),
        bfs_inv(p, targets@, old(visited)@, old(stack)@, a as int),
        a < p.n(),
        reachable(p, targets@, a as int),
        forall|x: usize| #[trigger] list@.contains(x) ==> edge(p, a as int, x as int),
    ensures
        bfs_inv(p, targets@, final(visited)@, final(stack)@, a as int),
        forall|x: usize| #[trigger] list@.contains(x) ==> final(visited)@[x as int],
        forall|j: int| 0 <= j < p.n() && old(visited)@[j] ==> #[trigger] final(visited)@[j],
        final(stack)@.len() + flagged(old(visited)@).len() == old(stack)@.len() + flagged(
            final(visited)@,
        ).len(),
{
    let ghost v0 = visited@;
    let ghost s0 = stack@;
    let mut j: usize = 0;
    while j < list.len()
        invariant
            p.wf(),
            t.merged_from(p),
            bfs_inv(p, targets@, visited@, stack@, a as int),
            a < p.n(),
            reachable(p, targets@, a as int),
            forall|x: usize| #[trigger] list@.contains(x) ==> edge(p, a as int, x as int),
            0 <= j <= list@.len(),
            forall|m: int|
                0 <= m < j ==> #[trigger] list@[m] < p.n() && visited@[list@[m] as int],
            forall|i: int| 0 <= i < p.n() && v0[i] ==> #[trigger] visited@[i],
            stack@.len() + flagged(v0).len() == s0.len() + flagged(visited@).len(),
        decreases list@.len() - j,
    {
        let x = list[j];
        assert(list@.contains(x));
        proof {
            lemma_edge_in_range(p, a as int, x as int);
            let path = choose|path: Seq<int>| #[trigger] is_path(p, targets@, path) && path.last() == a;
            lemma_path_extend(p, targets@, path, x as int);
        }
        mark(p, targets, visited, stack, x, Ghost(a as int));
        j = j + 1;
    }
    proof {
        assert forall|x: usize| #[trigger] list@.contains(x) implies visited@[x as int] by {
            let m = choose|m: int| 0 <= m < list@.len() && list@[m] == x;
            assert(visited@[list@[m] as int]);
        }
    }
}

/// The entry symbols: every key whose name is one of `targets`, flagged and
/// put on the stack.
fn seed_entries(p: &Program, t: &SymbolTable, targets: &Vec<Vec<u8>>) -> (r: (Vec<bool>, Vec<usize>))
    requires
        p.wf(),
        t.merged_from(p),
    ensures
        bfs_inv(p, targets@, r.0@, r.1@, -1),
        forall|j: int| #[trigger] seed(p, targets@, j) ==> r.0@[j],
{
    let n = p.entities.len();
    let mut visited: Vec<bool> = Vec::new();
    let mut stack: Vec<usize> = Vec::new();
    assert(p.n() <= usize::MAX);
    let mut i: usize = 0;
    while i < n
        invariant
            n == p.n(),
            0 <= i <= n,
            visited@.len() == i,
            forall|j: int| 0 <= j < i ==> !visited@[j],
        decreases n - i,
    {
        visited.push(false);
        i = i + 1;
    }
    let mut i: usize = 0;
    while i < n
        invariant
            p.wf(),
            t.merged_from(p),
            n == p.n(),
            0 <= i <= n,
            bfs_inv(p, targets@, visited@, stack@, -1),
            forall|j: int| 0 <= j < i && #[trigger] seed(p, targets@, j) ==> visited@[j],
        decreases n - i,
    {
        let e = &p.entities[i];
        if t.keys[i] {
            if let Some(name) = &e.name {
                if is_target(name, targets) {
                    proof {
                        let path = seq![i as int];
                        assert(is_path(p, targets@, path));
                    }
                    mark(p, Ghost(targets@), &mut visited, &mut stack, i, Ghost(-1));
                }
            }
        }
        i = i + 1;
    }
    (visited, stack)
}

proof fn lemma_pop(p: &Program, targets: Seq<Vec<u8>>, v: Seq<bool>, s0: Seq<usize>)
    requires
        bfs_inv(p, targets, v, s0, -1),
        s0.len() > 0,
    ensures
        bfs_inv(p, targets, v, s0.drop_last(), s0.last() as int),
        s0.last() < p.n(),
        v[s0.last() as int],
{
    let st = s0.drop_last();
    let a = s0.last();
    assert(s0[s0.len() - 1] < p.n() && v[s0[s0.len() - 1] as int]);
    assert forall|j: int|
        0 <= j < p.n() && #[trigger] v[j] implies done(p, v, j) || st.contains(j as usize) || j
            == a as int by {
        if !done(p, v, j) {
            assert(s0.contains(j as usize));
            let k = choose|k: int| 0 <= k < s0.len() && s0[k] == j as usize;
            if k < s0.len() - 1 {
                assert(st[k] == j as usize);
            }
        }
    }
    assert forall|k: int| 0 <= k < st.len() implies #[trigger] st[k] < p.n() && v[st[k] as int] by {
        assert(st[k] == s0[k]);
    }
}

/// Takes one symbol off the stack and follows its edges; returns it if it
/// has no descriptor though it is no terminal leaf.
fn step(
    p: &Program,
    t: &SymbolTable,
    targets: Ghost<Seq<Vec<u8>>>,
    visited: &mut Vec<bool>,
    stack: &mut Vec<usize>,
) -> (r: Option<usize>)
    requires
        p.wf(),
        t.merged_from(p),
        bfs_inv(p, targets@, old(visited)@, old(stack)@, -1),
        old(stack)@.len() > 0,
    ensures
        r matches Some(a) ==> a < p.n() && reachable(p, targets@, a as int) && !p.ent(
            a as int,
        ).is_terminal() && !is_key(p, a as int),
        r is None ==> bfs_inv(p, targets@, final(visited)@, final(stack)@, -1),
        r is None ==> forall|j: int|
            0 <= j < p.n() && old(visited)@[j] ==> #[trigger] final(visited)@[j],
        r is None ==> final(stack)@.len() + flagged(old(visited)@).len() + 1 == old(stack)@.len()
            + flagged(final(visited)@).len(),
{
    proof {
        lemma_pop(p, targets@, visited@, stack@);
    }
    let a = stack.pop().unwrap();
    let kind = p.entities[a].kind;
    let terminal = match kind {
        SymKind::MacroExpansion | SymKind::InclusionDirective => true,
        _ => false,
    };
    if !terminal {
        if !t.keys[a] {
            return Some(a);
        }
        proof {
            assert forall|x: usize| #[trigger] t.descs@[a as int].deps@.contains(x) implies edge(
                p,
                a as int,
                x as int,
            ) by {}
            assert forall|x: usize| #[trigger] t.descs@[a as int].definitions@.contains(x) implies edge(
                p,
                a as int,
                x as int,
            ) by {}
        }
        mark_targets(p, t, targets, visited, stack, a, &t.descs[a].deps);
        mark_targets(p, t, targets, visited, stack, a, &t.descs[a].definitions);
        proof {
            assert forall|x: int| 0 <= x < p.n() && #[trigger] edge(p, a as int, x) implies visited@[x] by {
                if analysed(p, a as int) && dep_of(p, a as int, x) {
                    assert(t.descs@[a as int].deps@.contains(x as usize));
                } else {
                    assert(t.descs@[a as int].definitions@.contains(x as usize));
                }
            }
            assert(done(p, visited@, a as int));
        }
    }
    proof {
        assert forall|j: int|
            0 <= j < p.n() && #[trigger] visited@[j] implies done(p, visited@, j)
                || stack@.contains(j as usize) || j == -1 by {}
    }
    None
}

/// The reachability closure of the entry symbols named by `targets`.
///
/// A dequeued symbol that is no terminal leaf and has no descriptor is an
/// inconsistent graph: it is returned as the error.
pub fn extract_symbols(p: &Program, t: &SymbolTable, targets: &Vec<Vec<u8>>) -> (r: Result<
    Vec<bool>,
    usize,
>)
    requires
        p.wf(),
        t.merged_from(p),
    ensures
        r is Ok <==> reached_have_desc(p, targets@),
        r matches Ok(v) ==> is_extraction(p, targets@, v@),
        r matches Err(s) ==> s < p.n() && reachable(p, targets@, s as int) && !p.ent(
            s as int,
        ).is_terminal() && !is_key(p, s as int),
{
    let ghost tg = targets@;
    let seeded = seed_entries(p, t, targets);
    let mut visited = seeded.0;
    let mut stack = seeded.1;
    proof {
        lemma_flagged_bound(visited@);
    }
    while stack.len() > 0
        invariant
            p.wf(),
            t.merged_from(p),
            tg == targets@,
            bfs_inv(p, tg, visited@, stack@, -1),
            forall|j: int| #[trigger] seed(p, tg, j) ==> visited@[j],
            flagged(visited@).len() <= p.n(),
        decreases p.n() - flagged(visited@).len(), stack@.len(),
    {
        let ghost v0 = visited@;
        if let Some(a) = step(p, t, Ghost(tg), &mut visited, &mut stack) {
            return Err(a);
        }
        proof {
            lemma_flagged_bound(visited@);
            assert(flagged(v0).subset_of(flagged(visited@)));
            lemma_len_subset(flagged(v0), flagged(visited@));
        }
    }
    proof {
        assert forall|j: int| 0 <= j < p.n() && visited@[j] implies #[trigger] done(p, visited@, j) by {}
        assert forall|s: int| 0 <= s < p.n() implies (visited@[s] <==> #[trigger] reachable(p, targets@, s)) by {
            if reachable(p, targets@, s) {
                let path = choose|path: Seq<int>| #[trigger] is_path(p, targets@, path) && path.last() == s;
                lemma_path_flagged(p, targets@, visited@, path);
            }
        }
        assert forall|s: int| #[trigger] reachable(p, targets@, s) && !p.ent(s).is_terminal() implies is_key(p, s) by {
            let path = choose|path: Seq<int>| #[trigger] is_path(p, targets@, path) && path.last() == s;
            lemma_path_flagged(p, targets@, visited@, path);
            assert(done(p, visited@, s));
        }
    }
    Ok(visited)
}

/// The extracted set is closed under dependency and definition edges.
pub proof fn lemma_closure(p: &Program, targets: Seq<Vec<u8>>, v: Seq<bool>, s: int, x: int)
    requires
        p.wf(),
        is_extraction(p, targets, v),
        0 <= s < p.n(),
        v[s],
        edge(p, s, x),
    ensures
        0 <= x < p.n(),
        v[x],
{
    lemma_edge_in_range(p, s, x);
    assert(reachable(p, targets, s));
    let path = choose|path: Seq<int>| #[trigger] is_path(p, targets, path) && path.last() == s;
    lemma_path_extend(p, targets, path, x);
    assert(reachable(p, targets, x));
}

/// Every extracted symbol ends a path that starts at an entry symbol.
pub proof fn lemma_extracted_has_path(p: &Program, targets: Seq<Vec<u8>>, v: Seq<bool>, s: int)
    requires
        is_extraction(p, targets, v),
        0 <= s < p.n(),
        v[s],
    ensures
        exists|path: Seq<int>| #[trigger] is_path(p, targets, path) && path.last() == s,
{
    assert(reachable(p, targets, s));
}

/// Two extractions over the same program and entry names flag the same symbols.
pub proof fn lemma_extraction_idempotent(
    p: &Program,
    targets: Seq<Vec<u8>>,
    v1: Seq<bool>,
    v2: Seq<bool>,
)
    requires
        is_extraction(p, targets, v1),
        is_extraction(p, targets, v2),
    ensures
        v1 == v2,
{
    assert forall|s: int| 0 <= s < v1.len() implies v1[s] == v2[s] by {
        assert(v1[s] <==> reachable(p, targets, s));
    }
    assert(v1 =~= v2);
}

/// An inclusion directive or macro expansion that an extracted symbol
/// depends on is extracted too, as a leaf: no edge leaves it, so nothing is
/// extracted through it.
pub proof fn lemma_leaf_dependency(p: &Program, targets: Seq<Vec<u8>>, v: Seq<bool>, s: int, i: int)
    requires
        p.wf(),
        is_extraction(p, targets, v),
        0 <= s < p.n(),
        v[s],
        edge(p, s, i),
        p.ent(i).is_terminal(),
    ensures
        0 <= i < p.n(),
        v[i],
        forall|x: int| !#[trigger] edge(p, i, x),
{
    lemma_closure(p, targets, v, s, i);
}

/// Two symbols agree in everything but their owning unit.
pub open spec fn same_but_unit(a: Entity, b: Entity) -> bool {
    &&& a.kind == b.kind
    &&& a.name == b.name
    &&& a.is_declaration == b.is_declaration
    &&& a.is_definition == b.is_definition
    &&& a.located == b.located
    &&& a.file == b.file
    &&& a.line == b.line
    &&& a.column == b.column
    &&& a.expansion_line == b.expansion_line
    &&& a.start_line == b.start_line
    &&& a.end_line == b.end_line
    &&& a.in_system_header == b.in_system_header
    &&& a.definition == b.definition
    &&& a.reference == b.reference
    &&& a.type_decl == b.type_decl
    &&& a.typedef_decl == b.typedef_decl
    &&& a.descendants@ == b.descendants@
    &&& a.include_target == b.include_target
}

/// `q` is `p` with its translation units taken in another order: the same
/// symbols and files, the same top-level symbols, and each symbol sharing its
/// unit with the same top-level symbols.
pub open spec fn reordered_units(p: &Program, q: &Program) -> bool {
    &&& p.n() == q.n()
    &&& p.files@ == q.files@
    &&& forall|i: int| 0 <= i < p.n() ==> same_but_unit(#[trigger] p.ent(i), q.ent(i))
    &&& forall|i: int| #[trigger] p.is_top(i) <==> q.is_top(i)
    &&& forall|i: int, x: int|
        0 <= i < p.n() ==> (#[trigger] p.top_in(p.ent(i).unit as int, x) <==> #[trigger] q.top_in(
            q.ent(i).unit as int,
            x,
        ))
}

proof fn lemma_reordered_key(p: &Program, q: &Program, y: int)
    requires
        p.wf(),
        q.wf(),
        reordered_units(p, q),
    ensures
        is_key(p, y) <==> is_key(q, y),
{
    assert(p.is_top(y) <==> q.is_top(y));
    if p.is_top(y) && 0 <= y < p.n() {
        assert(same_but_unit(p.ent(y), q.ent(y)));
    }
    if p.is_top(y) && !(0 <= y < p.n()) {
        let u = choose|u: int| p.top_in(u, y);
        let k = choose|k: int| 0 <= k < p.units@[u]@.len() && p.units@[u]@[k] == y as usize;
        assert(p.units@[u]@[k] < p.n());
    }
    if q.is_top(y) && !(0 <= y < q.n()) {
        let u = choose|u: int| q.top_in(u, y);
        let k = choose|k: int| 0 <= k < q.units@[u]@.len() && q.units@[u]@[k] == y as usize;
        assert(q.units@[u]@[k] < q.n());
    }
}

proof fn lemma_reordered_text(p: &Program, q: &Program, s: int, y: int)
    requires
        p.wf(),
        q.wf(),
        reordered_units(p, q),
        0 <= s < p.n(),
    ensures
        crate::graph::via_text(p, s, y) <==> crate::graph::via_text(q, s, y),
        crate::graph::via_text(p, s, y) ==> 0 <= y < p.n(),
{
    assert(p.top_in(p.ent(s).unit as int, y) <==> q.top_in(q.ent(s).unit as int, y));
    assert(same_but_unit(p.ent(s), q.ent(s)));
    if p.top_in(p.ent(s).unit as int, y) {
        let u = p.ent(s).unit as int;
        let k = choose|k: int| 0 <= k < p.units@[u]@.len() && p.units@[u]@[k] == y as usize;
        assert(p.units@[u]@[k] < p.n());
        assert(same_but_unit(p.ent(y), q.ent(y)));
    }
}

proof fn lemma_reordered_dep(p: &Program, q: &Program, s: int, x: int)
    requires
        p.wf(),
        q.wf(),
        reordered_units(p, q),
        0 <= s < p.n(),
    ensures
        dep_of(p, s, x) <==> dep_of(q, s, x),
        crate::graph::def_of(p, s, x) <==> crate::graph::def_of(q, s, x),
        analysed(p, s) <==> analysed(q, s),
{
    assert(same_but_unit(p.ent(s), q.ent(s)));
    lemma_reordered_key(p, q, s);
    lemma_reordered_key(p, q, x);
    assert forall|k: int| 0 <= k < p.ent(s).descendants@.len() implies (crate::graph::child_dep(
        p,
        #[trigger] p.ent(s).descendants@[k] as int,
        x,
    ) <==> crate::graph::child_dep(q, q.ent(s).descendants@[k] as int, x)) by {
        assert(p.ent(s).wf_in(p.n(), p.files@.len() as int, p.units@.len() as int));
        let c = p.ent(s).descendants@[k] as int;
        assert(q.ent(s).descendants@[k] as int == c);
        assert(same_but_unit(p.ent(c), q.ent(c)));
        assert(p.ent(c).wf_in(p.n(), p.files@.len() as int, p.units@.len() as int));
        if let Some(d) = p.ent(c).definition {
            assert(same_but_unit(p.ent(d as int), q.ent(d as int)));
        }
    }
    if crate::graph::via_child(p, s, x) {
        let k = choose|k: int|
            0 <= k < p.ent(s).descendants@.len() && crate::graph::child_dep(
                p,
                #[trigger] p.ent(s).descendants@[k] as int,
                x,
            );
        assert(crate::graph::child_dep(q, q.ent(s).descendants@[k] as int, x));
    }
    if crate::graph::via_child(q, s, x) {
        let k = choose|k: int|
            0 <= k < q.ent(s).descendants@.len() && crate::graph::child_dep(
                q,
                #[trigger] q.ent(s).descendants@[k] as int,
                x,
            );
        assert(crate::graph::child_dep(p, p.ent(s).descendants@[k] as int, x));
    }
    lemma_reordered_text(p, q, s, x);
    assert forall|inc: int| #[trigger] crate::graph::via_text(p, s, inc) <==> crate::graph::via_text(q, s, inc) by {
        lemma_reordered_text(p, q, s, inc);
    }
    if crate::graph::via_text(p, s, x) {
        assert(same_but_unit(p.ent(x), q.ent(x)));
    }
    if crate::graph::via_include(p, s, x) || crate::graph::via_include(q, s, x) {
        assert(in_index(p, p.ent(s).unit as int, x) <==> in_index(q, q.ent(s).unit as int, x));
        if in_index(p, p.ent(s).unit as int, x) {
            let u = p.ent(s).unit as int;
            let k = choose|k: int| 0 <= k < p.units@[u]@.len() && p.units@[u]@[k] == x as usize;
            assert(p.units@[u]@[k] < p.n());
            assert(same_but_unit(p.ent(x), q.ent(x)));
        }
        if crate::graph::via_include(p, s, x) {
            let inc = choose|inc: int|
                #[trigger] crate::graph::via_text(p, s, inc) && p.ent(inc).kind
                    == SymKind::InclusionDirective && has_sub(
                    p.files@[p.ent(x).file as int]@,
                    p.ent(inc).name.unwrap()@,
                );
            lemma_reordered_text(p, q, s, inc);
            assert(same_but_unit(p.ent(inc), q.ent(inc)));
        }
        if crate::graph::via_include(q, s, x) {
            let inc = choose|inc: int|
                #[trigger] crate::graph::via_text(q, s, inc) && q.ent(inc).kind
                    == SymKind::InclusionDirective && has_sub(
                    q.files@[q.ent(x).file as int]@,
                    q.ent(inc).name.unwrap()@,
                );
            lemma_reordered_text(p, q, s, inc);
            assert(same_but_unit(p.ent(inc), q.ent(inc)));
        }
    }
}

/// Taking the translation units in another order changes neither the
/// dependencies nor the merged definitions of any symbol, so a forward
/// declaration and its out-of-line definition converge to the same
/// definitions whichever unit is analysed first.
pub proof fn lemma_unit_order_irrelevant(p: &Program, q: &Program, a: int, x: int)
    requires
        p.wf(),
        q.wf(),
        reordered_units(p, q),
        0 <= a < p.n(),
    ensures
        (analysed(p, a) && dep_of(p, a, x)) <==> (analysed(q, a) && dep_of(q, a, x)),
        merged_def(p, a, x) <==> merged_def(q, a, x),
        edge(p, a, x) <==> edge(q, a, x),
{
    lemma_reordered_dep(p, q, a, x);
    assert(same_but_unit(p.ent(a), q.ent(a)));
    lemma_reordered_key(p, q, a);
    if merged_def(p, a, x) && !crate::merge::pre_def(p, a, x) {
        let t = choose|t: int|
            0 <= t < p.n() && crate::merge::decl_key(p, t) && crate::merge::same_loc(p, a, t)
                && #[trigger] crate::merge::pre_def(p, t, x);
        lemma_reordered_dep(p, q, t, x);
        lemma_reordered_key(p, q, t);
        assert(same_but_unit(p.ent(t), q.ent(t)));
        assert(crate::merge::pre_def(q, t, x));
    }
    if merged_def(q, a, x) && !crate::merge::pre_def(q, a, x) {
        let t = choose|t: int|
            0 <= t < q.n() && crate::merge::decl_key(q, t) && crate::merge::same_loc(q, a, t)
                && #[trigger] crate::merge::pre_def(q, t, x);
        lemma_reordered_dep(p, q, t, x);
        lemma_reordered_key(p, q, t);
        assert(same_but_unit(p.ent(t), q.ent(t)));
        assert(crate::merge::pre_def(p, t, x));
    }
}

proof fn lemma_reordered_path(p: &Program, q: &Program, targets: Seq<Vec<u8>>, path: Seq<int>)
    requires
        p.wf(),
        q.wf(),
        reordered_units(p, q),
        is_path(p, targets, path),
    ensures
        is_path(q, targets, path),
        0 <= path.last() < p.n(),
    decreases path.len(),
{
    if path.len() == 1 {
        lemma_reordered_key(p, q, path[0]);
        assert(same_but_unit(p.ent(path[0]), q.ent(path[0])));
        assert(seed(q, targets, path[0]));
    } else {
        let r = path.drop_last();
        assert forall|i: int| 0 <= i < r.len() - 1 implies #[trigger] edge(p, r[i], r[i + 1]) by {
            assert(edge(p, path[i], path[i + 1]));
        }
        lemma_reordered_path(p, q, targets, r);
        let i = path.len() - 2;
        assert(edge(p, path[i], path[i + 1]));
        assert(path[i] == r.last());
        lemma_unit_order_irrelevant(p, q, path[i], path[i + 1]);
        lemma_edge_in_range(p, path[i], path[i + 1]);
        assert forall|j: int| 0 <= j < path.len() - 1 implies #[trigger] edge(q, path[j], path[j + 1]) by {
            if j < i {
                assert(edge(q, r[j], r[j + 1]));
            }
        }
    }
}

/// Taking the translation units in another order extracts the same symbols.
pub proof fn lemma_unit_order_same_extraction(
    p: &Program,
    q: &Program,
    targets: Seq<Vec<u8>>,
    v: Seq<bool>,
)
    requires
        p.wf(),
        q.wf(),
        reordered_units(p, q),
    ensures
        is_extraction(p, targets, v) <==> is_extraction(q, targets, v),
{
    assert(reordered_units(q, p)) by {
        assert forall|i: int| 0 <= i < q.n() implies same_but_unit(#[trigger] q.ent(i), p.ent(i)) by {
            assert(same_but_unit(p.ent(i), q.ent(i)));
        }
        assert forall|i: int, x: int|
            0 <= i < q.n() implies (#[trigger] q.top_in(q.ent(i).unit as int, x) <==> #[trigger] p.top_in(
                p.ent(i).unit as int,
                x,
            )) by {
            assert(p.top_in(p.ent(i).unit as int, x) <==> q.top_in(q.ent(i).unit as int, x));
        }
    }
    assert forall|s: int| 0 <= s < p.n() implies (#[trigger] reachable(p, targets, s) <==> reachable(q, targets, s)) by {
        if reachable(p, targets, s) {
            let path = choose|path: Seq<int>| #[trigger] is_path(p, targets, path) && path.last() == s;
            lemma_reordered_path(p, q, targets, path);
        }
        if reachable(q, targets, s) {
            let path = choose|path: Seq<int>| #[trigger] is_path(q, targets, path) && path.last() == s;
            lemma_reordered_path(q, p, targets, path);
        }
    }
    if is_extraction(p, targets, v) {
        assert forall|s: int| 0 <= s < q.n() implies (v[s] <==> #[trigger] reachable(q, targets, s)) by {
            assert(reachable(p, targets, s) <==> reachable(q, targets, s));
        }
    }
    if is_extraction(q, targets, v) {
        assert forall|s: int| 0 <= s < p.n() implies (v[s] <==> #[trigger] reachable(p, targets, s)) by {
            assert(reachable(p, targets, s) <==> reachable(q, targets, s));
        }
    }
}

proof fn lemma_path_in_range(p: &Program, targets: Seq<Vec<u8>>, path: Seq<int>)
    requires
        p.wf(),
        is_path(p, targets, path),
    ensures
        0 <= path.last() < p.n(),
    decreases path.len(),
{
    if path.len() > 1 {
        let r = path.drop_last();
        assert forall|i: int| 0 <= i < r.len() - 1 implies #[trigger] edge(p, r[i], r[i + 1]) by {
            assert(edge(p, path[i], path[i + 1]));
        }
        lemma_path_in_range(p, targets, r);
        let i = path.len() - 2;
        assert(edge(p, path[i], path[i + 1]));
        assert(path[i] == r.last());
        lemma_edge_in_range(p, path[i], path[i + 1]);
    }
}

/// A symbol that is no entry symbol, and whose every user (a symbol with an
/// edge to it) is left out, is left out too: a macro expanded only inside an
/// unreachable function is not extracted.
pub proof fn lemma_unused_not_extracted(p: &Program, targets: Seq<Vec<u8>>, v: Seq<bool>, m: int)
    requires
        p.wf(),
        is_extraction(p, targets, v),
        0 <= m < p.n(),
        !seed(p, targets, m),
        forall|s: int| 0 <= s < p.n() && #[trigger] edge(p, s, m) ==> !v[s],
    ensures
        !v[m],
{
    if v[m] {
        assert(reachable(p, targets, m));
        let path = choose|path: Seq<int>| #[trigger] is_path(p, targets, path) && path.last() == m;
        assert(path.len() > 1);
        let r = path.drop_last();
        assert forall|i: int| 0 <= i < r.len() - 1 implies #[trigger] edge(p, r[i], r[i + 1]) by {
            assert(edge(p, path[i], path[i + 1]));
        }
        assert(is_path(p, targets, r));
        lemma_path_in_range(p, targets, r);
        let i = path.len() - 2;
        assert(edge(p, path[i], path[i + 1]));
        assert(path[i] == r.last());
        assert(reachable(p, targets, r.last()));
        assert(v[r.last()]);
    }
}

} // verus!
