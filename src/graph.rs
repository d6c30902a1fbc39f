//! Building the global symbol table: discovery of top-level symbols, the
//! per-unit macro index, and the dependencies of each symbol.
use vstd::prelude::*;
use crate::model::{Program, SymKind};
use crate::sets::{
    contains_bytes, has_sub, in_prefix, insert_all, insert_unique, lemma_prefix_full,
    lemma_prefix_step,
};

verus! {

/// The descriptor of one symbol: what it refers to, and what defines it.
#[derive(Debug)]
pub struct SymbolDesc {
    pub deps: Vec<usize>,
    pub definitions: Vec<usize>,
}

/// `i` is a key of the global symbol table.
pub open spec fn is_key(p: &Program, i: int) -> bool {
    p.is_top(i) && p.ent(i).is_decl()
}

/// `i` is recorded in the macro index of unit `u`.
pub open spec fn in_index(p: &Program, u: int, i: int) -> bool {
    p.top_in(u, i) && p.ent(i).is_macro_entity() && !p.ent(i).in_system_header
}

/// What a descendant `c` of a symbol contributes to its dependencies.
pub open spec fn child_dep(p: &Program, c: int, x: int) -> bool {
    ||| (p.ent(c).reference == Some(x as usize) && is_key(p, x))
    ||| match p.ent(c).definition {
        Some(d) => {
            ||| (x == d && is_key(p, x))
            ||| (p.ent(d as int).type_decl == Some(x as usize) && is_key(p, x))
            ||| (p.ent(d as int).typedef_decl == Some(x as usize) && is_key(p, x))
        },
        None => false,
    }
}

pub open spec fn via_child(p: &Program, s: int, x: int) -> bool {
    exists|k: int|
        0 <= k < p.ent(s).descendants@.len() && child_dep(
            p,
            #[trigger] p.ent(s).descendants@[k] as int,
            x,
        )
}

/// Index entry `e` is expanded within the line range of `s`, in the same file.
pub open spec fn in_lines(p: &Program, s: int, e: int) -> bool {
    &&& p.ent(e).file == p.ent(s).file
    &&& p.ent(s).start_line <= p.ent(e).expansion_line <= p.ent(s).end_line
}

/// A macro expansion or inclusion directive used textually inside `s`.
pub open spec fn via_text(p: &Program, s: int, x: int) -> bool {
    in_index(p, p.ent(s).unit as int, x) && in_lines(p, s, x) && p.ent(x).is_terminal()
}

/// An indexed macro entity in a file whose path holds the target name of
/// an inclusion directive used inside `s`.
pub open spec fn via_include(p: &Program, s: int, x: int) -> bool {
    &&& in_index(p, p.ent(s).unit as int, x)
    &&& exists|inc: int|
        #[trigger] via_text(p, s, inc) && p.ent(inc).kind == SymKind::InclusionDirective
            && has_sub(p.files@[p.ent(x).file as int]@, p.ent(inc).name.unwrap()@)
}

/// The dependency relation of the symbol table, given its keys.
pub open spec fn dep_of(p: &Program, s: int, x: int) -> bool {
    p.ent(s).located && (via_child(p, s, x) || via_text(p, s, x) || via_include(p, s, x))
}

/// The definitions a symbol records before merging.
pub open spec fn def_of(p: &Program, s: int, x: int) -> bool {
    p.ent(s).located && match p.ent(s).definition {
        Some(d) => d as int == x,
        None => false,
    }
}

/// The keys of the symbol table, one flag per symbol.
pub fn table_keys(p: &Program) -> (keys: Vec<bool>)
    requires
        p.wf(),
    ensures
        keys@.len() == p.n(),
        forall|i: int| 0 <= i < p.n() ==> (keys@[i] <==> is_key(p, i)),
{
    let n = p.entities.len();
    let mut keys: Vec<bool> = Vec::new();
    let mut i: usize = 0;
    while i < n
        invariant
            n == p.n(),
            0 <= i <= n,
            keys@.len() == i,
            forall|j: int| 0 <= j < i ==> !keys@[j],
        decreases n - i,
    {
        keys.push(false);
        i = i + 1;
    }
    let mut u: usize = 0;
    while u < p.units.len()
        invariant
            p.wf(),
            n == p.n(),
            0 <= u <= p.units@.len(),
            keys@.len() == n,
            forall|j: int|
                0 <= j < n ==> (keys@[j] <==> (p.ent(j).is_decl() && exists|v: int|
                    0 <= v < u && #[trigger] p.top_in(v, j))),
        decreases p.units@.len() - u,
    {
        let top = &p.units[u];
        let mut k: usize = 0;
        while k < top.len()
            invariant
                p.wf(),
                n == p.n(),
                0 <= u < p.units@.len(),
                top == &p.units@[u as int],
                0 <= k <= top@.len(),
                keys@.len() == n,
                forall|j: int|
                    0 <= j < n ==> (keys@[j] <==> (p.ent(j).is_decl() && ((exists|v: int|
                        0 <= v < u && #[trigger] p.top_in(v, j)) || exists|m: int|
                        0 <= m < k && top@[m] == j))),
            decreases top@.len() - k,
        {
            let i = top[k];
            assert(p.units@[u as int]@[k as int] == i);
            let e = &p.entities[i];
            if e.is_declaration || e.is_definition {
                keys.set(i, true);
            }
            proof {
                assert forall|j: int|
                    0 <= j < n implies (keys@[j] <==> (p.ent(j).is_decl() && ((exists|v: int|
                        0 <= v < u && #[trigger] p.top_in(v, j)) || exists|m: int|
                        0 <= m < k + 1 && top@[m] == j))) by {
                    if j == i {
                        assert(0 <= k < k + 1 && top@[k as int] == j);
                    }
                    if exists|m: int| 0 <= m < k + 1 && top@[m] == j {
                        let m = choose|m: int| 0 <= m < k + 1 && top@[m] == j;
                        if m < k {
                            assert(0 <= m < k && top@[m] == j);
                        }
                    }
                }
            }
            k = k + 1;
        }
        proof {
            assert forall|j: int|
                0 <= j < n implies (keys@[j] <==> (p.ent(j).is_decl() && exists|v: int|
                    0 <= v < u + 1 && #[trigger] p.top_in(v, j))) by {
                if exists|m: int| 0 <= m < top@.len() && top@[m] == j {
                    let m = choose|m: int| 0 <= m < top@.len() && top@[m] == j;
                    assert(top@.contains(j as usize));
                    assert(p.top_in(u as int, j));
                }
                if exists|v: int| 0 <= v < u + 1 && #[trigger] p.top_in(v, j) {
                    let v = choose|v: int| 0 <= v < u + 1 && #[trigger] p.top_in(v, j);
                    if v == u {
                        assert(top@.contains(j as usize));
                        let m = choose|m: int| 0 <= m < top@.len() && top@[m] == j as usize;
                        assert(0 <= m < top@.len() && top@[m] == j);
                    }
                }
            }
        }
        u = u + 1;
    }
    keys
}


/// Which symbols are top-level in some unit, one flag per symbol.
pub fn top_flags(p: &Program) -> (keys: Vec<bool>)
    requires
        p.wf(),
    ensures
        keys@.len() == p.n(),
        forall|i: int| 0 <= i < p.n() ==> (keys@[i] <==> p.is_top(i)),
{
    let n = p.entities.len();
    let mut keys: Vec<bool> = Vec::new();
    let mut i: usize = 0;
    while i < n
        invariant
            n == p.n(),
            0 <= i <= n,
            keys@.len() == i,
            forall|j: int| 0 <= j < i ==> !keys@[j],
        decreases n - i,
    {
        keys.push(false);
        i = i + 1;
    }
    let mut u: usize = 0;
    while u < p.units.len()
        invariant
            p.wf(),
            n == p.n(),
            0 <= u <= p.units@.len(),
            keys@.len() == n,
            forall|j: int|
                0 <= j < n ==> (keys@[j] <==> (exists|v: int|
                    0 <= v < u && #[trigger] p.top_in(v, j))),
        decreases p.units@.len() - u,
    {
        let top = &p.units[u];
        let mut k: usize = 0;
        while k < top.len()
            invariant
                p.wf(),
                n == p.n(),
                0 <= u < p.units@.len(),
                top == &p.units@[u as int],
                0 <= k <= top@.len(),
                keys@.len() == n,
                forall|j: int|
                    0 <= j < n ==> (keys@[j] <==> (((exists|v: int|
                        0 <= v < u && #[trigger] p.top_in(v, j)) || exists|m: int|
                        0 <= m < k && top@[m] == j))),
            decreases top@.len() - k,
        {
            let i = top[k];
            assert(p.units@[u as int]@[k as int] == i);
            keys.set(i, true);
            proof {
                assert forall|j: int|
                    0 <= j < n implies (keys@[j] <==> (((exists|v: int|
                        0 <= v < u && #[trigger] p.top_in(v, j)) || exists|m: int|
                        0 <= m < k + 1 && top@[m] == j))) by {
                    if j == i {
                        assert(0 <= k < k + 1 && top@[k as int] == j);
                    }
                    if exists|m: int| 0 <= m < k + 1 && top@[m] == j {
                        let m = choose|m: int| 0 <= m < k + 1 && top@[m] == j;
                        if m < k {
                            assert(0 <= m < k && top@[m] == j);
                        }
                    }
                }
            }
            k = k + 1;
        }
        proof {
            assert forall|j: int|
                0 <= j < n implies (keys@[j] <==> (exists|v: int|
                    0 <= v < u + 1 && #[trigger] p.top_in(v, j))) by {
                if exists|m: int| 0 <= m < top@.len() && top@[m] == j {
                    let m = choose|m: int| 0 <= m < top@.len() && top@[m] == j;
                    assert(top@.contains(j as usize));
                    assert(p.top_in(u as int, j));
                }
                if exists|v: int| 0 <= v < u + 1 && #[trigger] p.top_in(v, j) {
                    let v = choose|v: int| 0 <= v < u + 1 && #[trigger] p.top_in(v, j);
                    if v == u {
                        assert(top@.contains(j as usize));
                        let m = choose|m: int| 0 <= m < top@.len() && top@[m] == j as usize;
                        assert(0 <= m < top@.len() && top@[m] == j);
                    }
                }
            }
        }
        u = u + 1;
    }
    keys
}


/// The macro index of unit `u`: its top-level macro definitions, macro
/// expansions and inclusion directives that are not in a system header.
pub fn macro_index(p: &Program, u: usize) -> (index: Vec<usize>)
    requires
        p.wf(),
        u < p.units@.len(),
    ensures
        forall|e: usize| index@.contains(e) <==> in_index(p, u as int, e as int),
{
    let top = &p.units[u];
    let mut index: Vec<usize> = Vec::new();
    let mut k: usize = 0;
    while k < top.len()
        invariant
            p.wf(),
            u < p.units@.len(),
            top == &p.units@[u as int],
            0 <= k <= top@.len(),
            forall|e: usize|
                index@.contains(e) <==> (exists|m: int| 0 <= m < k && top@[m] == e) && (
                p.ent(e as int).is_macro_entity() && !p.ent(e as int).in_system_header),
        decreases top@.len() - k,
    {
        let i = top[k];
        assert(p.units@[u as int]@[k as int] == i);
        let e = &p.entities[i];
        let is_macro = match e.kind {
            SymKind::MacroDefinition | SymKind::MacroExpansion | SymKind::InclusionDirective => true,
            _ => false,
        };
        if is_macro && !e.in_system_header {
            insert_unique(&mut index, i);
        }
        proof {
            assert forall|f: usize|
                index@.contains(f) <==> (exists|m: int| 0 <= m < k + 1 && top@[m] == f) && (
                p.ent(f as int).is_macro_entity() && !p.ent(f as int).in_system_header) by {
                if f == i {
                    assert(0 <= k < k + 1 && top@[k as int] == f);
                }
                if exists|m: int| 0 <= m < k + 1 && top@[m] == f {
                    let m = choose|m: int| 0 <= m < k + 1 && top@[m] == f;
                    if m < k {
                        assert(0 <= m < k && top@[m] == f);
                    }
                }
            }
        }
        k = k + 1;
    }
    proof {
        assert forall|f: usize| index@.contains(f) <==> in_index(p, u as int, f as int) by {
            if top@.contains(f) {
                let m = choose|m: int| 0 <= m < top@.len() && top@[m] == f;
                assert(0 <= m < k && top@[m] == f);
            }
        }
    }
    index
}

/// The dependencies that the subtree of `s` gives it.
fn child_deps(p: &Program, keys: &Vec<bool>, s: usize) -> (deps: Vec<usize>)
    requires
        p.wf(),
        s < p.n(),
        keys@.len() == p.n(),
        forall|i: int| 0 <= i < p.n() ==> (keys@[i] <==> is_key(p, i)),
    ensures
        forall|x: usize| deps@.contains(x) <==> via_child(p, s as int, x as int),
{
    let desc = &p.entities[s].descendants;
    let mut deps: Vec<usize> = Vec::new();
    let mut k: usize = 0;
    while k < desc.len()
        invariant
            p.wf(),
            s < p.n(),
            keys@.len() == p.n(),
            forall|i: int| 0 <= i < p.n() ==> (keys@[i] <==> is_key(p, i)),
            desc == &p.ent(s as int).descendants,
            0 <= k <= desc@.len(),
            forall|x: usize|
                deps@.contains(x) <==> exists|m: int|
                    0 <= m < k && child_dep(p, #[trigger] desc@[m] as int, x as int),
        decreases desc@.len() - k,
    {
        let c = desc[k];
        assert(p.ent(s as int).wf_in(p.n(), p.files@.len() as int, p.units@.len() as int));
        let ghost before = deps@;
        assert(p.ent(c as int).wf_in(p.n(), p.files@.len() as int, p.units@.len() as int));
        if let Some(r) = p.entities[c].reference {
            if keys[r] {
                insert_unique(&mut deps, r);
            }
        }
        match p.entities[c].definition {
            Some(d) => {
                assert(p.ent(c as int).wf_in(p.n(), p.files@.len() as int, p.units@.len() as int));
                if keys[d] {
                    insert_unique(&mut deps, d);
                }
                let de = &p.entities[d];
                assert(p.ent(d as int).wf_in(p.n(), p.files@.len() as int, p.units@.len() as int));
                if let Some(t) = de.type_decl {
                    if keys[t] {
                        insert_unique(&mut deps, t);
                    }
                }
                if let Some(t) = de.typedef_decl {
                    if keys[t] {
                        insert_unique(&mut deps, t);
                    }
                }
            },
            None => {},
        }
        proof {
            assert forall|x: usize|
                deps@.contains(x) <==> before.contains(x) || child_dep(p, c as int, x as int) by {}
            assert forall|x: usize|
                deps@.contains(x) <==> exists|m: int|
                    0 <= m < k + 1 && child_dep(p, #[trigger] desc@[m] as int, x as int) by {
                if child_dep(p, c as int, x as int) {
                    assert(0 <= k < k + 1 && child_dep(p, desc@[k as int] as int, x as int));
                }
                if exists|m: int|
                    0 <= m < k + 1 && child_dep(p, #[trigger] desc@[m] as int, x as int) {
                    let m = choose|m: int|
                        0 <= m < k + 1 && child_dep(p, #[trigger] desc@[m] as int, x as int);
                    if m < k {
                        assert(0 <= m < k && child_dep(p, desc@[m] as int, x as int));
                    }
                }
            }
        }
        k = k + 1;
    }
    deps
}

/// The indexed macro expansions and inclusion directives inside the lines
/// of `s`, and among them the inclusion directives.
fn text_deps(p: &Program, index: &Vec<usize>, s: usize) -> (r: (Vec<usize>, Vec<usize>))
    requires
        p.wf(),
        s < p.n(),
        forall|e: usize| index@.contains(e) <==> in_index(p, p.ent(s as int).unit as int, e as int),
    ensures
        forall|x: usize| r.0@.contains(x) <==> via_text(p, s as int, x as int),
        forall|x: usize|
            #[trigger] r.1@.contains(x) <==> (via_text(p, s as int, x as int) && p.ent(
                x as int,
            ).kind == SymKind::InclusionDirective),
{
    let se = &p.entities[s];
    let mut texts: Vec<usize> = Vec::new();
    let mut incs: Vec<usize> = Vec::new();
    let mut j: usize = 0;
    while j < index.len()
        invariant
            p.wf(),
            s < p.n(),
            se == &p.ent(s as int),
            forall|e: usize| index@.contains(e) <==> in_index(p, se.unit as int, e as int),
            0 <= j <= index@.len(),
            forall|x: usize|
                texts@.contains(x) <==> in_prefix(index@, j as int, x) && in_lines(
                    p,
                    s as int,
                    x as int,
                ) && p.ent(x as int).is_terminal(),
            forall|x: usize|
                incs@.contains(x) <==> in_prefix(index@, j as int, x) && in_lines(
                    p,
                    s as int,
                    x as int,
                ) && p.ent(x as int).kind == SymKind::InclusionDirective,
        decreases index@.len() - j,
    {
        let e = index[j];
        assert(index@.contains(e));
        let ee = &p.entities[e];
        if ee.file == se.file && se.start_line <= ee.expansion_line && ee.expansion_line
            <= se.end_line {
            match ee.kind {
                SymKind::MacroExpansion => {
                    insert_unique(&mut texts, e);
                },
                SymKind::InclusionDirective => {
                    insert_unique(&mut texts, e);
                    insert_unique(&mut incs, e);
                },
                _ => {},
            }
        }
        proof {
            lemma_prefix_step(index@, j as int);
        }
        j = j + 1;
    }
    proof {
        lemma_prefix_full(index@);
    }
    (texts, incs)
}

/// Whether the file of `x` has the target name of one of `incs` in its path.
fn named_by_any(p: &Program, incs: &Vec<usize>, x: usize) -> (r: bool)
    requires
        p.wf(),
        x < p.n(),
        p.ent(x as int).located,
        forall|m: int|
            0 <= m < incs@.len() ==> incs@[m] < p.n() && p.ent(incs@[m] as int).kind
                == SymKind::InclusionDirective,
    ensures
        r == exists|m: int|
            0 <= m < incs@.len() && has_sub(
                p.files@[p.ent(x as int).file as int]@,
                p.ent(#[trigger] incs@[m] as int).name.unwrap()@,
            ),
{
    assert(p.ent(x as int).wf_in(p.n(), p.files@.len() as int, p.units@.len() as int));
    let path = &p.files[p.entities[x].file];
    let mut m: usize = 0;
    while m < incs.len()
        invariant
            p.wf(),
            x < p.n(),
            path == &p.files@[p.ent(x as int).file as int],
            forall|q: int|
                0 <= q < incs@.len() ==> incs@[q] < p.n() && p.ent(incs@[q] as int).kind
                    == SymKind::InclusionDirective,
            0 <= m <= incs@.len(),
            forall|q: int|
                0 <= q < m ==> !has_sub(path@, p.ent(#[trigger] incs@[q] as int).name.unwrap()@),
        decreases incs@.len() - m,
    {
        let i = incs[m];
        assert(p.ent(i as int).wf_in(p.n(), p.files@.len() as int, p.units@.len() as int));
        match &p.entities[i].name {
            Some(name) => {
                if contains_bytes(path, name) {
                    return true;
                }
            },
            None => {},
        }
        m = m + 1;
    }
    false
}

/// The indexed macro entities in files that an inclusion directive inside
/// `s` names.
fn include_deps(p: &Program, index: &Vec<usize>, incs: &Vec<usize>, s: usize) -> (deps: Vec<usize>)
    requires
        p.wf(),
        s < p.n(),
        forall|e: usize| index@.contains(e) <==> in_index(p, p.ent(s as int).unit as int, e as int),
        forall|x: usize|
            #[trigger] incs@.contains(x) <==> (via_text(p, s as int, x as int) && p.ent(
                x as int,
            ).kind == SymKind::InclusionDirective),
    ensures
        forall|x: usize| deps@.contains(x) <==> via_include(p, s as int, x as int),
{
    assert forall|m: int|
        0 <= m < incs@.len() implies incs@[m] < p.n() && p.ent(incs@[m] as int).kind
            == SymKind::InclusionDirective by {
        assert(incs@.contains(incs@[m]));
    }
    let mut deps: Vec<usize> = Vec::new();
    let mut j: usize = 0;
    while j < index.len()
        invariant
            p.wf(),
            s < p.n(),
            forall|e: usize| index@.contains(e) <==> in_index(p, p.ent(s as int).unit as int, e as int),
            forall|m: int|
                0 <= m < incs@.len() ==> incs@[m] < p.n() && p.ent(incs@[m] as int).kind
                    == SymKind::InclusionDirective,
            0 <= j <= index@.len(),
            forall|x: usize|
                deps@.contains(x) <==> in_prefix(index@, j as int, x)
                    && in_index(p, p.ent(s as int).unit as int, x as int)
                    && exists|m: int|
                    0 <= m < incs@.len() && has_sub(
                        p.files@[p.ent(x as int).file as int]@,
                        p.ent(#[trigger] incs@[m] as int).name.unwrap()@,
                    ),
        decreases index@.len() - j,
    {
        let e = index[j];
        assert(index@.contains(e));
        assert(p.top_in(p.ent(s as int).unit as int, e as int));
        let ghost u = p.ent(s as int).unit as int;
        assert(p.units@[u]@.contains(e));
        let ghost m = choose|m: int| 0 <= m < p.units@[u]@.len() && p.units@[u]@[m] == e;
        assert(p.units@[u]@[m] < p.n());
        assert(p.ent(e as int).wf_in(p.n(), p.files@.len() as int, p.units@.len() as int));
        if named_by_any(p, incs, e) {
            insert_unique(&mut deps, e);
        }
        proof {
            lemma_prefix_step(index@, j as int);
        }
        j = j + 1;
    }
    proof {
        lemma_prefix_full(index@);
        assert forall|x: usize| deps@.contains(x) <==> via_include(p, s as int, x as int) by {
            if via_include(p, s as int, x as int) {
                let inc = choose|inc: int|
                    #[trigger] via_text(p, s as int, inc) && p.ent(inc).kind
                        == SymKind::InclusionDirective && has_sub(
                        p.files@[p.ent(x as int).file as int]@,
                        p.ent(inc).name.unwrap()@,
                    );
                assert(in_index(p, p.ent(s as int).unit as int, inc));
                assert(p.top_in(p.ent(s as int).unit as int, inc));
                assert(incs@.contains(inc as usize));
                let q = choose|q: int| 0 <= q < incs@.len() && incs@[q] == inc as usize;
                assert(0 <= q < incs@.len() && has_sub(
                    p.files@[p.ent(x as int).file as int]@,
                    p.ent(incs@[q] as int).name.unwrap()@,
                ));
            }
            if exists|m: int|
                0 <= m < incs@.len() && has_sub(
                    p.files@[p.ent(x as int).file as int]@,
                    p.ent(#[trigger] incs@[m] as int).name.unwrap()@,
                ) {
                let q = choose|m: int|
                    0 <= m < incs@.len() && has_sub(
                        p.files@[p.ent(x as int).file as int]@,
                        p.ent(#[trigger] incs@[m] as int).name.unwrap()@,
                    );
                assert(incs@.contains(incs@[q]));
                assert(via_text(p, s as int, incs@[q] as int));
            }
        }
    }
    deps
}

/// The descriptor that dependency analysis gives symbol `s` of a unit whose
/// macro index is `index`.
pub fn visit(p: &Program, keys: &Vec<bool>, index: &Vec<usize>, s: usize) -> (desc: SymbolDesc)
    requires
        p.wf(),
        s < p.n(),
        keys@.len() == p.n(),
        forall|i: int| 0 <= i < p.n() ==> (keys@[i] <==> is_key(p, i)),
        forall|e: usize| index@.contains(e) <==> in_index(p, p.ent(s as int).unit as int, e as int),
    ensures
        desc_ok(p, desc, s as int),
{
    let e = &p.entities[s];
    let mut deps: Vec<usize> = Vec::new();
    let mut definitions: Vec<usize> = Vec::new();
    if !e.located {
        return SymbolDesc { deps, definitions };
    }
    if let Some(d) = e.definition {
        definitions.push(d);
    }
    let cd = child_deps(p, keys, s);
    let tx = text_deps(p, index, s);
    let texts = tx.0;
    let incs = tx.1;
    let id = include_deps(p, index, &incs, s);
    insert_all(&mut deps, &cd);
    insert_all(&mut deps, &texts);
    insert_all(&mut deps, &id);
    proof {
        assert forall|x: usize| #[trigger] deps@.contains(x) <==> dep_of(p, s as int, x as int) by {
            assert(deps@.contains(x) <==> (cd@.contains(x) || texts@.contains(x) || id@.contains(x)));
        }
        assert forall|x: usize| definitions@.contains(x) <==> def_of(p, s as int, x as int) by {
            if definitions@.contains(x) {
                assert(definitions@[0] == x);
            }
            if def_of(p, s as int, x as int) {
                assert(definitions@[0] == x);
            }
        }
    }
    SymbolDesc { deps, definitions }
}

/// `d` holds exactly what dependency analysis gives symbol `s`.
pub open spec fn desc_ok(p: &Program, d: SymbolDesc, s: int) -> bool {
    &&& forall|x: usize| #[trigger] d.deps@.contains(x) <==> dep_of(p, s, x as int)
    &&& forall|x: usize| #[trigger] d.definitions@.contains(x) <==> def_of(p, s, x as int)
}

pub open spec fn desc_empty(d: SymbolDesc) -> bool {
    d.deps@.len() == 0 && d.definitions@.len() == 0
}

/// `d` is the analysed descriptor of `s` when `filled`, and empty otherwise.
pub open spec fn entry_ok(p: &Program, d: SymbolDesc, s: int, filled: bool) -> bool {
    if filled {
        desc_ok(p, d, s)
    } else {
        desc_empty(d)
    }
}

/// Symbol `i` is a key that dependency analysis fills.
pub open spec fn analysed(p: &Program, i: int) -> bool {
    is_key(p, i) && !p.ent(i).in_system_header
}

/// The global symbol table: a key flag and a descriptor for every symbol of
/// the arena (the descriptor of a symbol that is no key stays empty).
pub struct SymbolTable {
    pub keys: Vec<bool>,
    pub descs: Vec<SymbolDesc>,
}

impl SymbolTable {
    pub open spec fn shaped(&self, p: &Program) -> bool {
        &&& self.keys@.len() == p.n()
        &&& self.descs@.len() == p.n()
        &&& forall|i: int| 0 <= i < p.n() ==> (self.keys@[i] <==> is_key(p, i))
    }

    /// The table as dependency analysis leaves it, before merging.
    pub open spec fn analysed_from(&self, p: &Program) -> bool {
        &&& self.shaped(p)
        &&& forall|i: int|
            0 <= i < p.n() ==> entry_ok(p, #[trigger] self.descs@[i], i, analysed(p, i))
    }
}

/// Discovers the keys and fills every descriptor by dependency analysis,
/// one translation unit at a time.
pub fn build_table(p: &Program) -> (t: SymbolTable)
    requires
        p.wf(),
    ensures
        t.analysed_from(p),
{
    let keys = table_keys(p);
    let n = p.entities.len();
    let mut descs: Vec<SymbolDesc> = Vec::new();
    let mut i: usize = 0;
    while i < n
        invariant
            n == p.n(),
            0 <= i <= n,
            descs@.len() == i,
            forall|j: int| 0 <= j < i ==> desc_empty(#[trigger] descs@[j]),
        decreases n - i,
    {
        descs.push(SymbolDesc { deps: Vec::new(), definitions: Vec::new() });
        i = i + 1;
    }
    let mut u: usize = 0;
    while u < p.units.len()
        invariant
            p.wf(),
            n == p.n(),
            keys@.len() == n,
            forall|i: int| 0 <= i < p.n() ==> (keys@[i] <==> is_key(p, i)),
            0 <= u <= p.units@.len(),
            descs@.len() == n,
            forall|j: int|
                0 <= j < n ==> entry_ok(
                    p,
                    #[trigger] descs@[j],
                    j,
                    analysed(p, j) && p.ent(j).unit < u,
                ),
        decreases p.units@.len() - u,
    {
        let index = macro_index(p, u);
        let top = &p.units[u];
        let mut k: usize = 0;
        while k < top.len()
            invariant
                p.wf(),
                n == p.n(),
                keys@.len() == n,
                forall|i: int| 0 <= i < p.n() ==> (keys@[i] <==> is_key(p, i)),
                0 <= u < p.units@.len(),
                top == &p.units@[u as int],
                forall|e: usize| index@.contains(e) <==> in_index(p, u as int, e as int),
                0 <= k <= top@.len(),
                descs@.len() == n,
                forall|j: int|
                    0 <= j < n ==> entry_ok(
                        p,
                        #[trigger] descs@[j],
                        j,
                        analysed(p, j) && (p.ent(j).unit < u || (p.ent(j).unit == u && in_prefix(
                            top@,
                            k as int,
                            j as usize,
                        ))),
                    ),
            decreases top@.len() - k,
        {
            let i = top[k];
            assert(p.units@[u as int]@[k as int] == i);
            assert(p.top_in(u as int, i as int));
            let e = &p.entities[i];
            let ghost before = descs@;
            if !e.in_system_header && (e.is_declaration || e.is_definition) {
                let d = visit(p, &keys, &index, i);
                descs.set(i, d);
            }
            proof {
                lemma_prefix_step(top@, k as int);
                assert(p.ent(i as int).unit == u);
                assert forall|j: int|
                    0 <= j < n implies entry_ok(
                        p,
                        #[trigger] descs@[j],
                        j,
                        analysed(p, j) && (p.ent(j).unit < u || (p.ent(j).unit == u && in_prefix(
                            top@,
                            k + 1,
                            j as usize,
                        ))),
                    ) by {
                    if j != i {
                        assert(descs@[j] == before[j]);
                        assert(in_prefix(top@, k + 1, j as usize) == in_prefix(top@, k as int, j as usize));
                    } else {
                        assert(in_prefix(top@, k + 1, j as usize));
                        if analysed(p, j) {
                            assert(desc_ok(p, descs@[j], j));
                        } else {
                            assert(desc_empty(descs@[j]));
                        }
                    }
                }
            }
            k = k + 1;
        }
        proof {
            lemma_prefix_full(top@);
            assert forall|j: int|
                0 <= j < n implies entry_ok(
                    p,
                    #[trigger] descs@[j],
                    j,
                    analysed(p, j) && p.ent(j).unit < u + 1,
                ) by {
                if analysed(p, j) && p.ent(j).unit == u {
                    let v = choose|v: int| p.top_in(v, j);
                    assert(p.units@[v]@.contains(j as usize));
                    let m = choose|m: int| 0 <= m < p.units@[v]@.len() && p.units@[v]@[m] == j as usize;
                    assert(p.ent(p.units@[v]@[m] as int).unit == v);
                    assert(top@.contains(j as usize));
                    assert(in_prefix(top@, top@.len() as int, j as usize));
                    assert(desc_ok(p, descs@[j], j));
                } else if analysed(p, j) && p.ent(j).unit < u {
                    assert(desc_ok(p, descs@[j], j));
                } else {
                    assert(desc_empty(descs@[j]));
                }
            }
        }
        u = u + 1;
    }
    SymbolTable { keys, descs }
}

} // verus!
