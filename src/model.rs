//! The data model of a parsed C program: an arena of source symbols,
//! referenced by index, with the translation units that own them.
use vstd::prelude::*;

verus! {

/// What a source symbol is, as the front end classifies it.
#[derive(PartialEq, Eq, Structural, Clone, Copy, Debug)]
pub enum SymKind {
    Function,
    Variable,
    Type,
    MacroDefinition,
    MacroExpansion,
    InclusionDirective,
    OtherDeclaration,
    Other,
}

/// One textual occurrence in the parsed program.
///
/// Every reference to another symbol is an index into `Program::entities`;
/// `file` and `include_target` are indices into `Program::files`, each of
/// which is a canonical path.
#[derive(Debug)]
pub struct Entity {
    pub kind: SymKind,
    pub name: Option<Vec<u8>>,
    /// The front end calls it a declaration.
    pub is_declaration: bool,
    /// The front end calls it a definition.
    pub is_definition: bool,
    /// Whether it has a source location (the fields below are meaningful only then).
    pub located: bool,
    pub file: usize,
    pub line: u32,
    pub column: u32,
    /// The line on which a macro expansion is expanded.
    pub expansion_line: u32,
    pub start_line: u32,
    pub end_line: u32,
    pub in_system_header: bool,
    /// The translation unit that owns it.
    pub unit: usize,
    /// The definition it resolves to: a symbol the front end calls a definition.
    pub definition: Option<usize>,
    /// The declaration a reference names (for a reference to a function
    /// declared earlier, that earlier declaration).
    pub reference: Option<usize>,
    /// The declaring entity of its declared type.
    pub type_decl: Option<usize>,
    /// The declaring entity of its typedef-underlying type.
    pub typedef_decl: Option<usize>,
    /// Every node of its subtree, in visiting order.
    pub descendants: Vec<usize>,
    /// For an inclusion directive: the canonical file that its spelling names,
    /// taken relative to the directory of the file that holds it.
    pub include_target: Option<usize>,
}

/// A parsed program: the symbol arena, the top-level symbols of each
/// translation unit, and the canonical paths of the files involved.
pub struct Program {
    pub entities: Vec<Entity>,
    pub units: Vec<Vec<usize>>,
    pub files: Vec<Vec<u8>>,
}

pub open spec fn opt_in(o: Option<usize>, n: int) -> bool {
    match o {
        Some(i) => i < n,
        None => true,
    }
}

impl Entity {
    pub open spec fn is_decl(&self) -> bool {
        self.is_declaration || self.is_definition
    }

    pub open spec fn is_terminal(&self) -> bool {
        self.kind == SymKind::MacroExpansion || self.kind == SymKind::InclusionDirective
    }

    pub open spec fn is_macro_entity(&self) -> bool {
        self.kind == SymKind::MacroExpansion || self.kind == SymKind::InclusionDirective
            || self.kind == SymKind::MacroDefinition
    }

    pub open spec fn wf_in(&self, n: int, nfiles: int, nunits: int) -> bool {
        &&& opt_in(self.definition, n)
        &&& opt_in(self.reference, n)
        &&& opt_in(self.type_decl, n)
        &&& opt_in(self.typedef_decl, n)
        &&& opt_in(self.include_target, nfiles)
        &&& forall|k: int| 0 <= k < self.descendants@.len() ==> self.descendants@[k] < n
        &&& self.located ==> self.file < nfiles
        &&& self.unit < nunits
        &&& (self.is_macro_entity() ==> self.located)
        &&& (self.kind == SymKind::InclusionDirective ==> self.name.is_some()
            && self.include_target.is_some())
    }
}

impl Program {
    pub open spec fn n(&self) -> int {
        self.entities@.len() as int
    }

    pub open spec fn ent(&self, i: int) -> Entity {
        self.entities@[i]
    }

    /// `i` is a top-level symbol of translation unit `u`.
    pub open spec fn top_in(&self, u: int, i: int) -> bool {
        0 <= u < self.units@.len() && 0 <= i <= usize::MAX && self.units@[u]@.contains(i as usize)
    }

    pub open spec fn is_top(&self, i: int) -> bool {
        exists|u: int| self.top_in(u, i)
    }

    pub open spec fn wf(&self) -> bool {
        &&& forall|i: int|
            0 <= i < self.n() ==> #[trigger] self.ent(i).wf_in(
                self.n(),
                self.files@.len() as int,
                self.units@.len() as int,
            )
        &&& forall|u: int, k: int|
            0 <= u < self.units@.len() && 0 <= k < self.units@[u]@.len() ==> {
                let i = #[trigger] self.units@[u]@[k];
                &&& i < self.n()
                &&& self.ent(i as int).unit == u
            }
        &&& forall|i: int|
            0 <= i < self.n() ==> #[trigger] self.defines_ok(i)
    }

    /// What symbol `i` resolves to is a definition.
    pub open spec fn defines_ok(&self, i: int) -> bool {
        match self.ent(i).definition {
            Some(d) => d < self.n() && self.ent(d as int).is_definition,
            None => true,
        }
    }
}

fn opt_below(o: Option<usize>, n: usize) -> (r: bool)
    ensures
        r == opt_in(o, n as int),
{
    match o {
        Some(i) => i < n,
        None => true,
    }
}

impl Entity {
    /// Whether the symbol is well formed in an arena of `n` symbols, `nfiles`
    /// files and `nunits` units.
    pub fn check(&self, n: usize, nfiles: usize, nunits: usize) -> (r: bool)
        ensures
            r == self.wf_in(n as int, nfiles as int, nunits as int),
    {
        let mut k: usize = 0;
        while k < self.descendants.len()
            invariant
                0 <= k <= self.descendants@.len(),
                forall|j: int| 0 <= j < k ==> self.descendants@[j] < n,
            decreases self.descendants@.len() - k,
        {
            if self.descendants[k] >= n {
                return false;
            }
            k = k + 1;
        }
        let is_macro = match self.kind {
            SymKind::MacroDefinition | SymKind::MacroExpansion | SymKind::InclusionDirective => true,
            _ => false,
        };
        let is_inc = match self.kind {
            SymKind::InclusionDirective => true,
            _ => false,
        };
        opt_below(self.definition, n) && opt_below(self.reference, n) && opt_below(self.type_decl, n) && opt_below(
            self.typedef_decl,
            n,
        ) && opt_below(self.include_target, nfiles) && (!self.located || self.file < nfiles)
            && self.unit < nunits && (!is_macro || self.located) && (!is_inc || (
        self.name.is_some() && self.include_target.is_some()))
    }
}

impl Program {
    /// Whether the program is well formed: every index in range, and every
    /// top-level symbol owned by the unit that lists it.
    pub fn is_well_formed(&self) -> (r: bool)
        ensures
            r == self.wf(),
    {
        let n = self.entities.len();
        let mut i: usize = 0;
        while i < n
            invariant
                n == self.n(),
                0 <= i <= n,
                forall|j: int|
                    0 <= j < i ==> #[trigger] self.ent(j).wf_in(
                        self.n(),
                        self.files@.len() as int,
                        self.units@.len() as int,
                    ),
            decreases n - i,
        {
            if !self.entities[i].check(n, self.files.len(), self.units.len()) {
                assert(!self.ent(i as int).wf_in(
                    self.n(),
                    self.files@.len() as int,
                    self.units@.len() as int,
                ));
                return false;
            }
            i = i + 1;
        }
        let mut u: usize = 0;
        while u < self.units.len()
            invariant
                n == self.n(),
                0 <= u <= self.units@.len(),
                forall|v: int, k: int|
                    0 <= v < u && 0 <= k < self.units@[v]@.len() ==> {
                        let i = #[trigger] self.units@[v]@[k];
                        &&& i < self.n()
                        &&& self.ent(i as int).unit == v
                    },
            decreases self.units@.len() - u,
        {
            let top = &self.units[u];
            let mut k: usize = 0;
            while k < top.len()
                invariant
                    n == self.n(),
                    0 <= u < self.units@.len(),
                    top == &self.units@[u as int],
                    0 <= k <= top@.len(),
                    forall|v: int, k: int|
                        0 <= v < u && 0 <= k < self.units@[v]@.len() ==> {
                            let i = #[trigger] self.units@[v]@[k];
                            &&& i < self.n()
                            &&& self.ent(i as int).unit == v
                        },
                    forall|m: int|
                        0 <= m < k ==> top@[m] < self.n() && self.ent(#[trigger] top@[m] as int).unit
                            == u,
                decreases top@.len() - k,
            {
                let i = top[k];
                if i >= n || self.entities[i].unit != u {
                    assert(self.units@[u as int]@[k as int] == i);
                    return false;
                }
                k = k + 1;
            }
            proof {
                assert forall|v: int, k: int|
                    0 <= v < u + 1 && 0 <= k < self.units@[v]@.len() implies {
                        let i = #[trigger] self.units@[v]@[k];
                        &&& i < self.n()
                        &&& self.ent(i as int).unit == v
                    } by {
                    if v == u {
                        assert(top@[k] == self.units@[v]@[k]);
                    }
                }
            }
            u = u + 1;
        }
        let mut i: usize = 0;
        while i < n
            invariant
                n == self.n(),
                0 <= i <= n,
                forall|v: int, k: int|
                    0 <= v < self.units@.len() && 0 <= k < self.units@[v]@.len() ==> {
                        let i = #[trigger] self.units@[v]@[k];
                        &&& i < self.n()
                        &&& self.ent(i as int).unit == v
                    },
                forall|j: int|
                    0 <= j < self.n() ==> #[trigger] self.ent(j).wf_in(
                        self.n(),
                        self.files@.len() as int,
                        self.units@.len() as int,
                    ),
                forall|j: int| 0 <= j < i ==> #[trigger] self.defines_ok(j),
            decreases n - i,
        {
            match self.entities[i].definition {
                Some(d) => {
                    if d >= n || !self.entities[d].is_definition {
                        assert(!self.defines_ok(i as int));
                        return false;
                    }
                },
                None => {},
            }
            i = i + 1;
        }
        true
    }
}

} // verus!
