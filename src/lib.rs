//! Symbol-level tree shaking of C programs: the dependency graph of the
//! top-level symbols of a parsed program, its reachability closure from a set
//! of entry symbols, and the plan and text of the minimized source tree.
use vstd::prelude::*;

pub mod model;
pub mod sets;
pub mod graph;
pub mod merge;
pub mod extract;
pub mod paths;
pub mod reconstruct;
pub mod plan;

use crate::graph::{build_table, is_key, SymbolTable};
use crate::merge::{all_decls_located, decl_key};
use crate::model::Program;

verus! {

/// Why a run stops.
#[derive(PartialEq, Eq, Structural, Clone, Copy, Debug)]
pub enum ShakeError {
    /// A declaration has no source location.
    MissingLocation(usize),
    /// A reached symbol that is no terminal leaf has no descriptor.
    MissingDescriptor(usize),
}

/// The symbol table of a program: built, filled by dependency analysis, and
/// merged.
pub fn analyze(p: &Program) -> (r: Result<SymbolTable, ShakeError>)
    requires
        p.wf(),
    ensures
        r is Ok <==> all_decls_located(p),
        r matches Ok(t) ==> t.merged_from(p),
        r matches Err(e) ==> e matches ShakeError::MissingLocation(i) && i < p.n() && decl_key(
            p,
            i as int,
        ) && !p.ent(i as int).located,
{
    let mut t = build_table(p);
    match crate::merge::merge(p, &mut t) {
        Ok(()) => Ok(t),
        Err(i) => Err(ShakeError::MissingLocation(i)),
    }
}

/// The symbols reached from the entry names `targets`, one flag per symbol.
pub fn shake(p: &Program, targets: &Vec<Vec<u8>>) -> (r: Result<Vec<bool>, ShakeError>)
    requires
        p.wf(),
    ensures
        r is Ok <==> all_decls_located(p) && crate::extract::reached_have_desc(p, targets@),
        r matches Ok(v) ==> crate::extract::is_extraction(p, targets@, v@),
        r matches Err(e) ==> match e {
            ShakeError::MissingLocation(i) => i < p.n() && !all_decls_located(p),
            ShakeError::MissingDescriptor(s) => all_decls_located(p) && s < p.n()
                && crate::extract::reachable(p, targets@, s as int) && !p.ent(
                s as int,
            ).is_terminal() && !is_key(p, s as int),
        },
{
    let t = match analyze(p) {
        Ok(t) => t,
        Err(e) => {
            return Err(e);
        },
    };
    match crate::extract::extract_symbols(p, &t, targets) {
        Ok(v) => Ok(v),
        Err(s) => Err(ShakeError::MissingDescriptor(s)),
    }
}

} // verus!
