use cslice::graph::build_table;
use cslice::merge::merge;
use cslice::model::{Entity, Program, SymKind};
use cslice::paths::{basename, normalize_include, resolve_includes, system_files};
use cslice::plan::{
    file_plan, group_flags, processed_files, render_file, system_named_flags,
    unlocated_extracted, verbatim_files,
};
use cslice::reconstruct::{emit_lines, order_by_line};
use cslice::sets::contains_bytes;
use cslice::{analyze, shake, ShakeError};

fn ent(kind: SymKind, name: &str, file: usize, start: u32, end: u32) -> Entity {
    let decl = matches!(
        kind,
        SymKind::Function | SymKind::Variable | SymKind::Type | SymKind::OtherDeclaration
    );
    Entity {
        kind,
        name: if name.is_empty() { None } else { Some(name.as_bytes().to_vec()) },
        is_declaration: decl,
        is_definition: false,
        located: true,
        file,
        line: start,
        column: 1,
        expansion_line: start,
        start_line: start,
        end_line: end,
        in_system_header: false,
        unit: 0,
        definition: None,
        reference: None,
        type_decl: None,
        typedef_decl: None,
        descendants: Vec::new(),
        include_target: None,
    }
}

fn names(v: &[&str]) -> Vec<Vec<u8>> {
    v.iter().map(|s| s.as_bytes().to_vec()).collect()
}

fn flagged(v: &[bool]) -> Vec<usize> {
    (0..v.len()).filter(|&i| v[i]).collect()
}

fn lines(text: &str) -> Vec<Vec<u8>> {
    text.lines().map(|l| l.as_bytes().to_vec()).collect()
}

/// `int helper(void); int main(void){ return helper(); } int helper(void){ return 1; }`
/// on three lines; an unrelated `unused` follows on a fourth.
fn helper_program() -> Program {
    let mut decl = ent(SymKind::Function, "helper", 0, 1, 1);
    decl.definition = Some(2);
    let mut main = ent(SymKind::Function, "main", 0, 2, 2);
    main.is_definition = true;
    main.definition = Some(1);
    main.descendants = vec![3, 4];
    let mut def = ent(SymKind::Function, "helper", 0, 3, 3);
    def.is_definition = true;
    def.definition = Some(2);
    let mut call = ent(SymKind::Other, "", 0, 2, 2);
    call.definition = Some(2);
    // The name `helper` in the call refers to the declaration seen before it.
    let mut callee = ent(SymKind::Other, "helper", 0, 2, 2);
    callee.reference = Some(0);
    callee.definition = Some(2);
    let mut unused = ent(SymKind::Function, "unused", 0, 4, 4);
    unused.is_definition = true;
    unused.definition = Some(5);
    Program {
        entities: vec![decl, main, def, call, callee, unused],
        units: vec![vec![0, 1, 2, 5]],
        files: vec![b"/src/main.c".to_vec()],
    }
}

#[test]
fn forward_declaration_main_and_definition_are_kept() {
    let p = helper_program();
    assert!(p.is_well_formed());
    let v = shake(&p, &names(&["main"])).unwrap();
    assert_eq!(flagged(&v), vec![0, 1, 2]);
    let groups = group_flags(&p, &v);
    let norm = vec![0usize; p.entities.len()];
    let order = file_plan(&p, &v, &norm, &groups, 0);
    assert_eq!(order, vec![0, 1, 2]);
    let ranges: Vec<(u32, u32)> = order
        .iter()
        .map(|&s| (p.entities[s].start_line, p.entities[s].end_line))
        .collect();
    let src = "int helper(void);\nint main(void){ return helper(); }\nint helper(void){ return 1; }\nint unused(void){ return 2; }\n";
    let out = emit_lines(&lines(src), &ranges);
    assert_eq!(
        String::from_utf8(out).unwrap(),
        "int helper(void);\nint main(void){ return helper(); }\nint helper(void){ return 1; }\n"
    );
}

#[test]
fn extraction_is_idempotent() {
    let p = helper_program();
    let a = shake(&p, &names(&["main"])).unwrap();
    let b = shake(&p, &names(&["main"])).unwrap();
    assert_eq!(a, b);
}

#[test]
fn extracted_set_is_closed_under_edges() {
    let p = helper_program();
    let t = analyze(&p).unwrap();
    let v = shake(&p, &names(&["main"])).unwrap();
    for s in 0..v.len() {
        if v[s] {
            for &d in t.descs[s].deps.iter().chain(t.descs[s].definitions.iter()) {
                assert!(v[d], "edge {} -> {} leaves the set", s, d);
            }
        }
    }
}

#[test]
fn unknown_entry_extracts_nothing() {
    let p = helper_program();
    let v = shake(&p, &names(&["nothing"])).unwrap();
    assert!(flagged(&v).is_empty());
}

/// `#define SQUARE(x) ((x)*(x))` on line 1, `g` on lines 2-4 uses it on
/// line 3, `main` on line 5 does not.
fn square_macro_program() -> Program {
    let mut def = ent(SymKind::MacroDefinition, "SQUARE", 0, 1, 1);
    def.expansion_line = 1;
    let mut g = ent(SymKind::Function, "g", 0, 2, 4);
    g.is_definition = true;
    g.definition = Some(1);
    let mut exp = ent(SymKind::MacroExpansion, "SQUARE", 0, 3, 3);
    exp.expansion_line = 3;
    let mut main = ent(SymKind::Function, "main", 0, 5, 5);
    main.is_definition = true;
    main.definition = Some(3);
    Program {
        entities: vec![def, g, exp, main],
        units: vec![vec![0, 1, 2, 3]],
        files: vec![b"/src/b.c".to_vec()],
    }
}

#[test]
fn macro_used_only_by_unreachable_function_is_dropped() {
    let p = square_macro_program();
    let v = shake(&p, &names(&["main"])).unwrap();
    assert_eq!(flagged(&v), vec![3]);
    let w = shake(&p, &names(&["g"])).unwrap();
    assert_eq!(flagged(&w), vec![1, 2]);
}

#[test]
fn macro_expansion_in_lines_of_symbol_is_a_dependency() {
    let p = square_macro_program();
    let t = analyze(&p).unwrap();
    assert!(t.descs[1].deps.contains(&2));
    assert!(!t.descs[3].deps.contains(&2));
}

/// `main.c` includes `util.h`, which declares `add`; `util.c` defines it.
fn util_program() -> Program {
    let mut inc = ent(SymKind::InclusionDirective, "util.h", 0, 1, 1);
    inc.include_target = Some(1);
    let mut main = ent(SymKind::Function, "main", 0, 2, 2);
    main.is_definition = true;
    main.definition = Some(1);
    main.descendants = vec![2];
    // In this unit `add` has no definition: the call refers to the
    // declaration that the header makes visible.
    let mut call = ent(SymKind::Other, "add", 0, 2, 2);
    call.reference = Some(3);
    let mut decl_a = ent(SymKind::Function, "add", 1, 1, 1);
    decl_a.definition = None;
    let mut inc_c = ent(SymKind::InclusionDirective, "util.h", 2, 1, 1);
    inc_c.include_target = Some(1);
    inc_c.unit = 1;
    let mut def = ent(SymKind::Function, "add", 2, 2, 2);
    def.is_definition = true;
    def.definition = Some(5);
    def.unit = 1;
    let mut decl_c = ent(SymKind::Function, "add", 1, 1, 1);
    decl_c.definition = Some(5);
    decl_c.unit = 1;
    Program {
        entities: vec![inc, main, call, decl_a, inc_c, def, decl_c],
        units: vec![vec![0, 3, 1], vec![4, 6, 5]],
        files: vec![b"/src/main.c".to_vec(), b"/src/util.h".to_vec(), b"/src/util.c".to_vec()],
    }
}

#[test]
fn header_keeps_declaration_and_source_keeps_definition() {
    let p = util_program();
    assert!(p.is_well_formed());
    let v = shake(&p, &names(&["main"])).unwrap();
    assert_eq!(flagged(&v), vec![1, 3, 5]);
    let groups = group_flags(&p, &v);
    assert_eq!(groups, vec![true, true, true]);
    let sys = system_files(&p);
    let norm: Vec<usize> = (0..p.entities.len())
        .map(|i| {
            if p.entities[i].kind == SymKind::InclusionDirective {
                normalize_include(&p, &sys, i)
            } else {
                0
            }
        })
        .collect();
    let main_c = file_plan(&p, &v, &norm, &groups, 0);
    assert_eq!(main_c, vec![0, 1]);
    let util_c = file_plan(&p, &v, &norm, &groups, 2);
    assert_eq!(util_c, vec![4, 5]);
    let util_h = file_plan(&p, &v, &norm, &groups, 1);
    assert_eq!(util_h.len(), 1);
    assert_eq!(p.entities[util_h[0]].line, 1);
}

#[test]
fn merge_gives_forward_declarations_the_definition() {
    let p = util_program();
    let mut t = build_table(&p);
    assert!(t.descs[3].definitions.is_empty());
    merge(&p, &mut t).unwrap();
    assert_eq!(t.descs[3].definitions, vec![5]);
    assert_eq!(t.descs[6].definitions, vec![5]);
}

#[test]
fn merge_result_does_not_depend_on_unit_order() {
    let mut p = util_program();
    p.units.swap(0, 1);
    for e in p.entities.iter_mut() {
        e.unit = 1 - e.unit;
    }
    let mut t = build_table(&p);
    merge(&p, &mut t).unwrap();
    assert_eq!(t.descs[3].definitions, vec![5]);
    assert_eq!(t.descs[6].definitions, vec![5]);
}

#[test]
fn missing_location_of_a_declaration_is_reported() {
    let mut p = helper_program();
    p.entities[0].located = false;
    assert_eq!(analyze(&p).err(), Some(ShakeError::MissingLocation(0)));
}

#[test]
fn reached_symbol_without_descriptor_is_reported() {
    let mut p = helper_program();
    p.entities[3].is_definition = true;
    p.entities[1].definition = Some(3);
    match shake(&p, &names(&["main"])) {
        Err(ShakeError::MissingDescriptor(s)) => assert_eq!(s, 3),
        other => panic!("unexpected {:?}", other),
    }
}

/// A vendor header reached through an include inside `main` whose file holds
/// no extracted symbol is copied, not sliced.
#[test]
fn vendor_header_without_symbols_is_unparsable() {
    let mut main = ent(SymKind::Function, "main", 0, 1, 3);
    main.is_definition = true;
    main.definition = Some(0);
    let mut inc = ent(SymKind::InclusionDirective, "vendor/lib.h", 0, 2, 2);
    inc.expansion_line = 2;
    inc.include_target = Some(1);
    let p = Program {
        entities: vec![main, inc],
        units: vec![vec![0, 1]],
        files: vec![b"/src/main.c".to_vec(), b"/src/vendor/lib.h".to_vec()],
    };
    let v = shake(&p, &names(&["main"])).unwrap();
    assert_eq!(flagged(&v), vec![0, 1]);
    let groups = group_flags(&p, &v);
    assert_eq!(groups, vec![true, false]);
    let sys = system_files(&p);
    assert_eq!(normalize_include(&p, &sys, 1), 1);
    let plan = file_plan(&p, &v, &vec![0, 1], &groups, 0);
    assert_eq!(plan, vec![0]);
}

#[test]
fn system_header_registered_by_bare_name() {
    let mut sys_decl = ent(SymKind::Function, "printf", 1, 10, 10);
    sys_decl.in_system_header = true;
    let mut inc = ent(SymKind::InclusionDirective, "stdio.h", 0, 1, 1);
    inc.include_target = Some(2);
    let p = Program {
        entities: vec![sys_decl, inc],
        units: vec![vec![1, 0]],
        files: vec![b"/src/a.c".to_vec(), b"/usr/include/stdio.h".to_vec(), b"/src/stdio.h".to_vec()],
    };
    let sys = system_files(&p);
    assert_eq!(sys, vec![1]);
    assert_eq!(normalize_include(&p, &sys, 1), 1);
}

#[test]
fn basename_takes_text_after_last_slash() {
    assert_eq!(basename(&b"/usr/include/stdio.h".to_vec()), b"stdio.h".to_vec());
    assert_eq!(basename(&b"plain.h".to_vec()), b"plain.h".to_vec());
    assert_eq!(basename(&b"dir/".to_vec()), b"".to_vec());
}

#[test]
fn substring_search() {
    assert!(contains_bytes(&b"/src/barfoo.h".to_vec(), &b"foo.h".to_vec()));
    assert!(!contains_bytes(&b"/src/bar.h".to_vec(), &b"foo.h".to_vec()));
    assert!(contains_bytes(&b"x".to_vec(), &b"".to_vec()));
}

#[test]
fn emit_lines_is_byte_exact_and_ordered() {
    let src = lines("a\n  b // c\n\td\ne");
    let out = emit_lines(&src, &vec![(2, 3), (1, 1), (4, 4)]);
    assert_eq!(out, b"  b // c\n\td\na\ne\n".to_vec());
    assert!(emit_lines(&src, &vec![]).is_empty());
}

#[test]
fn order_by_line_keeps_first_of_equal_lines() {
    let mut p = helper_program();
    p.entities[3].start_line = 2;
    let order = order_by_line(&p, &vec![2, 3, 1, 0]);
    assert_eq!(order, vec![0, 3, 2]);
}

fn vendor_program() -> Program {
    let mut main = ent(SymKind::Function, "main", 0, 1, 3);
    main.is_definition = true;
    main.definition = Some(0);
    let mut inc = ent(SymKind::InclusionDirective, "vendor/lib.h", 0, 2, 2);
    inc.expansion_line = 2;
    inc.include_target = Some(1);
    Program {
        entities: vec![main, inc],
        units: vec![vec![0, 1]],
        files: vec![b"/src/main.c".to_vec(), b"/src/vendor/lib.h".to_vec()],
    }
}

#[test]
fn vendor_header_is_copied_and_not_minimized() {
    let p = vendor_program();
    let v = shake(&p, &names(&["main"])).unwrap();
    let groups = group_flags(&p, &v);
    let norm = vec![0usize, 1];
    let verb = verbatim_files(&p, &v, &norm, &groups);
    assert_eq!(verb, vec![1]);
    let sys = system_files(&p);
    let named = system_named_flags(&p, &sys);
    assert_eq!(named, vec![false, false]);
    let files = processed_files(&p, &v, &norm, &vec![0], &named, &groups, &verb);
    assert_eq!(files, vec![0]);
}

#[test]
fn header_and_both_sources_are_processed() {
    let p = util_program();
    let v = shake(&p, &names(&["main"])).unwrap();
    let groups = group_flags(&p, &v);
    let norm = vec![1usize, 0, 0, 0, 1, 0, 0];
    let verb = verbatim_files(&p, &v, &norm, &groups);
    assert!(verb.is_empty());
    let named = system_named_flags(&p, &system_files(&p));
    let files = processed_files(&p, &v, &norm, &vec![0, 2], &named, &groups, &verb);
    assert_eq!(files, vec![0, 1, 2]);
}

#[test]
fn system_named_file_is_not_processed() {
    let mut sys_decl = ent(SymKind::Function, "printf", 1, 10, 10);
    sys_decl.in_system_header = true;
    let mut main = ent(SymKind::Function, "main", 0, 1, 1);
    main.is_definition = true;
    main.definition = Some(1);
    let mut local = ent(SymKind::Function, "f", 2, 1, 1);
    local.is_definition = true;
    local.definition = Some(2);
    main.descendants = vec![2];
    let mut call = ent(SymKind::Other, "", 0, 1, 1);
    call.definition = Some(2);
    main.descendants = vec![3];
    let p = Program {
        entities: vec![sys_decl, main, local, call],
        units: vec![vec![0, 1, 2]],
        files: vec![b"/src/a.c".to_vec(), b"/usr/include/stdio.h".to_vec(), b"/src/stdio.h".to_vec()],
    };
    let v = shake(&p, &names(&["main"])).unwrap();
    assert_eq!(flagged(&v), vec![1, 2]);
    let groups = group_flags(&p, &v);
    let named = system_named_flags(&p, &system_files(&p));
    assert_eq!(named, vec![false, true, true]);
    let norm = vec![0usize; 4];
    let files = processed_files(&p, &v, &norm, &vec![0, 2], &named, &groups, &vec![]);
    assert_eq!(files, vec![0]);
}

#[test]
fn well_formedness_check() {
    let p = util_program();
    assert!(p.is_well_formed());
    let mut q = util_program();
    q.entities[0].unit = 1;
    assert!(!q.is_well_formed());
    let mut r = util_program();
    r.entities[2].definition = Some(99);
    assert!(!r.is_well_formed());
    let mut d = util_program();
    d.entities[1].definition = Some(3);
    assert!(!d.is_well_formed());
}

#[test]
fn unlocated_extracted_symbol_is_found() {
    let p = helper_program();
    let v = shake(&p, &names(&["main"])).unwrap();
    assert_eq!(unlocated_extracted(&p, &v), None);
    let mut q = helper_program();
    q.entities[2].located = false;
    assert_eq!(unlocated_extracted(&q, &v), Some(2));
}

#[test]
fn include_inside_symbol_pulls_macros_of_named_file() {
    let mut main = ent(SymKind::Function, "main", 0, 1, 3);
    main.is_definition = true;
    main.definition = Some(0);
    let mut inc = ent(SymKind::InclusionDirective, "foo.h", 0, 2, 2);
    inc.include_target = Some(1);
    let def_foo = ent(SymKind::MacroDefinition, "X", 1, 1, 1);
    let def_bar = ent(SymKind::MacroDefinition, "Y", 2, 1, 1);
    let p = Program {
        entities: vec![main, inc, def_foo, def_bar],
        units: vec![vec![0, 1, 2, 3]],
        files: vec![b"/src/m.c".to_vec(), b"/src/barfoo.h".to_vec(), b"/src/other.h".to_vec()],
    };
    let t = analyze(&p).unwrap();
    let mut deps = t.descs[0].deps.clone();
    deps.sort();
    assert_eq!(deps, vec![1, 2]);
}

#[test]
fn render_file_writes_plan_lines_verbatim() {
    let p = helper_program();
    let v = shake(&p, &names(&["main"])).unwrap();
    let groups = group_flags(&p, &v);
    let norm = vec![0usize; p.entities.len()];
    let src = "int helper(void);\nint main(void){ return helper(); }\nint helper(void){ return 1; }\nint unused(void){ return 2; }\n";
    let out = render_file(&p, &v, &norm, &groups, 0, &lines(src)).unwrap();
    assert_eq!(
        String::from_utf8(out).unwrap(),
        "int helper(void);\nint main(void){ return helper(); }\nint helper(void){ return 1; }\n"
    );
    assert_eq!(render_file(&p, &v, &norm, &groups, 0, &lines("int helper(void);\n")), None);
}

#[test]
fn resolve_includes_maps_each_directive() {
    let p = util_program();
    let sys = system_files(&p);
    assert_eq!(resolve_includes(&p, &sys), vec![1, 0, 0, 0, 1, 0, 0]);
}

#[test]
fn includes_come_before_symbols_in_a_file() {
    let mut p = util_program();
    p.entities[0].start_line = 5;
    p.entities[0].end_line = 5;
    p.entities[0].line = 5;
    p.entities[0].expansion_line = 5;
    let v = shake(&p, &names(&["main"])).unwrap();
    let groups = group_flags(&p, &v);
    let norm = resolve_includes(&p, &system_files(&p));
    assert_eq!(file_plan(&p, &v, &norm, &groups, 0), vec![0, 1]);
}

#[test]
fn symbols_are_ordered_by_start_line() {
    let mut p = helper_program();
    p.entities[1].line = 9;
    p.entities[2].line = 1;
    let v = shake(&p, &names(&["main"])).unwrap();
    let groups = group_flags(&p, &v);
    let norm = vec![0usize; p.entities.len()];
    assert_eq!(file_plan(&p, &v, &norm, &groups, 0), vec![0, 1, 2]);
}

#[test]
fn unit_order_does_not_change_extraction() {
    let p = util_program();
    let mut q = util_program();
    q.units.swap(0, 1);
    for e in q.entities.iter_mut() {
        e.unit = 1 - e.unit;
    }
    assert!(q.is_well_formed());
    assert_eq!(shake(&p, &names(&["main"])).unwrap(), shake(&q, &names(&["main"])).unwrap());
}
