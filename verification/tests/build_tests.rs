use objtree::ast::{Constant, DocCollection, Expression, Location, VarSuffix};
use objtree::diag::{Context, ErrorKind};
use objtree::objtree::{is_decl, is_proc_decl, is_var_decl, subpath, Code, ObjectTree};

fn segs(parts: &[&str]) -> Vec<String> {
    parts.iter().map(|s| s.to_string()).collect()
}

fn loc(line: u32) -> Location {
    Location { file: 1, line, column: 0 }
}

fn docs() -> DocCollection {
    DocCollection::new()
}

fn suffix() -> VarSuffix {
    VarSuffix::none()
}

#[test]
fn classifiers_recognize_keywords() {
    assert!(is_var_decl("var"));
    assert!(!is_var_decl("proc"));
    assert!(is_proc_decl("proc"));
    assert!(is_proc_decl("verb"));
    assert!(!is_proc_decl("var"));
    assert!(is_decl("var"));
    assert!(is_decl("verb"));
    assert!(!is_decl("obj"));
}

#[test]
fn subpath_matches_parent_and_descendants() {
    assert!(subpath("/obj", "/obj/"));
    assert!(subpath("/obj/item", "/obj/"));
    assert!(subpath("/obj/item/weapon", "/obj/"));
    assert!(!subpath("/mob", "/obj/"));
    assert!(!subpath("/object", "/obj/"));
}

#[test]
fn empty_path_is_refused() {
    let mut tree = ObjectTree::new();
    let r = tree.add_entry(loc(1), &segs(&[]), 1, docs(), suffix());
    let e = r.unwrap_err();
    assert_eq!(e.kind, ErrorKind::CannotRegisterRoot);
    assert_eq!(e.location, loc(1));
}

#[test]
fn registered_paths_are_found_with_their_paths() {
    let mut tree = ObjectTree::new();
    tree.add_entry(loc(1), &segs(&["obj", "item"]), 2, docs(), suffix()).unwrap();
    tree.add_entry(loc(2), &segs(&["obj", "item", "weapon"]), 3, docs(), suffix()).unwrap();
    let item = tree.find("/obj/item").expect("item registered");
    assert_eq!(item.get().path.as_str(), "/obj/item");
    assert_eq!(item.get().name.as_str(), "item");
    let weapon = tree.find("/obj/item/weapon").expect("weapon registered");
    assert_eq!(weapon.get().path.as_str(), "/obj/item/weapon");
    assert!(tree.find("/obj/sword").is_none());
    assert!(tree.find("").is_none());
    let obj = tree.expect("/obj");
    assert_eq!(obj.get().name.as_str(), "obj");
}

#[test]
fn smaller_specificity_wins_regardless_of_order() {
    let mut t1 = ObjectTree::new();
    t1.add_entry(loc(10), &segs(&["obj"]), 5, docs(), suffix()).unwrap();
    t1.add_entry(loc(20), &segs(&["obj"]), 3, docs(), suffix()).unwrap();
    assert_eq!(t1.find("/obj").unwrap().get().location, loc(20));

    let mut t2 = ObjectTree::new();
    t2.add_entry(loc(20), &segs(&["obj"]), 3, docs(), suffix()).unwrap();
    t2.add_entry(loc(10), &segs(&["obj"]), 5, docs(), suffix()).unwrap();
    assert_eq!(t2.find("/obj").unwrap().get().location, loc(20));
}

#[test]
fn equal_specificity_keeps_first_location() {
    let mut tree = ObjectTree::new();
    tree.add_entry(loc(10), &segs(&["obj"]), 4, docs(), suffix()).unwrap();
    tree.add_entry(loc(20), &segs(&["obj"]), 4, docs(), suffix()).unwrap();
    assert_eq!(tree.find("/obj").unwrap().get().location, loc(10));
}

#[test]
fn var_override_keeps_declaration_updates_value() {
    let mut tree = ObjectTree::new();
    tree.add_var(
        loc(1),
        &segs(&["obj", "var", "const", "x"]),
        2,
        Expression::Literal(Constant::Int(1)),
        docs(),
        suffix(),
    )
    .unwrap();
    tree.add_var(
        loc(2),
        &segs(&["obj", "x"]),
        2,
        Expression::Literal(Constant::Int(2)),
        docs(),
        suffix(),
    )
    .unwrap();
    let obj = tree.find("/obj").unwrap();
    let tv = obj.get().vars.get("x").expect("x registered");
    let decl = tv.declaration.as_ref().expect("declaration preserved");
    assert!(decl.var_type.is_const);
    assert_eq!(decl.location, loc(1));
    assert_eq!(tv.value.location, loc(2));
    match &tv.value.expression {
        Some(Expression::Literal(Constant::Int(n))) => assert_eq!(*n, 2),
        other => panic!("unexpected expression: {:?}", other),
    }
}

#[test]
fn var_header_qualifiers_and_type_path() {
    let mut tree = ObjectTree::new();
    tree.add_var(
        loc(1),
        &segs(&["mob", "var", "global", "tmp", "obj", "item", "w"]),
        2,
        Expression::Literal(Constant::Null),
        docs(),
        suffix(),
    )
    .unwrap();
    let mob = tree.find("/mob").unwrap();
    let tv = mob.get().vars.get("w").unwrap();
    let decl = tv.declaration.as_ref().unwrap();
    assert!(decl.var_type.is_static);
    assert!(decl.var_type.is_tmp);
    assert!(!decl.var_type.is_const);
    let tp: Vec<&str> = decl.var_type.type_path.iter().map(|s| s.as_str()).collect();
    assert_eq!(tp, vec!["obj", "item"]);
}

#[test]
fn var_block_headers_declare_nothing() {
    let mut tree = ObjectTree::new();
    tree.add_entry(loc(1), &segs(&["obj", "var"]), 2, docs(), suffix()).unwrap();
    tree.add_entry(loc(2), &segs(&["obj", "var", "static"]), 2, docs(), suffix()).unwrap();
    let obj = tree.find("/obj").unwrap();
    assert_eq!(obj.get().vars.len(), 0);
}

#[test]
fn var_with_value_must_have_name() {
    let mut tree = ObjectTree::new();
    let e = tree
        .add_var(
            loc(1),
            &segs(&["obj", "var"]),
            2,
            Expression::Literal(Constant::Null),
            docs(),
            suffix(),
        )
        .unwrap_err();
    assert_eq!(e.kind, ErrorKind::VarMustHaveName);
    let e2 = tree
        .add_var(
            loc(2),
            &segs(&["obj", "var", "const"]),
            2,
            Expression::Literal(Constant::Null),
            docs(),
            suffix(),
        )
        .unwrap_err();
    assert_eq!(e2.kind, ErrorKind::VarMustHaveName);
}

#[test]
fn keyword_mismatches_are_errors() {
    let mut tree = ObjectTree::new();
    let e = tree
        .add_var(
            loc(1),
            &segs(&["obj", "proc"]),
            2,
            Expression::Literal(Constant::Null),
            docs(),
            suffix(),
        )
        .unwrap_err();
    assert_eq!(e.kind, ErrorKind::ProcLooksLikeVar);
    let e2 = tree
        .add_proc(loc(2), &segs(&["obj", "var", "x"]), 2, Vec::new(), Code::Builtin)
        .unwrap_err();
    assert_eq!(e2.kind, ErrorKind::VarLooksLikeProc);
}

#[test]
fn proc_name_rules() {
    let mut tree = ObjectTree::new();
    let e = tree
        .add_proc(loc(1), &segs(&["obj", "proc"]), 2, Vec::new(), Code::Builtin)
        .unwrap_err();
    assert_eq!(e.kind, ErrorKind::ProcMustHaveName);
    let e2 = tree
        .add_proc(loc(2), &segs(&["obj", "proc", "f", "g"]), 2, Vec::new(), Code::Builtin)
        .unwrap_err();
    assert_eq!(e2.kind, ErrorKind::SpuriousProcSegment);
    let idx = tree
        .add_proc(loc(3), &segs(&["obj", "verb", "say"]), 2, Vec::new(), Code::Builtin)
        .unwrap();
    assert_eq!(idx, 0);
    let obj = tree.find("/obj").unwrap();
    let tp = obj.get().procs.get("say").unwrap();
    assert!(tp.declaration.as_ref().unwrap().is_verb);
}

#[test]
fn repeated_proc_declarations_append_in_order() {
    let mut tree = ObjectTree::new();
    let i0 = tree
        .add_proc(loc(1), &segs(&["obj", "proc", "f"]), 2, Vec::new(), Code::Builtin)
        .unwrap();
    let i1 = tree
        .add_proc(loc(2), &segs(&["obj", "f"]), 2, Vec::new(), Code::Disabled)
        .unwrap();
    let i2 = tree
        .add_proc(loc(3), &segs(&["obj", "f"]), 2, Vec::new(), Code::Builtin)
        .unwrap();
    assert_eq!((i0, i1, i2), (0, 1, 2));
    let obj = tree.find("/obj").unwrap();
    let tp = obj.get().procs.get("f").unwrap();
    assert_eq!(tp.value.len(), 3);
    assert_eq!(tp.value[0].location, loc(1));
    assert_eq!(tp.value[1].location, loc(2));
    assert_eq!(tp.value[2].location, loc(3));
    // The first occurrence fixed the declaration; later ones kept it.
    let d = tp.declaration.as_ref().unwrap();
    assert!(!d.is_verb);
    assert_eq!(d.location, loc(1));
}

#[test]
fn docs_accumulate_on_plain_entries() {
    let mut tree = ObjectTree::new();
    let mut d1 = DocCollection::new();
    d1.push("first".to_string());
    tree.add_entry(loc(1), &segs(&["obj"]), 2, d1, suffix()).unwrap();
    let mut d2 = DocCollection::new();
    d2.push("second".to_string());
    tree.add_entry(loc(2), &segs(&["obj"]), 2, d2, suffix()).unwrap();
    let obj = tree.find("/obj").unwrap();
    let texts: Vec<&str> = obj.get().docs.elems.iter().map(|s| s.as_str()).collect();
    assert_eq!(texts, vec!["first", "second"]);
}

#[test]
fn list_suffix_wraps_declared_type() {
    let mut tree = ObjectTree::new();
    let sfx = VarSuffix { list: vec![None] };
    tree.add_var(
        loc(1),
        &segs(&["obj", "var", "mob", "friends"]),
        2,
        Expression::Literal(Constant::Null),
        docs(),
        sfx,
    )
    .unwrap();
    let obj = tree.find("/obj").unwrap();
    let decl = obj.get().vars.get("friends").unwrap().declaration.as_ref().unwrap();
    let tp: Vec<&str> = decl.var_type.type_path.iter().map(|s| s.as_str()).collect();
    assert_eq!(tp, vec!["list", "mob"]);
}

#[test]
fn builtins_register_core_paths() {
    let mut tree = ObjectTree::new();
    tree.register_builtins();
    for p in ["/datum", "/atom", "/atom/movable", "/turf", "/area", "/obj", "/mob", "/list"] {
        assert!(tree.find(p).is_some(), "missing builtin {}", p);
    }
}

#[test]
fn pretty_path_names_the_root_globally() {
    let mut tree = ObjectTree::new();
    tree.add_entry(loc(1), &segs(&["obj"]), 2, docs(), suffix()).unwrap();
    assert_eq!(tree.root().get().pretty_path(), "(global)");
    assert!(tree.root().get().is_root());
    let obj = tree.find("/obj").unwrap();
    assert_eq!(obj.get().pretty_path(), "/obj");
    assert!(!obj.get().is_root());
    assert!(obj.get().is_subpath_of("/obj/"));
}

#[test]
fn folding_literals_fills_constants() {
    let mut tree = ObjectTree::new();
    tree.register_builtins();
    tree.add_var(
        loc(1),
        &segs(&["obj", "var", "hp"]),
        2,
        Expression::Literal(Constant::Int(30)),
        docs(),
        suffix(),
    )
    .unwrap();
    tree.add_var(loc(2), &segs(&["obj", "var", "opaque"]), 2, Expression::Opaque, docs(), suffix())
        .unwrap();
    let mut ctx = Context::new();
    tree.finalize(&mut ctx, false);
    let obj = tree.find("/obj").unwrap();
    let hp = obj.get().vars.get("hp").unwrap();
    assert_eq!(hp.value.constant, Some(Constant::Int(30)));
    assert!(!hp.value.being_evaluated);
    let op = obj.get().vars.get("opaque").unwrap();
    assert!(op.value.constant.is_none());
    assert!(ctx.errors.iter().any(|e| e.kind == ErrorKind::NotAConstant));
}

#[test]
fn sloppy_finalize_passes_over_unfoldable_constants() {
    let mut tree = ObjectTree::new();
    tree.register_builtins();
    tree.add_var(loc(1), &segs(&["obj", "var", "o"]), 2, Expression::Opaque, docs(), suffix())
        .unwrap();
    let mut ctx = Context::new();
    tree.finalize(&mut ctx, true);
    assert!(ctx.errors.iter().all(|e| e.kind != ErrorKind::NotAConstant));
}

#[test]
fn deep_var_paths_create_intermediate_nodes() {
    let mut tree = ObjectTree::new();
    tree.add_var(
        loc(1),
        &segs(&["obj", "item", "weapon", "var", "damage"]),
        4,
        Expression::Literal(Constant::Int(7)),
        docs(),
        suffix(),
    )
    .unwrap();
    assert!(tree.find("/obj").is_some());
    assert!(tree.find("/obj/item").is_some());
    let weapon = tree.find("/obj/item/weapon").unwrap();
    assert!(weapon.get().vars.get("damage").is_some());
}

#[test]
fn first_keyword_occurrence_fixes_proc_declaration() {
    let mut tree = ObjectTree::new();
    tree.add_proc(loc(1), &segs(&["obj", "f"]), 2, Vec::new(), Code::Builtin).unwrap();
    let obj_before = tree.find("/obj").unwrap().idx;
    {
        let obj = tree.find("/obj").unwrap();
        assert!(obj.get().procs.get("f").unwrap().declaration.is_none());
    }
    tree.add_proc(loc(2), &segs(&["obj", "proc", "f"]), 2, Vec::new(), Code::Builtin).unwrap();
    tree.add_proc(loc(3), &segs(&["obj", "verb", "f"]), 2, Vec::new(), Code::Builtin).unwrap();
    let obj = tree.find("/obj").unwrap();
    assert_eq!(obj.idx, obj_before);
    let tp = obj.get().procs.get("f").unwrap();
    assert_eq!(tp.value.len(), 3);
    // The occurrence at line 2 was the first to know proc-ness; line 3 kept it.
    let d = tp.declaration.as_ref().unwrap();
    assert_eq!(d.location, loc(2));
    assert!(!d.is_verb);
}

#[test]
fn entry_without_value_leaves_existing_var_untouched() {
    let mut tree = ObjectTree::new();
    tree.add_var(
        loc(1),
        &segs(&["obj", "var", "x"]),
        2,
        Expression::Literal(Constant::Int(9)),
        docs(),
        suffix(),
    )
    .unwrap();
    tree.add_entry(loc(2), &segs(&["obj", "var", "x"]), 2, docs(), suffix()).unwrap();
    let obj = tree.find("/obj").unwrap();
    let tv = obj.get().vars.get("x").unwrap();
    assert_eq!(tv.value.location, loc(1));
    match &tv.value.expression {
        Some(Expression::Literal(Constant::Int(n))) => assert_eq!(*n, 9),
        other => panic!("unexpected expression: {:?}", other),
    }
}

#[test]
fn name_kind_mismatch_is_an_error() {
    let mut tree = ObjectTree::new();
    tree.add_proc(loc(1), &segs(&["obj", "proc", "f"]), 2, Vec::new(), Code::Builtin).unwrap();
    // A var may not reuse a name already registered as a procedure...
    let e = tree
        .add_var(
            loc(2),
            &segs(&["obj", "var", "f"]),
            2,
            Expression::Literal(Constant::Null),
            docs(),
            suffix(),
        )
        .unwrap_err();
    assert_eq!(e.kind, ErrorKind::ProcLooksLikeVar);
    // ...nor a proc a name already registered as a variable.
    tree.add_var(
        loc(3),
        &segs(&["obj", "var", "hp"]),
        2,
        Expression::Literal(Constant::Int(1)),
        docs(),
        suffix(),
    )
    .unwrap();
    let e2 = tree
        .add_proc(loc(4), &segs(&["obj", "proc", "hp"]), 2, Vec::new(), Code::Builtin)
        .unwrap_err();
    assert_eq!(e2.kind, ErrorKind::VarLooksLikeProc);
    // The mismatches left both originals untouched.
    let obj = tree.find("/obj").unwrap();
    assert!(obj.get().procs.get("f").is_some());
    assert!(obj.get().vars.get("f").is_none());
    assert!(obj.get().vars.get("hp").is_some());
    assert!(obj.get().procs.get("hp").is_none());
}

#[test]
fn paths_come_back_in_string_order() {
    let mut tree = ObjectTree::new();
    tree.add_entry(loc(1), &segs(&["obj", "zz"]), 2, docs(), suffix()).unwrap();
    tree.add_entry(loc(2), &segs(&["mob"]), 2, docs(), suffix()).unwrap();
    tree.add_entry(loc(3), &segs(&["obj", "aa"]), 2, docs(), suffix()).unwrap();
    let paths: Vec<String> = tree.paths_in_order();
    let views: Vec<&str> = paths.iter().map(|s| s.as_str()).collect();
    assert_eq!(views, vec!["/mob", "/obj", "/obj/aa", "/obj/zz"]);
}

#[test]
fn proc_docs_can_be_attached_after_registration() {
    let mut tree = ObjectTree::new();
    let idx = tree
        .add_proc(loc(1), &segs(&["obj", "proc", "f"]), 2, Vec::new(), Code::Builtin)
        .unwrap();
    let mut d = DocCollection::new();
    d.push("does a thing".to_string());
    assert!(tree.extend_proc_docs("/obj", "f", idx, d));
    let obj = tree.find("/obj").unwrap();
    let tp = obj.get().procs.get("f").unwrap();
    assert_eq!(tp.value[0].docs.elems.len(), 1);
    assert_eq!(tp.value[0].docs.elems[0].as_str(), "does a thing");
    // A miss changes nothing and reports failure.
    assert!(!tree.extend_proc_docs("/obj", "g", 0, DocCollection::new()));
    assert!(!tree.extend_proc_docs("/mob", "f", 0, DocCollection::new()));
    assert!(!tree.extend_proc_docs("/obj", "f", 5, DocCollection::new()));
}

#[test]
fn overrides_error_reports_carry_the_variable_site() {
    let mut tree = ObjectTree::new();
    tree.register_builtins();
    tree.add_entry(loc(1), &segs(&["marker"]), 2, docs(), suffix()).unwrap();
    tree.add_var(loc(9), &segs(&["marker", "var", "parent_type"]), 2, Expression::Opaque, docs(), suffix())
        .unwrap();
    let mut ctx = Context::new();
    tree.finalize(&mut ctx, false);
    // The unevaluable override is reported at the variable's own site, and
    // the type keeps its default: the root for a top-level type.
    assert!(ctx.errors.iter().any(|e| e.kind == ErrorKind::NotAConstant && e.location == loc(9)));
    let marker = tree.find("/marker").unwrap();
    assert!(marker.parent_type().unwrap().get().is_root());
}
