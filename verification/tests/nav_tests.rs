use objtree::ast::{Constant, DocCollection, Expression, Location, PathOp, Prefab, VarSuffix};
use objtree::diag::{Context, ErrorKind};
use objtree::objtree::{Code, ObjectTree};

fn segs(parts: &[&str]) -> Vec<String> {
    parts.iter().map(|s| s.to_string()).collect()
}

fn loc(line: u32) -> Location {
    Location { file: 1, line, column: 0 }
}

fn docs() -> DocCollection {
    DocCollection::new()
}

fn suffix() -> VarSuffix {
    VarSuffix::none()
}

fn pieces(parts: &[(PathOp, &str)]) -> Vec<(PathOp, String)> {
    parts.iter().map(|(op, s)| (*op, s.to_string())).collect()
}

#[test]
fn navigate_path_resolves_rooted_paths() {
    let mut tree = ObjectTree::new();
    tree.add_entry(loc(1), &segs(&["obj", "item"]), 2, docs(), suffix()).unwrap();
    tree.add_entry(loc(2), &segs(&["obj", "item", "weapon"]), 3, docs(), suffix()).unwrap();
    let weapon = tree
        .root()
        .navigate_path(&pieces(&[
            (PathOp::Slash, "obj"),
            (PathOp::Slash, "item"),
            (PathOp::Slash, "weapon"),
        ]))
        .expect("weapon resolves");
    assert_eq!(weapon.get().path.as_str(), "/obj/item/weapon");
    assert!(tree
        .root()
        .navigate_path(&pieces(&[(PathOp::Slash, "obj"), (PathOp::Slash, "sword")]))
        .is_none());
}

#[test]
fn upward_search_walks_lexical_parents() {
    let mut tree = ObjectTree::new();
    tree.add_entry(loc(1), &segs(&["obj", "item", "weapon"]), 2, docs(), suffix()).unwrap();
    tree.add_entry(loc(2), &segs(&["obj", "gadget"]), 2, docs(), suffix()).unwrap();
    let weapon = tree.find("/obj/item/weapon").unwrap();
    let found = weapon.navigate(PathOp::Dot, "gadget").expect("found on /obj");
    assert_eq!(found.get().path.as_str(), "/obj/gadget");
    assert!(weapon.navigate(PathOp::Dot, "missing").is_none());
    // A leading slash in a full path restarts from the root even on a deep node.
    let item = weapon
        .navigate_path(&pieces(&[(PathOp::Slash, "obj"), (PathOp::Slash, "item")]))
        .unwrap();
    assert_eq!(item.get().path.as_str(), "/obj/item");
}

#[test]
fn downward_search_takes_first_declaration_order_match() {
    let mut tree = ObjectTree::new();
    tree.add_entry(loc(1), &segs(&["alpha", "mid", "target"]), 2, docs(), suffix()).unwrap();
    tree.add_entry(loc(2), &segs(&["beta", "target"]), 2, docs(), suffix()).unwrap();
    let found = tree.root().navigate(PathOp::Colon, "target").expect("somewhere below");
    // alpha was declared first, so its deeper match wins over beta's shallower one.
    assert_eq!(found.get().path.as_str(), "/alpha/mid/target");
}

#[test]
fn children_come_in_declaration_order() {
    let mut tree = ObjectTree::new();
    tree.add_entry(loc(1), &segs(&["obj", "aa"]), 2, docs(), suffix()).unwrap();
    tree.add_entry(loc(2), &segs(&["obj", "bb"]), 2, docs(), suffix()).unwrap();
    tree.add_entry(loc(3), &segs(&["obj", "cc"]), 2, docs(), suffix()).unwrap();
    let obj = tree.find("/obj").unwrap();
    let names: Vec<String> =
        obj.children().iter().map(|c| c.get().name.as_str().to_string()).collect();
    assert_eq!(names, vec!["aa", "bb", "cc"]);
    assert_eq!(obj.child("bb").unwrap().get().path.as_str(), "/obj/bb");
    assert!(obj.child("zz").is_none());
}

#[test]
fn visit_parent_paths_ends_at_root() {
    let mut tree = ObjectTree::new();
    tree.add_entry(loc(1), &segs(&["obj", "item", "weapon"]), 2, docs(), suffix()).unwrap();
    let weapon = tree.find("/obj/item/weapon").unwrap();
    let walk: Vec<String> =
        weapon.visit_parent_paths().iter().map(|t| t.get().path.as_str().to_string()).collect();
    assert_eq!(walk, vec!["/obj/item/weapon", "/obj/item", "/obj", ""]);
    assert!(weapon.parent_path().unwrap().get().path.as_str() == "/obj/item");
    assert!(tree.root().parent_path().is_none());
}

#[test]
fn recurse_visits_the_whole_subtree() {
    let mut tree = ObjectTree::new();
    tree.add_entry(loc(1), &segs(&["obj", "item", "weapon"]), 2, docs(), suffix()).unwrap();
    tree.add_entry(loc(2), &segs(&["obj", "gadget"]), 2, docs(), suffix()).unwrap();
    let obj = tree.find("/obj").unwrap();
    let mut paths: Vec<String> =
        obj.recurse().iter().map(|t| t.get().path.as_str().to_string()).collect();
    assert_eq!(paths.remove(0), "/obj");
    paths.sort();
    assert_eq!(paths, vec!["/obj/gadget", "/obj/item", "/obj/item/weapon"]);
}

#[test]
fn hardcoded_parents_chain_through_movable() {
    let mut tree = ObjectTree::new();
    tree.register_builtins();
    tree.add_entry(loc(1), &segs(&["mob", "goon"]), 2, docs(), suffix()).unwrap();
    let mut ctx = Context::new();
    tree.finalize(&mut ctx, false);
    assert_eq!(ctx.errors.len(), 0);
    let goon = tree.find("/mob/goon").unwrap();
    let mob = goon.parent_type().expect("goon has a parent");
    assert_eq!(mob.get().path.as_str(), "/mob");
    let movable = mob.parent_type().unwrap();
    assert_eq!(movable.get().path.as_str(), "/atom/movable");
    let atom = movable.parent_type().unwrap();
    assert_eq!(atom.get().path.as_str(), "/atom");
    let datum = atom.parent_type().unwrap();
    assert_eq!(datum.get().path.as_str(), "/datum");
    let root = datum.parent_type().unwrap();
    assert!(root.get().is_root());
    assert!(root.parent_type().is_none());
    // parent_of mirrors the chain at the record level.
    let p = tree.parent_of(goon.get()).unwrap();
    assert_eq!(p.path.as_str(), "/mob");
}

#[test]
fn string_parent_type_overrides_lexical_default() {
    let mut tree = ObjectTree::new();
    tree.register_builtins();
    tree.add_entry(loc(1), &segs(&["marker"]), 2, docs(), suffix()).unwrap();
    tree.add_var(
        loc(2),
        &segs(&["marker", "var", "parent_type"]),
        2,
        Expression::Literal(Constant::Str("/obj".to_string())),
        docs(),
        suffix(),
    )
    .unwrap();
    let mut ctx = Context::new();
    tree.finalize(&mut ctx, false);
    assert_eq!(ctx.errors.len(), 0);
    let marker = tree.find("/marker").unwrap();
    assert_eq!(marker.parent_type().unwrap().get().path.as_str(), "/obj");
}

#[test]
fn prefab_parent_type_resolves_by_segments() {
    let mut tree = ObjectTree::new();
    tree.register_builtins();
    tree.add_entry(loc(1), &segs(&["marker"]), 2, docs(), suffix()).unwrap();
    tree.add_var(
        loc(2),
        &segs(&["marker", "var", "parent_type"]),
        2,
        Expression::Literal(Constant::Prefab(Prefab {
            path: segs(&["atom", "movable"]),
            vars: Vec::new(),
        })),
        docs(),
        suffix(),
    )
    .unwrap();
    let mut ctx = Context::new();
    tree.finalize(&mut ctx, false);
    assert_eq!(ctx.errors.len(), 0);
    let marker = tree.find("/marker").unwrap();
    assert_eq!(marker.parent_type().unwrap().get().path.as_str(), "/atom/movable");
}

#[test]
fn bad_parent_type_value_falls_back_to_default() {
    let mut tree = ObjectTree::new();
    tree.register_builtins();
    tree.add_entry(loc(1), &segs(&["marker"]), 2, docs(), suffix()).unwrap();
    tree.add_var(
        loc(7),
        &segs(&["marker", "var", "parent_type"]),
        2,
        Expression::Literal(Constant::Int(5)),
        docs(),
        suffix(),
    )
    .unwrap();
    let mut ctx = Context::new();
    tree.finalize(&mut ctx, false);
    // The error is attributed to the variable's own site, and the type still
    // gets its lexical default: the root, for a top-level type.
    assert!(ctx.errors.iter().any(|e| e.kind == ErrorKind::BadParentTypeValue
        && e.location == loc(7)));
    let marker = tree.find("/marker").unwrap();
    assert!(marker.parent_type().unwrap().get().is_root());
}

#[test]
fn top_level_types_default_to_the_root() {
    let mut tree = ObjectTree::new();
    tree.register_builtins();
    tree.add_entry(loc(1), &segs(&["marker"]), 2, docs(), suffix()).unwrap();
    let mut ctx = Context::new();
    tree.finalize(&mut ctx, false);
    assert_eq!(ctx.errors.len(), 0);
    let marker = tree.find("/marker").unwrap();
    assert!(marker.parent_type().unwrap().get().is_root());
}

#[test]
fn parent_type_override_beats_hardcoded_parent() {
    let mut tree = ObjectTree::new();
    tree.register_builtins();
    tree.add_var(
        loc(2),
        &segs(&["obj", "var", "parent_type"]),
        2,
        Expression::Literal(Constant::Str("/datum".to_string())),
        docs(),
        suffix(),
    )
    .unwrap();
    let mut ctx = Context::new();
    tree.finalize(&mut ctx, false);
    assert_eq!(ctx.errors.len(), 0);
    let obj = tree.find("/obj").unwrap();
    assert_eq!(obj.parent_type().unwrap().get().path.as_str(), "/datum");
}

#[test]
fn unknown_parent_type_falls_back_to_root() {
    let mut tree = ObjectTree::new();
    tree.register_builtins();
    tree.add_entry(loc(1), &segs(&["marker"]), 2, docs(), suffix()).unwrap();
    tree.add_var(
        loc(2),
        &segs(&["marker", "var", "parent_type"]),
        2,
        Expression::Literal(Constant::Str("/nowhere".to_string())),
        docs(),
        suffix(),
    )
    .unwrap();
    let mut ctx = Context::new();
    tree.finalize(&mut ctx, false);
    assert!(ctx.errors.iter().any(|e| e.kind == ErrorKind::BadParentType));
    let marker = tree.find("/marker").unwrap();
    assert!(marker.parent_type().unwrap().get().is_root());
    // A type with a bogus parent override is a subtype only of the root and
    // of itself.
    assert!(marker.is_subtype_of(marker.get()));
    assert!(marker.is_subtype_of(tree.root().get()));
    let obj = tree.find("/obj").unwrap();
    assert!(!marker.is_subtype_of(obj.get()));
}

#[test]
fn subtype_is_reflexive_and_transitive() {
    let mut tree = ObjectTree::new();
    tree.register_builtins();
    tree.add_entry(loc(1), &segs(&["obj", "item", "weapon"]), 2, docs(), suffix()).unwrap();
    let mut ctx = Context::new();
    tree.finalize(&mut ctx, false);
    let weapon = tree.find("/obj/item/weapon").unwrap();
    let item = tree.find("/obj/item").unwrap();
    let obj = tree.find("/obj").unwrap();
    let atom = tree.find("/atom").unwrap();
    assert!(weapon.is_subtype_of(weapon.get()));
    assert!(weapon.is_subtype_of(item.get()));
    assert!(item.is_subtype_of(atom.get()));
    assert!(weapon.is_subtype_of(atom.get()));
    assert!(!atom.is_subtype_of(weapon.get()));
}

#[test]
fn values_and_declarations_inherit_from_ancestors() {
    let mut tree = ObjectTree::new();
    tree.register_builtins();
    tree.add_var(
        loc(3),
        &segs(&["obj", "var", "hp"]),
        2,
        Expression::Literal(Constant::Int(30)),
        docs(),
        suffix(),
    )
    .unwrap();
    tree.add_entry(loc(4), &segs(&["obj", "item"]), 2, docs(), suffix()).unwrap();
    let mut ctx = Context::new();
    tree.finalize(&mut ctx, false);
    let item = tree.find("/obj/item").unwrap();
    let v = item.get_value("hp").expect("inherited from /obj");
    assert_eq!(v.constant, Some(Constant::Int(30)));
    let d = item.get_var_declaration("hp").expect("declared on /obj");
    assert_eq!(d.location, loc(3));
    assert!(item.get_value("mana").is_none());
    assert!(item.get_var_declaration("mana").is_none());
}

#[test]
fn override_chain_walks_back_in_append_order() {
    let mut tree = ObjectTree::new();
    tree.register_builtins();
    tree.add_proc(loc(1), &segs(&["obj", "proc", "f"]), 2, Vec::new(), Code::Builtin).unwrap();
    tree.add_proc(loc(2), &segs(&["obj", "f"]), 2, Vec::new(), Code::Disabled).unwrap();
    tree.add_proc(loc(3), &segs(&["obj", "f"]), 2, Vec::new(), Code::Builtin).unwrap();
    tree.add_entry(loc(4), &segs(&["obj", "sub"]), 2, docs(), suffix()).unwrap();
    tree.add_proc(loc(5), &segs(&["obj", "sub", "f"]), 2, Vec::new(), Code::Builtin).unwrap();
    let mut ctx = Context::new();
    tree.finalize(&mut ctx, false);
    let sub = tree.find("/obj/sub").unwrap();
    let p0 = sub.get_proc("f").expect("sub overrides f");
    assert_eq!(p0.ty().get().path.as_str(), "/obj/sub");
    assert_eq!(p0.index(), 0);
    assert_eq!(p0.name(), "f");
    assert_eq!(p0.get().location, loc(5));
    // Index 0 jumps to the ancestor's latest override...
    let p1 = p0.parent_proc().expect("inherited from /obj");
    assert_eq!(p1.ty().get().path.as_str(), "/obj");
    assert_eq!(p1.index(), 2);
    assert_eq!(p1.get().location, loc(3));
    // ...and within one type each step goes one redeclaration back.
    let p2 = p1.parent_proc().unwrap();
    assert_eq!(p2.index(), 1);
    assert_eq!(p2.get().location, loc(2));
    let p3 = p2.parent_proc().unwrap();
    assert_eq!(p3.index(), 0);
    assert_eq!(p3.get().location, loc(1));
    // Above /obj no ancestor declares f.
    assert!(p3.parent_proc().is_none());
    // The nearest declaration record comes from /obj's first occurrence.
    let d = sub.get_proc_declaration("f").unwrap();
    assert_eq!(d.location, loc(1));
}

#[test]
fn iter_self_procs_lists_every_override() {
    let mut tree = ObjectTree::new();
    tree.add_proc(loc(1), &segs(&["obj", "proc", "f"]), 2, Vec::new(), Code::Builtin).unwrap();
    tree.add_proc(loc(2), &segs(&["obj", "f"]), 2, Vec::new(), Code::Builtin).unwrap();
    tree.add_proc(loc(3), &segs(&["obj", "proc", "g"]), 2, Vec::new(), Code::Builtin).unwrap();
    let obj = tree.find("/obj").unwrap();
    let all: Vec<(String, usize)> =
        obj.iter_self_procs().iter().map(|p| (p.name().to_string(), p.index())).collect();
    assert_eq!(
        all,
        vec![("f".to_string(), 0), ("f".to_string(), 1), ("g".to_string(), 0)],
    );
}

#[test]
fn type_by_path_walks_segments_with_list_shortcut() {
    let mut tree = ObjectTree::new();
    tree.register_builtins();
    tree.add_entry(loc(1), &segs(&["obj", "item"]), 2, docs(), suffix()).unwrap();
    let item = tree.type_by_path(&segs(&["obj", "item"])).unwrap();
    assert_eq!(item.get().path.as_str(), "/obj/item");
    assert!(tree.type_by_path(&segs(&["obj", "sword"])).is_none());
    let (exact, stop) = tree.type_by_path_approx(&segs(&["obj", "sword"]));
    assert!(!exact);
    assert_eq!(stop.get().path.as_str(), "/obj");
    // Any lookup under list/ is list/ itself.
    let (exact, l) = tree.type_by_path_approx(&segs(&["list", "anything", "at", "all"]));
    assert!(exact);
    assert_eq!(l.get().path.as_str(), "/list");
}

#[test]
fn type_by_constant_accepts_paths_and_prefabs() {
    let mut tree = ObjectTree::new();
    tree.register_builtins();
    let by_string = tree.type_by_constant(&Constant::Str("/obj".to_string())).unwrap();
    assert_eq!(by_string.get().path.as_str(), "/obj");
    let by_prefab = tree
        .type_by_constant(&Constant::Prefab(Prefab { path: segs(&["mob"]), vars: Vec::new() }))
        .unwrap();
    assert_eq!(by_prefab.get().path.as_str(), "/mob");
    assert!(tree.type_by_constant(&Constant::Int(3)).is_none());
    assert!(tree.type_by_constant(&Constant::Str("/gone".to_string())).is_none());
}

#[test]
fn visit_parent_types_follows_semantic_chain() {
    let mut tree = ObjectTree::new();
    tree.register_builtins();
    tree.add_entry(loc(1), &segs(&["obj", "item"]), 2, docs(), suffix()).unwrap();
    let mut ctx = Context::new();
    tree.finalize(&mut ctx, false);
    let item = tree.find("/obj/item").unwrap();
    let walk: Vec<String> =
        item.visit_parent_types().iter().map(|t| t.get().path.as_str().to_string()).collect();
    assert_eq!(
        walk,
        vec!["/obj/item", "/obj", "/atom/movable", "/atom", "/datum", ""],
    );
}

#[test]
fn relative_first_operator_starts_at_self() {
    let mut tree = ObjectTree::new();
    tree.add_entry(loc(1), &segs(&["obj", "item", "weapon"]), 2, docs(), suffix()).unwrap();
    tree.add_entry(loc(2), &segs(&["obj", "gadget"]), 2, docs(), suffix()).unwrap();
    let weapon = tree.find("/obj/item/weapon").unwrap();
    let found = weapon.navigate_path(&pieces(&[(PathOp::Dot, "gadget")])).unwrap();
    assert_eq!(found.get().path.as_str(), "/obj/gadget");
    let nested = weapon
        .navigate_path(&pieces(&[(PathOp::Dot, "item"), (PathOp::Slash, "weapon")]))
        .unwrap();
    assert_eq!(nested.get().path.as_str(), "/obj/item/weapon");
    assert!(weapon.navigate_path(&pieces(&[(PathOp::Dot, "absent")])).is_none());
}

#[test]
fn empty_navigation_path_stays_put() {
    let mut tree = ObjectTree::new();
    tree.add_entry(loc(1), &segs(&["obj"]), 2, docs(), suffix()).unwrap();
    let obj = tree.find("/obj").unwrap();
    let same = obj.navigate_path(&pieces(&[])).unwrap();
    assert_eq!(same.get().path.as_str(), "/obj");
}
