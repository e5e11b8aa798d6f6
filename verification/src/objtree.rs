//! The object tree: an arena of type nodes linked by lexical child edges,
//! built incrementally from path fragments and finalized once.
//!
//! Nodes live in a vector and are addressed by stable integer handles; the
//! parent-to-child edges live in a `petgraph` graph whose node indices match
//! the arena (see `edges`).  Every non-root node's path is its lexical
//! parent's path plus `/` plus its name, paths are unique, and each node's
//! variables and procedures sit in insertion-ordered tables.

use vstd::prelude::*;
use vstd::string::*;
use petgraph::graph::Graph;
use crate::ast::{same_constant, Constant, DocCollection, Expression, Location, Parameter, Statement, VarSuffix, VarType};
use crate::diag::{Context, DMError, ErrorKind};
use crate::edges::{graph_add_edge, graph_add_node, graph_children, graph_children_of, graph_edge_count, graph_new, graph_node_count, graph_parent_of};
use crate::strutil::{child_path, is_prefix, joined, lemma_lex_total, lex_leq, lex_lt, no_slash, push_segment, str_eq, str_lt};
use crate::table::Table;

verus! {

// ---------------------------------------------------------------------------
// Variable and procedure records

/// The declaring occurrence of a variable: its static type annotation and
/// where the `var` keyword stood.
#[derive(Debug)]
pub struct VarDeclaration {
    pub var_type: VarType,
    pub location: Location,
}

/// The value side of a variable slot: the latest syntactic initializer and,
/// after finalization, the evaluated constant.
#[derive(Debug)]
pub struct VarValue {
    pub location: Location,
    /// Syntactic value, as specified in the source.
    pub expression: Option<Expression>,
    /// Evaluated value, populated once during finalization.
    pub constant: Option<Constant>,
    /// Guards constant evaluation against re-entering itself.
    pub being_evaluated: bool,
    pub docs: DocCollection,
}

/// A variable slot: a value, and the declaration when this type is the
/// declaring occurrence rather than an override.
#[derive(Debug)]
pub struct TypeVar {
    pub value: VarValue,
    pub declaration: Option<VarDeclaration>,
}

/// The declaring occurrence of a procedure: where it stood and whether it
/// was declared `verb` rather than `proc`.
#[derive(Debug)]
pub struct ProcDeclaration {
    pub location: Location,
    pub is_verb: bool,
}

/// One textual (re)declaration of a procedure.
#[derive(Debug)]
pub struct ProcValue {
    pub location: Location,
    pub parameters: Vec<Parameter>,
    pub docs: DocCollection,
    pub code: Code,
}

/// What a procedure body holds.
#[derive(Debug)]
pub enum Code {
    /// A parsed statement list.
    Present(Vec<Statement>),
    /// A body whose parse failed, with the error.
    Invalid(DMError),
    /// A built-in with no body of its own.
    Builtin,
    /// A body stripped from this build.
    Disabled,
}

/// A procedure slot: every redeclaration under one type in order, index 0
/// earliest, plus the declaration set by the first `proc`/`verb` occurrence.
#[derive(Debug)]
pub struct TypeProc {
    pub value: Vec<ProcValue>,
    pub declaration: Option<ProcDeclaration>,
}

// ---------------------------------------------------------------------------
// Type nodes

/// One type node: identity, source attribution, variables, procedures and
/// the semantic parent resolved at finalization.
pub struct Type {
    /// The last path segment; empty for the root.
    pub name: String,
    /// The full path, e.g. `/obj/item/weapon`; empty for the root.
    pub path: String,
    pub location: Location,
    /// Smaller is more specific; the node keeps the location of its most
    /// specific source occurrence.
    pub location_specificity: usize,
    pub vars: Table<TypeVar>,
    pub procs: Table<TypeProc>,
    /// The semantic parent handle, populated by finalization; always absent
    /// on the root.
    pub parent_type_idx: Option<usize>,
    pub docs: DocCollection,
}

impl Type {
    /// The tables are well formed and every procedure slot holds at least
    /// one value.
    pub open spec fn wf(self) -> bool {
        &&& self.vars.wf()
        &&& self.procs.wf()
        &&& forall|k: int|
            0 <= k < self.procs.slots@.len() ==> (#[trigger] self.procs.slots@[k]).value@.len()
                >= 1
    }

    /// The resolved semantic parent handle, absent for the root.
    pub fn parent_type(&self) -> (r: Option<usize>)
        ensures
            r == self.parent_type_idx,
    {
        self.parent_type_idx
    }

    /// Checks whether this node is the root node, on which global vars and
    /// procs reside.
    pub fn is_root(&self) -> (r: bool)
        ensures
            r == (self.path@.len() == 0),
    {
        self.path.as_str().is_empty()
    }

    /// The path, or `(global)` for the root, whose own path is empty.
    pub fn pretty_path(&self) -> (r: &str)
        ensures
            self.path@.len() == 0 ==> r@ == "(global)"@,
            self.path@.len() != 0 ==> r@ == self.path@,
    {
        if self.path.as_str().is_empty() {
            "(global)"
        } else {
            self.path.as_str()
        }
    }

    /// Checks whether this type's path is a subpath of the given path.
    pub fn is_subpath_of(&self, parent: &str) -> (r: bool)
        requires
            parent@.len() >= 1,
        ensures
            r == subpath_spec(self.path@, parent@),
    {
        subpath(self.path.as_str(), parent)
    }
}

/// Holds when `path` names `parent` itself (without its trailing slash) or
/// any type nested under it.
pub open spec fn subpath_spec(path: Seq<char>, parent: Seq<char>) -> bool {
    path == parent.drop_last() || is_prefix(parent, path)
}

/// Checks whether `path` equals `parent` minus its trailing slash, or starts
/// with `parent`; `parent` is slash-terminated, e.g. `/obj/`.
pub fn subpath(path: &str, parent: &str) -> (r: bool)
    requires
        parent@.len() >= 1,
    ensures
        r == subpath_spec(path@, parent@),
{
    let trimmed = parent.substring_char(0, parent.unicode_len() - 1);
    if str_eq(path, trimmed) {
        true
    } else {
        crate::strutil::str_has_prefix(path, parent)
    }
}

// ---------------------------------------------------------------------------
// Declaration classifiers

/// Holds when a segment is the variable declaration keyword.
pub open spec fn is_var_decl_spec(s: Seq<char>) -> bool {
    s == "var"@
}

/// Holds when a segment is a procedure declaration keyword.
pub open spec fn is_proc_decl_spec(s: Seq<char>) -> bool {
    s == "proc"@ || s == "verb"@
}

/// Holds when a segment is any declaration keyword.
pub open spec fn is_decl_spec(s: Seq<char>) -> bool {
    is_var_decl_spec(s) || is_proc_decl_spec(s)
}

/// Checks for the variable declaration keyword.
pub fn is_var_decl(s: &str) -> (r: bool)
    ensures
        r == is_var_decl_spec(s@),
{
    str_eq(s, "var")
}

/// Checks for a procedure declaration keyword.
pub fn is_proc_decl(s: &str) -> (r: bool)
    ensures
        r == is_proc_decl_spec(s@),
{
    str_eq(s, "proc") || str_eq(s, "verb")
}

/// Checks for any declaration keyword.
pub fn is_decl(s: &str) -> (r: bool)
    ensures
        r == is_decl_spec(s@),
{
    is_var_decl(s) || is_proc_decl(s)
}

// ---------------------------------------------------------------------------
// The tree

/// The object tree: the node arena and the lexical child edges.
pub struct ObjectTree {
    /// The lexical edges; node indices match `nodes`.
    pub graph: Graph<(), ()>,
    /// The node arena; handle 0 is the root.
    pub nodes: Vec<Type>,
}

/// The location and specificity a node keeps after one more occurrence is
/// registered: the new pair wins only when strictly more specific (smaller).
pub open spec fn more_specific(
    cur_loc: Location,
    cur_spec: usize,
    new_loc: Location,
    new_spec: usize,
) -> (Location, usize) {
    if new_spec < cur_spec {
        (new_loc, new_spec)
    } else {
        (cur_loc, cur_spec)
    }
}

impl ObjectTree {
    /// How many nodes the arena holds.
    pub open spec fn node_count(self) -> int {
        self.nodes@.len() as int
    }

    /// The node behind a handle.
    pub open spec fn node(self, i: int) -> Type {
        self.nodes@[i]
    }

    /// The children of node `i`, in declaration order.
    pub open spec fn children(self, i: int) -> Seq<int> {
        graph_children(self.graph)[i]
    }

    /// Holds when node `j` is the `k`-th child of node `i`.
    pub open spec fn is_child_at(self, i: int, k: int, j: int) -> bool {
        &&& 0 <= i < self.node_count()
        &&& 0 <= k < self.children(i).len()
        &&& self.children(i)[k] == j
    }

    /// Holds when some node lists `j` as a child.
    pub open spec fn has_lex_parent(self, j: int) -> bool {
        exists|i: int, k: int| self.is_child_at(i, k, j)
    }

    /// The lexical parent of `j`: the node listing `j` as a child.
    pub open spec fn lex_parent(self, j: int) -> int {
        (choose|i: int, k: int| self.is_child_at(i, k, j)).0
    }

    /// The edge side of well-formedness: the graph covers exactly the arena,
    /// every child handle is above its parent and below the node count, no
    /// node is anyone's child twice, and every non-root node is somebody's
    /// child.
    pub open spec fn edges_wf(self) -> bool {
        &&& graph_node_count(self.graph) == self.node_count()
        &&& graph_edge_count(self.graph) == self.node_count() - 1
        &&& forall|i: int|
            0 <= i < self.node_count() ==> graph_children(self.graph).contains_key(i)
        &&& forall|i: int|
            #[trigger] graph_children(self.graph).contains_key(i) ==> 0 <= i
                < self.node_count()
        &&& forall|i: int, k: int|
            #![trigger self.children(i)[k]]
            0 <= i < self.node_count() && 0 <= k < self.children(i).len() ==> i < self.children(
                i,
            )[k] < self.node_count()
        &&& forall|i1: int, k1: int, i2: int, k2: int, j: int|
            #![trigger self.is_child_at(i1, k1, j), self.is_child_at(i2, k2, j)]
            self.is_child_at(i1, k1, j) && self.is_child_at(i2, k2, j) ==> i1 == i2 && k1 == k2
        &&& forall|j: int| 1 <= j < self.node_count() ==> #[trigger] self.has_lex_parent(j)
    }

    /// The node side of well-formedness: the root is blank, every resolved
    /// semantic parent handle is in range, every child's path extends its
    /// parent's by a slash-free name, and paths are unique.
    pub open spec fn nodes_wf(self) -> bool {
        &&& 1 <= self.node_count() < 0xffff_fffe
        &&& self.node(0).name@.len() == 0
        &&& self.node(0).path@.len() == 0
        &&& self.node(0).parent_type_idx is None
        &&& forall|i: int| 0 <= i < self.node_count() ==> (#[trigger] self.node(i)).wf()
        &&& forall|i: int|
            0 <= i < self.node_count() ==> ((#[trigger] self.node(i)).parent_type_idx matches Some(
                p,
            ) ==> 0 <= p < self.node_count())
        &&& forall|i: int, k: int|
            #![trigger self.children(i)[k]]
            0 <= i < self.node_count() && 0 <= k < self.children(i).len() ==> self.node(
                self.children(i)[k],
            ).path@ == child_path(self.node(i).path@, self.node(self.children(i)[k]).name@)
                && no_slash(self.node(self.children(i)[k]).name@)
        &&& forall|i: int, j: int|
            0 <= i < j < self.node_count() ==> self.node(i).path@ != self.node(j).path@
        &&& forall|i: int| 1 <= i < self.node_count() ==> (#[trigger] self.node(i)).path@.len() > 0
    }

    /// Full well-formedness.
    pub open spec fn wf(self) -> bool {
        self.edges_wf() && self.nodes_wf()
    }

    /// Holds when some non-root node carries this path.
    pub open spec fn has_path(self, path: Seq<char>) -> bool {
        exists|i: int| 1 <= i < self.node_count() && (#[trigger] self.node(i)).path@ == path
    }

    /// The handle of the node carrying a registered path.
    pub open spec fn path_index(self, path: Seq<char>) -> int {
        choose|i: int| 1 <= i < self.node_count() && (#[trigger] self.node(i)).path@ == path
    }

    /// Holds when node `i` has a child named `name`.
    pub open spec fn has_child_named(self, i: int, name: Seq<char>) -> bool {
        exists|k: int|
            0 <= k < self.children(i).len() && self.node(
                #[trigger] self.children(i)[k],
            ).name@ == name
    }

    /// The child of `i` named `name`.
    pub open spec fn child_named(self, i: int, name: Seq<char>) -> int {
        self.children(i)[choose|k: int|
            0 <= k < self.children(i).len() && self.node(self.children(i)[k]).name@ == name]
    }

    /// Two distinct child positions under one parent carry distinct names.
    pub proof fn lemma_sibling_names_unique(self, i: int, k1: int, k2: int)
        requires
            self.wf(),
            0 <= i < self.node_count(),
            0 <= k1 < self.children(i).len(),
            0 <= k2 < self.children(i).len(),
            k1 != k2,
        ensures
            self.node(self.children(i)[k1]).name@ != self.node(self.children(i)[k2]).name@,
    {
        let c1 = self.children(i)[k1];
        let c2 = self.children(i)[k2];
        assert(self.is_child_at(i, k1, c1));
        assert(self.is_child_at(i, k2, c2));
        if c1 == c2 {
            assert(self.is_child_at(i, k1, c1) && self.is_child_at(i, k2, c1));
            assert(false);
        }
        if self.node(c1).name@ == self.node(c2).name@ {
            assert(self.node(c1).path@ == self.node(c2).path@);
            assert(false);
        }
    }

    /// An empty tree: the root node alone.
    pub fn new() -> (r: ObjectTree)
        ensures
            r.wf(),
            r.node_count() == 1,
            r.node(0).vars.spec_len() == 0,
            r.node(0).procs.spec_len() == 0,
            r.node(0).location_specificity == 0,
            r.node(0).docs.elems@.len() == 0,
            r.children(0).len() == 0,
            forall|p: Seq<char>| !(#[trigger] r.has_path(p)),
    {
        let mut graph = graph_new();
        let root_idx = graph_add_node(&mut graph);
        let nodes = vec![Type {
            name: String::new(),
            path: String::new(),
            location: Location { file: 0, line: 0, column: 0 },
            location_specificity: 0,
            vars: Table::new(),
            procs: Table::new(),
            parent_type_idx: None,
            docs: DocCollection::new(),
        }];
        ObjectTree { graph, nodes }
    }

    /// The handle of the direct child of `parent` named `name`, if any.
    pub fn child_of(&self, parent: usize, name: &str) -> (r: Option<usize>)
        requires
            self.wf(),
            parent < self.node_count(),
        ensures
            match r {
                Some(c) => self.has_child_named(parent as int, name@) && c == self.child_named(
                    parent as int,
                    name@,
                ) && parent < c < self.node_count() && self.node(c as int).name@ == name@,
                None => !self.has_child_named(parent as int, name@),
            },
    {
        let kids = graph_children_of(&self.graph, parent);
        let ghost cs = self.children(parent as int);
        proof {
            assert(kids@.map_values(|x: usize| x as int).len() == kids@.len());
            assert(cs.reverse().len() == cs.len());
            assert(kids@.len() == cs.len());
        }
        let mut m: usize = 0;
        while m < kids.len()
            invariant
                self.wf(),
                parent < self.node_count(),
                m <= kids@.len(),
                kids@.map_values(|x: usize| x as int) == cs.reverse(),
                kids@.len() == cs.len(),
                cs == self.children(parent as int),
                forall|x: int|
                    0 <= x < m ==> self.node(#[trigger] cs[cs.len() - 1 - x]).name@ != name@,
            decreases kids@.len() - m,
        {
            let c = kids[m];
            proof {
                assert(cs.len() > 0);
                assert(kids@.map_values(|x: usize| x as int)[m as int] == kids@[m as int] as int);
                assert(cs.reverse()[m as int] == cs[cs.len() - 1 - m]);
                assert(c as int == cs[cs.len() - 1 - m]);
                assert(self.is_child_at(parent as int, cs.len() - 1 - m, c as int));
            }
            if str_eq(self.nodes[c].name.as_str(), name) {
                proof {
                    let ghost kk = cs.len() - 1 - m;
                    assert(0 <= kk < cs.len() && self.node(cs[kk]).name@ == name@);
                    assert(self.has_child_named(parent as int, name@));
                    let k2 = choose|k: int|
                        0 <= k < self.children(parent as int).len() && self.node(
                            self.children(parent as int)[k],
                        ).name@ == name@;
                    if k2 != kk {
                        self.lemma_sibling_names_unique(parent as int, k2, kk);
                    }
                    assert(self.child_named(parent as int, name@) == c as int);
                }
                return Some(c);
            }
            m += 1;
        }
        proof {
            if self.has_child_named(parent as int, name@) {
                let k = choose|k: int|
                    0 <= k < self.children(parent as int).len() && self.node(
                        self.children(parent as int)[k],
                    ).name@ == name@;
                let x = cs.len() - 1 - k;
                assert(0 <= x < m);
                assert(cs[cs.len() - 1 - x] == cs[k]);
                assert(self.node(#[trigger] cs[cs.len() - 1 - x]).name@ != name@);
                assert(false);
            }
        }
        None
    }

    /// Finds or creates the child of `parent` named `child`.  An existing
    /// node keeps its content but adopts the new location when the new
    /// occurrence is more specific; a fresh node is linked, its path is its
    /// parent's path plus `/child`, and its handle is the old node count.
    pub fn subtype_or_add(
        &mut self,
        location: Location,
        parent: usize,
        child: &str,
        specificity: usize,
    ) -> (r: usize)
        requires
            old(self).wf(),
            parent < old(self).node_count(),
            no_slash(child@),
            old(self).node_count() < 0xffff_fffe - 1,
        ensures
            final(self).wf(),
            parent < r < final(self).node_count(),
            final(self).node(r as int).name@ == child@,
            final(self).node(r as int).path@ == child_path(
                old(self).node(parent as int).path@,
                child@,
            ),
            final(self).has_child_named(parent as int, child@),
            old(self).has_child_named(parent as int, child@) ==> {
                &&& r == old(self).child_named(parent as int, child@)
                &&& final(self).node_count() == old(self).node_count()
                &&& final(self).graph == old(self).graph
                &&& forall|i: int|
                    0 <= i < old(self).node_count() && i != r ==> final(self).node(i) == old(
                        self,
                    ).node(i)
                &&& unchanged_but_location(old(self).node(r as int), final(self).node(r as int))
                &&& (
                final(self).node(r as int).location,
                final(self).node(r as int).location_specificity,
                ) == more_specific(
                    old(self).node(r as int).location,
                    old(self).node(r as int).location_specificity,
                    location,
                    specificity,
                )
            },
            !old(self).has_child_named(parent as int, child@) ==> {
                &&& r == old(self).node_count()
                &&& final(self).node_count() == old(self).node_count() + 1
                &&& forall|i: int|
                    0 <= i < old(self).node_count() ==> final(self).node(i) == old(self).node(i)
                &&& final(self).node(r as int).location == location
                &&& final(self).node(r as int).location_specificity == specificity
                &&& final(self).node(r as int).vars.spec_len() == 0
                &&& final(self).node(r as int).procs.spec_len() == 0
                &&& final(self).node(r as int).parent_type_idx is None
                &&& final(self).node(r as int).docs.elems@.len() == 0
                &&& final(self).children(parent as int) == old(self).children(
                    parent as int,
                ).push(r as int)
                &&& final(self).children(r as int).len() == 0
                &&& forall|i: int|
                    0 <= i < old(self).node_count() && i != parent ==> final(self).children(i)
                        == old(self).children(i)
            },
    {
        match self.child_of(parent, child) {
            Some(c) => {
                if specificity < self.nodes[c].location_specificity {
                    self.nodes[c].location_specificity = specificity;
                    self.nodes[c].location = location;
                }
                proof {
                    assert(final_eq_frame(*old(self), *self, c as int));
                    ObjectTree::lemma_wf_location_refine(*old(self), *self, c as int);
                    assert(self.has_child_named(parent as int, child@)) by {
                        let k = choose|k: int|
                            0 <= k < old(self).children(parent as int).len() && old(self).node(
                                old(self).children(parent as int)[k],
                            ).name@ == child@;
                        assert(self.children(parent as int) == old(self).children(parent as int));
                        assert(0 <= k < self.children(parent as int).len());
                        assert(self.node(self.children(parent as int)[k]).name@ == child@);
                    }
                }
                c
            },
            None => {
                let idx = graph_add_node(&mut self.graph);
                let mut path = self.nodes[parent].path.clone();
                push_segment(&mut path, child);
                let name = child.to_owned();
                self.nodes.push(
                    Type {
                        name,
                        path,
                        location,
                        location_specificity: specificity,
                        vars: Table::new(),
                        procs: Table::new(),
                        parent_type_idx: None,
                        docs: DocCollection::new(),
                    },
                );
                graph_add_edge(&mut self.graph, parent, idx);
                proof {
                    self.lemma_creation_wf(*old(self), parent as int, idx as int, child@);
                    assert(self.is_child_at(
                        parent as int,
                        self.children(parent as int).len() - 1,
                        idx as int,
                    ));
                    assert(self.node(idx as int).name@ == child@);
                    assert(self.has_child_named(parent as int, child@));
                }
                idx
            },
        }
    }

    /// Well-formedness survives a change to one node's location fields.
    proof fn lemma_wf_location_refine(a: ObjectTree, b: ObjectTree, c: int)
        requires
            a.wf(),
            0 <= c < a.node_count(),
            final_eq_frame(a, b, c),
        ensures
            b.wf(),
    {
        assert(graph_children(b.graph) == graph_children(a.graph));
        assert(graph_node_count(b.graph) == graph_node_count(a.graph));
        assert(graph_edge_count(b.graph) == graph_edge_count(a.graph));
        assert forall|i: int|
            0 <= i < b.node_count() implies b.node(i).path@ == a.node(i).path@ && b.node(
            i,
        ).name@ == a.node(i).name@ && (#[trigger] b.node(i)).parent_type_idx == a.node(
            i,
        ).parent_type_idx by {
            if i != c {
                assert(b.node(i) == a.node(i));
            }
        }
        assert forall|j: int| 1 <= j < b.node_count() implies #[trigger] b.has_lex_parent(j) by {
            assert(a.has_lex_parent(j));
            let (i, k) = choose|i: int, k: int| a.is_child_at(i, k, j);
            assert(b.is_child_at(i, k, j));
        }
        assert forall|i: int| 0 <= i < b.node_count() implies (#[trigger] b.node(i)).wf() by {
            assert(a.node(i).wf());
            if i == c {
                assert(b.node(c).vars == a.node(c).vars);
                assert(b.node(c).procs == a.node(c).procs);
            }
        }
        assert forall|i: int, k: int|
            #![trigger b.children(i)[k]]
            0 <= i < b.node_count() && 0 <= k < b.children(i).len() implies b.node(
            b.children(i)[k],
        ).path@ == child_path(b.node(i).path@, b.node(b.children(i)[k]).name@) && no_slash(
            b.node(b.children(i)[k]).name@,
        ) by {
            assert(a.children(i)[k] == b.children(i)[k]);
            assert(a.node(a.children(i)[k]).path@ == child_path(
                a.node(i).path@,
                a.node(a.children(i)[k]).name@,
            ));
        }
        assert forall|i: int, j: int| 0 <= i < j < b.node_count() implies b.node(i).path@
            != b.node(j).path@ by {
            assert(a.node(i).path@ != a.node(j).path@);
        }
        assert forall|i1: int, k1: int, i2: int, k2: int, j: int|
            b.is_child_at(i1, k1, j) && b.is_child_at(i2, k2, j) implies i1 == i2 && k1
            == k2 by {
            assert(a.is_child_at(i1, k1, j) && a.is_child_at(i2, k2, j));
        }
        assert forall|i: int, k: int|
            #![trigger b.children(i)[k]]
            0 <= i < b.node_count() && 0 <= k < b.children(i).len() implies i < b.children(i)[k]
            < b.node_count() by {
            assert(a.children(i) == b.children(i));
        }
        assert forall|i: int| 1 <= i < b.node_count() implies (#[trigger] b.node(
            i,
        )).path@.len() > 0 by {
            assert(a.node(i).path@.len() > 0);
        }
    }

    /// Re-establishes well-formedness after a fresh child is linked.
    proof fn lemma_creation_wf(self, prev: ObjectTree, parent: int, idx: int, name: Seq<char>)
        requires
            prev.wf(),
            0 <= parent < prev.node_count(),
            !prev.has_child_named(parent, name),
            no_slash(name),
            prev.node_count() < 0xffff_fffe - 1,
            idx == prev.node_count(),
            self.node_count() == prev.node_count() + 1,
            graph_node_count(self.graph) == prev.node_count() + 1,
            graph_edge_count(self.graph) == graph_edge_count(prev.graph) + 1,
            graph_edge_count(prev.graph) == prev.node_count() - 1,
            graph_children(self.graph) == graph_children(prev.graph).insert(
                idx,
                Seq::empty(),
            ).insert(parent, graph_children(prev.graph)[parent].push(idx)),
            forall|i: int| 0 <= i < prev.node_count() ==> self.node(i) == prev.node(i),
            self.node(idx).name@ == name,
            self.node(idx).path@ == child_path(prev.node(parent).path@, name),
            self.node(idx).parent_type_idx is None,
            self.node(idx).wf(),
        ensures
            self.wf(),
            self.children(parent) == prev.children(parent).push(idx),
            self.children(idx).len() == 0,
            forall|i: int|
                0 <= i < prev.node_count() && i != parent ==> self.children(i) == prev.children(i),
    {
        assert forall|i: int| 0 <= i < self.node_count() implies graph_children(
            self.graph,
        ).contains_key(i) by {}
        assert forall|i: int| #[trigger]
            graph_children(self.graph).contains_key(i) implies 0 <= i
            < self.node_count() by {
            if i != idx && i != parent {
                assert(graph_children(prev.graph).contains_key(i));
            }
        }
        assert(self.children(parent) =~= prev.children(parent).push(idx));
        assert forall|i: int|
            0 <= i < prev.node_count() && i != parent implies self.children(i) == prev.children(
            i,
        ) by {}
        // Child handles stay in range and above their parents.
        assert forall|i: int, k: int|
            0 <= i < self.node_count() && 0 <= k < self.children(i).len() implies i
            < #[trigger] self.children(i)[k] < self.node_count() by {
            if i == parent && k == self.children(parent).len() - 1 {
            } else {
                assert(prev.children(i)[k] == self.children(i)[k]);
            }
        }
        // No node is anyone's child twice.
        assert forall|i1: int, k1: int, i2: int, k2: int, j: int|
            self.is_child_at(i1, k1, j) && self.is_child_at(i2, k2, j) implies i1 == i2 && k1
            == k2 by {
            if prev.is_child_at(i1, k1, j) && prev.is_child_at(i2, k2, j) {
            } else {
                if self.is_child_at(i1, k1, j) && !prev.is_child_at(i1, k1, j) {
                    assert(i1 == parent && k1 == self.children(parent).len() - 1 && j == idx);
                }
                if self.is_child_at(i2, k2, j) && !prev.is_child_at(i2, k2, j) {
                    assert(i2 == parent && k2 == self.children(parent).len() - 1 && j == idx);
                }
                if prev.is_child_at(i1, k1, idx) {
                    assert(idx < prev.node_count());
                    assert(false);
                }
                if prev.is_child_at(i2, k2, idx) {
                    assert(idx < prev.node_count());
                    assert(false);
                }
            }
        }
        // Every non-root node has a lexical parent.
        assert forall|j: int| 1 <= j < self.node_count() implies #[trigger] self.has_lex_parent(
            j,
        ) by {
            if j < prev.node_count() {
                assert(prev.has_lex_parent(j));
                let (i, k) = choose|i: int, k: int| prev.is_child_at(i, k, j);
                assert(self.is_child_at(i, k, j));
            } else {
                assert(self.is_child_at(parent, self.children(parent).len() - 1, idx));
            }
        }
        // Node records are individually well formed.
        assert forall|i: int| 0 <= i < self.node_count() implies (#[trigger] self.node(
            i,
        )).wf() by {
            if i < prev.node_count() {
                assert(prev.node(i).wf());
            }
        }
        assert forall|i: int|
            0 <= i < self.node_count() implies ((#[trigger] self.node(i)).parent_type_idx
            matches Some(p) ==> 0 <= p < self.node_count()) by {
            if i < prev.node_count() {
                assert(prev.node(i).parent_type_idx matches Some(p) ==> 0 <= p
                    < prev.node_count());
            }
        }
        // Paths of children extend their parents' paths.
        assert forall|i: int, k: int|
            #![trigger self.children(i)[k]]
            0 <= i < self.node_count() && 0 <= k < self.children(i).len() implies self.node(
            self.children(i)[k],
        ).path@ == child_path(self.node(i).path@, self.node(self.children(i)[k]).name@)
            && no_slash(self.node(self.children(i)[k]).name@) by {
            if i == parent && k == self.children(parent).len() - 1 {
                assert(self.children(i)[k] == idx);
            } else {
                assert(prev.children(i)[k] == self.children(i)[k]);
            }
        }
        // The fresh path collides with no existing one.
        assert forall|m: int| 0 <= m < prev.node_count() implies self.node(m).path@ != self.node(
            idx,
        ).path@ by {
            if self.node(m).path@ == self.node(idx).path@ {
                crate::strutil::lemma_child_path_nonempty(prev.node(parent).path@, name);
                assert(m != 0);
                assert(prev.has_lex_parent(m));
                let (i, k) = choose|i: int, k: int| prev.is_child_at(i, k, m);
                assert(prev.node(m).path@ == child_path(prev.node(i).path@, prev.node(m).name@));
                crate::strutil::lemma_child_path_injective(
                    prev.node(i).path@,
                    prev.node(m).name@,
                    prev.node(parent).path@,
                    name,
                );
                assert(prev.node(i).path@ == prev.node(parent).path@);
                assert(i == parent) by {
                    if i != parent {
                        assert(prev.node(i).path@ != prev.node(parent).path@);
                    }
                }
                assert(prev.has_child_named(parent, name));
                assert(false);
            }
        }
        assert forall|i: int, j: int| 0 <= i < j < self.node_count() implies self.node(
            i,
        ).path@ != self.node(j).path@ by {
            if j < prev.node_count() {
            } else {
            }
        }
    }
}

// ---------------------------------------------------------------------------
// The path walk and the registration entry points

/// The views of a sequence of segment strings.
pub open spec fn seg_views(v: Seq<String>) -> Seq<Seq<char>> {
    v.map_values(|s: String| s@)
}

/// The index of the first declaration keyword among the segments, or their
/// count when none occurs.
pub open spec fn first_decl_index(segs: Seq<Seq<char>>) -> int
    decreases segs.len(),
{
    if segs.len() == 0 {
        0
    } else if is_decl_spec(segs[0]) {
        0
    } else {
        1 + first_decl_index(segs.drop_first())
    }
}

/// Where the shared path walk stops: at the first declaration keyword, or at
/// the last segment.
pub open spec fn terminal_index(segs: Seq<Seq<char>>) -> int {
    if first_decl_index(segs) < segs.len() {
        first_decl_index(segs)
    } else {
        segs.len() - 1
    }
}

/// `first_decl_index` is in range, nothing before it is a keyword, and when
/// short of the end it lands on a keyword.
pub proof fn lemma_first_decl_index(segs: Seq<Seq<char>>)
    ensures
        0 <= first_decl_index(segs) <= segs.len(),
        forall|j: int| 0 <= j < first_decl_index(segs) ==> !is_decl_spec(#[trigger] segs[j]),
        first_decl_index(segs) < segs.len() ==> is_decl_spec(segs[first_decl_index(segs)]),
    decreases segs.len(),
{
    if segs.len() == 0 {
    } else if is_decl_spec(segs[0]) {
    } else {
        lemma_first_decl_index(segs.drop_first());
        assert forall|j: int| 0 <= j < first_decl_index(segs) implies !is_decl_spec(
            #[trigger] segs[j],
        ) by {
            if j > 0 {
                assert(segs.drop_first()[j - 1] == segs[j]);
            }
        }
        if first_decl_index(segs) < segs.len() {
            assert(segs.drop_first()[first_decl_index(segs.drop_first())] == segs[
                first_decl_index(segs)
            ]);
        }
    }
}

/// Holds when a segment is one of the variable qualifier keywords.
pub open spec fn is_qualifier(s: Seq<char>) -> bool {
    s == "global"@ || s == "static"@ || s == "tmp"@ || s == "const"@
}

/// The index of the first non-qualifier segment at or after `from`.
pub open spec fn qual_run(h: Seq<Seq<char>>, from: int) -> int
    decreases h.len() - from,
{
    if from < 0 || from >= h.len() {
        from
    } else if is_qualifier(h[from]) {
        qual_run(h, from + 1)
    } else {
        from
    }
}

/// `qual_run` moves forward over qualifiers only.
pub proof fn lemma_qual_run(h: Seq<Seq<char>>, from: int)
    requires
        0 <= from <= h.len(),
    ensures
        from <= qual_run(h, from) <= h.len(),
        forall|j: int| from <= j < qual_run(h, from) ==> is_qualifier(#[trigger] h[j]),
        qual_run(h, from) < h.len() ==> !is_qualifier(h[qual_run(h, from)]),
    decreases h.len() - from,
{
    if from < h.len() && is_qualifier(h[from]) {
        lemma_qual_run(h, from + 1);
    }
}

/// Whether the qualifier segments `h[1..qe]` carry each flag.
pub open spec fn header_is_static(h: Seq<Seq<char>>, qe: int) -> bool {
    exists|i: int| 1 <= i < qe && ((#[trigger] h[i]) == "global"@ || h[i] == "static"@)
}

/// Whether the qualifier segments carry `const`.
pub open spec fn header_is_const(h: Seq<Seq<char>>, qe: int) -> bool {
    exists|i: int| 1 <= i < qe && (#[trigger] h[i]) == "const"@
}

/// Whether the qualifier segments carry `tmp`.
pub open spec fn header_is_tmp(h: Seq<Seq<char>>, qe: int) -> bool {
    exists|i: int| 1 <= i < qe && (#[trigger] h[i]) == "tmp"@
}

/// Holds when the trees agree on node `x` everywhere but the named tables
/// and documentation, whose well-formedness is re-established separately.
pub open spec fn same_but_content(a: Type, b: Type) -> bool {
    &&& b.name == a.name
    &&& b.path == a.path
    &&& b.parent_type_idx == a.parent_type_idx
    &&& b.location == a.location
    &&& b.location_specificity == a.location_specificity
}

/// The frame a path walk leaves behind: old nodes keep everything but
/// possibly a more specific location, their child lists only grow at the
/// end, and fresh nodes start with empty tables.  Node `x` is exempt from
/// the content clauses so a terminal registration can follow.
pub open spec fn grown_except(
    a: ObjectTree,
    b: ObjectTree,
    loc: Location,
    spc: usize,
    x: int,
) -> bool {
    &&& a.node_count() <= b.node_count()
    &&& forall|i: int|
        0 <= i < a.node_count() && i != x ==> unchanged_but_location(
            a.node(i),
            #[trigger] b.node(i),
        )
    &&& forall|i: int|
        0 <= i < a.node_count() ==> ((#[trigger] b.node(i)).location,
        b.node(i).location_specificity) == (a.node(i).location, a.node(i).location_specificity)
            || (b.node(i).location, b.node(i).location_specificity) == more_specific(
            a.node(i).location,
            a.node(i).location_specificity,
            loc,
            spc,
        )
    &&& forall|i: int|
        0 <= i < a.node_count() ==> a.children(i).is_prefix_of(#[trigger] b.children(i))
    &&& forall|i: int|
        a.node_count() <= i < b.node_count() && i != x ==> (#[trigger] b.node(
            i,
        )).vars.spec_len() == 0 && b.node(i).procs.spec_len() == 0
}

/// The walk frame with no exempt node.
pub open spec fn grown(a: ObjectTree, b: ObjectTree, loc: Location, spc: usize) -> bool {
    grown_except(a, b, loc, spc, -1)
}

/// A tree satisfies the walk frame against itself.
pub proof fn lemma_grown_refl(a: ObjectTree, loc: Location, spc: usize)
    ensures
        grown(a, a, loc, spc),
{
    assert forall|i: int|
        0 <= i < a.node_count() implies a.children(i).is_prefix_of(
        #[trigger] a.children(i),
    ) by {
        assert(a.children(i) =~= a.children(i).subrange(0, a.children(i).len() as int));
    }
}

/// A walk followed by a content change at one node leaves the walk frame
/// with that node exempt.
pub proof fn lemma_grown_except_compose(
    a: ObjectTree,
    b: ObjectTree,
    c: ObjectTree,
    loc: Location,
    spc: usize,
    x: int,
)
    requires
        grown(a, b, loc, spc),
        c.node_count() == b.node_count(),
        c.graph == b.graph,
        forall|i: int| 0 <= i < b.node_count() && i != x ==> c.node(i) == b.node(i),
        0 <= x < c.node_count(),
        same_but_content(b.node(x), c.node(x)),
    ensures
        grown_except(a, c, loc, spc, x),
{
    assert forall|i: int|
        0 <= i < a.node_count() && i != x implies unchanged_but_location(
        a.node(i),
        #[trigger] c.node(i),
    ) by {
        assert(unchanged_but_location(a.node(i), b.node(i)));
        assert(c.node(i) == b.node(i));
    }
    assert forall|i: int|
        0 <= i < a.node_count() implies ((#[trigger] c.node(i)).location,
        c.node(i).location_specificity) == (a.node(i).location, a.node(i).location_specificity)
            || (c.node(i).location, c.node(i).location_specificity) == more_specific(
        a.node(i).location,
        a.node(i).location_specificity,
        loc,
        spc,
    ) by {
        if i != x {
            assert(c.node(i) == b.node(i));
        }
    }
    assert(graph_children(c.graph) == graph_children(b.graph));
    assert forall|i: int|
        0 <= i < a.node_count() implies a.children(i).is_prefix_of(
        #[trigger] c.children(i),
    ) by {
        assert(a.children(i).is_prefix_of(b.children(i)));
        assert(c.children(i) == b.children(i));
        assert(a.children(i) =~= c.children(i).subrange(0, a.children(i).len() as int));
    }
    assert forall|i: int|
        a.node_count() <= i < c.node_count() && i != x implies (#[trigger] c.node(
        i,
    )).vars.spec_len() == 0 && c.node(i).procs.spec_len() == 0 by {
        assert(c.node(i) == b.node(i));
        assert(b.node(i).vars.spec_len() == 0 && b.node(i).procs.spec_len() == 0);
    }
}

/// The walk frame composes.
pub proof fn lemma_grown_trans(a: ObjectTree, b: ObjectTree, c: ObjectTree, loc: Location, spc: usize)
    requires
        grown(a, b, loc, spc),
        grown(b, c, loc, spc),
    ensures
        grown(a, c, loc, spc),
{
    assert forall|i: int|
        0 <= i < a.node_count() && i != -1 implies unchanged_but_location(
        a.node(i),
        #[trigger] c.node(i),
    ) by {
        assert(unchanged_but_location(a.node(i), b.node(i)));
        assert(unchanged_but_location(b.node(i), c.node(i)));
    }
    assert forall|i: int|
        0 <= i < a.node_count() implies ((#[trigger] c.node(i)).location,
        c.node(i).location_specificity) == (a.node(i).location, a.node(i).location_specificity)
            || (c.node(i).location, c.node(i).location_specificity) == more_specific(
        a.node(i).location,
        a.node(i).location_specificity,
        loc,
        spc,
    ) by {}
    assert forall|i: int|
        0 <= i < a.node_count() implies a.children(i).is_prefix_of(
        #[trigger] c.children(i),
    ) by {
        let sa = a.children(i);
        let sb = b.children(i);
        let sc = c.children(i);
        assert(sa.is_prefix_of(sb));
        assert(sb.is_prefix_of(sc));
        assert(sa =~= sc.subrange(0, sa.len() as int)) by {
            assert(forall|x: int|
                0 <= x < sa.len() ==> sa[x] == sb[x] && #[trigger] sc.subrange(
                    0,
                    sa.len() as int,
                )[x] == sb[x]);
        }
    }
    assert forall|i: int|
        a.node_count() <= i < c.node_count() && i != -1 implies (#[trigger] c.node(
        i,
    )).vars.spec_len() == 0 && c.node(i).procs.spec_len() == 0 by {
        if i < b.node_count() {
            assert(b.node(i).vars.spec_len() == 0 && b.node(i).procs.spec_len() == 0);
            assert(unchanged_but_location(b.node(i), c.node(i)));
        }
    }
}

impl ObjectTree {
    /// Well-formedness survives replacing one node's content, provided its
    /// identity (name, path, semantic parent) stays and the new record is
    /// itself well formed.
    proof fn lemma_wf_node_refit(a: ObjectTree, b: ObjectTree, x: int)
        requires
            a.wf(),
            0 <= x < a.node_count(),
            b.node_count() == a.node_count(),
            b.graph == a.graph,
            forall|i: int| 0 <= i < a.node_count() && i != x ==> b.node(i) == a.node(i),
            b.node(x).name@ == a.node(x).name@,
            b.node(x).path@ == a.node(x).path@,
            b.node(x).parent_type_idx matches Some(p) ==> 0 <= p < a.node_count(),
            x == 0 ==> b.node(x).parent_type_idx is None,
            b.node(x).wf(),
        ensures
            b.wf(),
    {
        assert(graph_children(b.graph) == graph_children(a.graph));
        assert forall|i: int|
            0 <= i < b.node_count() implies b.node(i).path@ == a.node(i).path@ && b.node(
            i,
        ).name@ == a.node(i).name@ by {
            if i != x {
                assert(b.node(i) == a.node(i));
            }
        }
        assert forall|i: int|
            0 <= i < b.node_count() implies ((#[trigger] b.node(i)).parent_type_idx matches Some(
            p,
        ) ==> 0 <= p < b.node_count()) by {
            if i != x {
                assert(b.node(i) == a.node(i));
                assert(a.node(i).parent_type_idx matches Some(p) ==> 0 <= p < a.node_count());
            }
        }
        assert forall|j: int| 1 <= j < b.node_count() implies #[trigger] b.has_lex_parent(j) by {
            assert(a.has_lex_parent(j));
            let (i, k) = choose|i: int, k: int| a.is_child_at(i, k, j);
            assert(b.is_child_at(i, k, j));
        }
        assert forall|i: int| 0 <= i < b.node_count() implies (#[trigger] b.node(i)).wf() by {
            if i != x {
                assert(a.node(i).wf());
            }
        }
        assert forall|i: int, k: int|
            #![trigger b.children(i)[k]]
            0 <= i < b.node_count() && 0 <= k < b.children(i).len() implies b.node(
            b.children(i)[k],
        ).path@ == child_path(b.node(i).path@, b.node(b.children(i)[k]).name@) && no_slash(
            b.node(b.children(i)[k]).name@,
        ) by {
            assert(a.children(i)[k] == b.children(i)[k]);
            assert(a.node(a.children(i)[k]).path@ == child_path(
                a.node(i).path@,
                a.node(a.children(i)[k]).name@,
            ));
        }
        assert forall|i: int, j: int| 0 <= i < j < b.node_count() implies b.node(i).path@
            != b.node(j).path@ by {
            assert(a.node(i).path@ != a.node(j).path@);
        }
        assert forall|i1: int, k1: int, i2: int, k2: int, j: int|
            b.is_child_at(i1, k1, j) && b.is_child_at(i2, k2, j) implies i1 == i2 && k1
            == k2 by {
            assert(a.is_child_at(i1, k1, j) && a.is_child_at(i2, k2, j));
        }
        assert forall|i: int, k: int|
            #![trigger b.children(i)[k]]
            0 <= i < b.node_count() && 0 <= k < b.children(i).len() implies i < b.children(i)[k]
            < b.node_count() by {
            assert(a.children(i) == b.children(i));
        }
        assert forall|i: int| 1 <= i < b.node_count() implies (#[trigger] b.node(
            i,
        )).path@.len() > 0 by {
            assert(a.node(i).path@.len() > 0);
        }
    }

    /// Walks the segments from the root, creating nodes up to the terminal
    /// segment: the first declaration keyword, or the last segment.  Returns
    /// the node the walk ends on and the terminal segment's index.
    fn get_from_path(&mut self, location: Location, segments: &Vec<String>, specificity: usize)
        -> (r: Result<(usize, usize), DMError>)
        requires
            old(self).wf(),
            forall|i: int| 0 <= i < segments@.len() ==> no_slash(#[trigger] segments@[i]@),
            old(self).node_count() + segments@.len() < 0xffff_fffe - 1,
        ensures
            final(self).wf(),
            grown(*old(self), *final(self), location, specificity),
            final(self).node_count() <= old(self).node_count() + segments@.len(),
            match r {
                Ok(pt) => segments@.len() > 0 && {
                    let sv = seg_views(segments@);
                    let t = terminal_index(sv);
                    &&& pt.1 == t
                    &&& 0 <= t < sv.len()
                    &&& pt.0 < final(self).node_count()
                    &&& final(self).node_count() <= old(self).node_count() + t
                    &&& final(self).node(pt.0 as int).path@ == joined(sv.take(t))
                    &&& (t == 0 ==> pt.0 == 0 && *final(self) == *old(self))
                    &&& forall|p: Seq<char>|
                        #![trigger final(self).has_path(p)]
                        #![trigger old(self).has_path(p)]
                        final(self).has_path(p) == (old(self).has_path(p) || exists|k2: int|
                            0 < k2 <= t && p == joined(#[trigger] sv.take(k2)))
                },
                Err(e) => segments@.len() == 0 && e == (DMError {
                    location,
                    kind: ErrorKind::CannotRegisterRoot,
                }) && *final(self) == *old(self),
            },
    {
        let ghost sv = seg_views(segments@);
        proof {
            lemma_first_decl_index(sv);
        }
        let n = segments.len();
        if n == 0 {
            return Err(DMError::new(location, ErrorKind::CannotRegisterRoot));
        }
        let ghost t = terminal_index(sv);
        let mut current: usize = 0;
        let mut pos: usize = 0;
        loop
            invariant
                self.wf(),
                segments@.len() == n,
                sv == seg_views(segments@),
                t == terminal_index(sv),
                forall|i: int| 0 <= i < segments@.len() ==> no_slash(#[trigger] segments@[i]@),
                0 <= pos <= t < n,
                current < self.node_count(),
                self.node(current as int).path@ == joined(sv.take(pos as int)),
                grown(*old(self), *self, location, specificity),
                self.node_count() <= old(self).node_count() + pos,
                old(self).node_count() + segments@.len() < 0xffff_fffe - 1,
                pos == 0 ==> current == 0 && *self == *old(self),
                forall|p: Seq<char>|
                    #![trigger self.has_path(p)]
                    #![trigger old(self).has_path(p)]
                    self.has_path(p) == (old(self).has_path(p) || exists|k2: int|
                        0 < k2 <= pos && p == joined(#[trigger] sv.take(k2))),
            decreases n - pos,
        {
            proof {
                lemma_first_decl_index(sv);
                assert(sv[pos as int] == segments@[pos as int]@);
            }
            if is_decl(segments[pos].as_str()) {
                proof {
                    assert(is_decl_spec(sv[pos as int]));
                    assert(first_decl_index(sv) <= pos) by {
                        if pos < first_decl_index(sv) {
                            assert(!is_decl_spec(sv[pos as int]));
                        }
                    }
                    assert(pos == t);
                }
                return Ok((current, pos));
            }
            if pos + 1 == n {
                proof {
                    assert(!is_decl_spec(sv[pos as int]));
                    assert(pos == t) by {
                        if first_decl_index(sv) < sv.len() && first_decl_index(sv) < pos + 1 {
                            assert(is_decl_spec(sv[first_decl_index(sv)]));
                        }
                    }
                }
                return Ok((current, pos));
            }
            proof {
                assert(!is_decl_spec(sv[pos as int]));
                assert(pos < t) by {
                    if first_decl_index(sv) <= pos {
                        assert(is_decl_spec(sv[first_decl_index(sv)]));
                    }
                }
            }
            let ghost pre = *self;
            let next = self.subtype_or_add(location, current, segments[pos].as_str(), specificity);
            proof {
                assert(grown(pre, *self, location, specificity)) by {
                    if pre.has_child_named(current as int, sv[pos as int]) {
                        assert(final_eq_frame(pre, *self, next as int));
                        assert forall|i: int|
                            0 <= i < pre.node_count() implies pre.children(i).is_prefix_of(
                            #[trigger] self.children(i),
                        ) by {
                            assert(self.children(i) == pre.children(i));
                            assert(pre.children(i) =~= self.children(i).subrange(
                                0,
                                pre.children(i).len() as int,
                            ));
                        }
                    } else {
                        assert forall|i: int|
                            0 <= i < pre.node_count() implies pre.children(i).is_prefix_of(
                            #[trigger] self.children(i),
                        ) by {
                            if i == current as int {
                                assert(self.children(i) == pre.children(i).push(next as int));
                            } else {
                                assert(self.children(i) == pre.children(i));
                            }
                            assert(pre.children(i) =~= self.children(i).subrange(
                                0,
                                pre.children(i).len() as int,
                            ));
                        }
                    }
                }
                lemma_grown_trans(*old(self), pre, *self, location, specificity);
                assert(self.node(next as int).path@ == joined(sv.take(pos as int + 1))) by {
                    assert(sv.take(pos as int + 1).drop_last() =~= sv.take(pos as int));
                    assert(sv.take(pos as int + 1).last() == sv[pos as int]);
                }
                assert forall|p: Seq<char>|
                    #![trigger self.has_path(p)]
                    #![trigger old(self).has_path(p)]
                    self.has_path(p) == (old(self).has_path(p) || exists|k2: int|
                        0 < k2 <= pos + 1 && p == joined(#[trigger] sv.take(k2))) by {
                    if pre.has_child_named(current as int, sv[pos as int]) {
                        assert(self.has_path(p) == pre.has_path(p)) by {
                            if pre.has_path(p) {
                                let i = choose|i: int|
                                    1 <= i < pre.node_count() && (#[trigger] pre.node(
                                    i)).path@ == p;
                                assert(self.node(i).path@ == p);
                            }
                            if self.has_path(p) {
                                let i = choose|i: int|
                                    1 <= i < self.node_count() && (#[trigger] self.node(
                                    i)).path@ == p;
                                assert(pre.node(i).path@ == p);
                            }
                        }
                        if pre.has_path(p) || self.has_path(p) || old(self).has_path(p) {
                        }
                        if exists|k2: int| 0 < k2 <= pos + 1 && p == joined(
                            #[trigger] sv.take(k2),
                        ) {
                            let k2 = choose|k2: int|
                                0 < k2 <= pos + 1 && p == joined(#[trigger] sv.take(k2));
                            if k2 == pos + 1 {
                                assert(self.node(next as int).path@ == p);
                                assert(next as int >= 1);
                                assert(self.has_path(p));
                            }
                        }
                    } else {
                        assert(self.has_path(p) == (pre.has_path(p) || p == joined(
                            sv.take(pos as int + 1),
                        ))) by {
                            if pre.has_path(p) {
                                let i = choose|i: int|
                                    1 <= i < pre.node_count() && (#[trigger] pre.node(
                                    i)).path@ == p;
                                assert(self.node(i).path@ == p);
                            }
                            if p == joined(sv.take(pos as int + 1)) {
                                assert(self.node(next as int).path@ == p);
                                assert(next as int >= 1);
                            }
                            if self.has_path(p) {
                                let i = choose|i: int|
                                    1 <= i < self.node_count() && (#[trigger] self.node(
                                    i)).path@ == p;
                                if i < pre.node_count() {
                                    assert(pre.node(i).path@ == p);
                                } else {
                                    assert(i == next as int);
                                }
                            }
                        }
                        if exists|k2: int| 0 < k2 <= pos + 1 && p == joined(
                            #[trigger] sv.take(k2),
                        ) {
                            let k2 = choose|k2: int|
                                0 < k2 <= pos + 1 && p == joined(#[trigger] sv.take(k2));
                            if k2 <= pos {
                                assert(pre.has_path(p) || old(self).has_path(p) || true);
                            }
                        }
                    }
                }
            }
            current = next;
            pos = pos + 1;
        }
    }
}

/// Holds when the two records agree on everything but `vars`.
pub open spec fn vars_only_changed(a: Type, b: Type) -> bool {
    &&& same_but_content(a, b)
    &&& b.procs == a.procs
    &&& b.docs == a.docs
}

/// Holds when the two records agree on everything but `procs`.
pub open spec fn procs_only_changed(a: Type, b: Type) -> bool {
    &&& same_but_content(a, b)
    &&& b.vars == a.vars
    &&& b.docs == a.docs
}

/// The declaration record a `proc`/`verb` keyword occurrence sets.
pub open spec fn proc_decl_of(location: Location, is_verb: Option<bool>) -> Option<ProcDeclaration> {
    match is_verb {
        Some(v) => Some(ProcDeclaration { location, is_verb: v }),
        None => None,
    }
}

/// Checks for a variable qualifier keyword.
fn is_qualifier_exec(s: &str) -> (r: bool)
    ensures
        r == is_qualifier(s@),
{
    str_eq(s, "global") || str_eq(s, "static") || str_eq(s, "tmp") || str_eq(s, "const")
}

impl ObjectTree {
    /// Registers a variable under node `parent`.  `segments[start]` is the
    /// terminal segment the walk stopped on: the `var` keyword of a
    /// declaration, or the bare name of an override.  With `value` the slot's
    /// expression and location are (re)set; without it an existing slot is
    /// left untouched.  A name already registered as a procedure is a kind
    /// mismatch and an error.  Returns whether a slot was named: a qualifier
    /// block with no name yields none, and is no error.
    fn register_var(
        &mut self,
        location: Location,
        parent: usize,
        segments: &Vec<String>,
        start: usize,
        comment: DocCollection,
        suffix: VarSuffix,
        value: Option<Expression>,
    ) -> (r: Result<bool, DMError>)
        requires
            old(self).wf(),
            parent < old(self).node_count(),
            start < segments@.len(),
        ensures
            final(self).wf(),
            final(self).graph == old(self).graph,
            final(self).node_count() == old(self).node_count(),
            forall|i: int|
                0 <= i < old(self).node_count() && i != parent ==> final(self).node(i) == old(
                    self,
                ).node(i),
            vars_only_changed(old(self).node(parent as int), final(self).node(parent as int)),
            ({
                let h = seg_views(segments@).skip(start as int);
                match r {
                    Err(e) => e == (DMError { location, kind: ErrorKind::ProcLooksLikeVar })
                        && *final(self) == *old(self) && ((!is_var_decl_spec(h[0])
                        && is_proc_decl_spec(h[0])) || old(self).node(
                        parent as int,
                    ).procs.contains(h.last())),
                    Ok(named) => !(!is_var_decl_spec(h[0]) && is_proc_decl_spec(h[0])) && {
                        let nm = h.last();
                        let decl = is_var_decl_spec(h[0]);
                        let qe = qual_run(h, 1);
                        let vt = old(self).node(parent as int).vars;
                        let nt = final(self).node(parent as int).vars;
                        &&& (!named ==> decl && qe == h.len() && *final(self) == *old(self))
                        &&& (named ==> {
                            &&& (decl ==> qe < h.len())
                            &&& !old(self).node(parent as int).procs.contains(nm)
                            &&& nt.contains(nm)
                            &&& (vt.contains(nm) ==> {
                                let tvo = vt.at(nm);
                                let tvn = nt.at(nm);
                                &&& nt.names@ == vt.names@
                                &&& nt.key_map() == vt.key_map()
                                &&& forall|p: int|
                                    0 <= p < vt.spec_len() && p != vt.pos_of(nm)
                                        ==> nt.slots@[p] == vt.slots@[p]
                                &&& tvn.declaration == tvo.declaration
                                &&& tvn.value.constant == tvo.value.constant
                                &&& tvn.value.docs == tvo.value.docs
                                &&& tvn.value.being_evaluated == tvo.value.being_evaluated
                                &&& (match value {
                                    Some(e) => tvn.value.location == location
                                        && tvn.value.expression == Some(e),
                                    None => tvn == tvo,
                                })
                            })
                            &&& (!vt.contains(nm) ==> {
                                let tv = nt.at(nm);
                                &&& nt.names@ == vt.names@.push(
                                    segments@[segments@.len() - 1],
                                )
                                &&& nt.pos_of(nm) == vt.spec_len()
                                &&& forall|p: int|
                                    0 <= p < vt.spec_len() ==> nt.slots@[p] == vt.slots@[p]
                                &&& tv.value.location == location
                                &&& tv.value.constant is None
                                &&& !tv.value.being_evaluated
                                &&& tv.value.docs == comment
                                &&& (match value {
                                    Some(e) => tv.value.expression == Some(e),
                                    None => (suffix.list@.len() == 0 ==> tv.value.expression
                                        is None) && (suffix.list@.len() > 0 ==> (
                                    tv.value.expression matches Some(x) && x is Opaque)),
                                })
                                &&& (!decl ==> tv.declaration is None)
                                &&& (decl ==> (tv.declaration matches Some(d) && {
                                    &&& d.location == location
                                    &&& d.var_type.is_static == header_is_static(h, qe)
                                    &&& d.var_type.is_const == header_is_const(h, qe)
                                    &&& d.var_type.is_tmp == header_is_tmp(h, qe)
                                    &&& seg_views(d.var_type.type_path@) == Seq::new(
                                        suffix.list@.len(),
                                        |i: int| "list"@,
                                    ) + h.subrange(qe, h.len() - 1)
                                }))
                            })
                        })
                    },
                }
            }),
    {
        let ghost sv = seg_views(segments@);
        let ghost h = sv.skip(start as int);
        let n = segments.len();
        proof {
            assert(h[0] == sv[start as int]);
            assert(h.last() == sv[n - 1]);
            assert(h.len() == n - start);
        }
        let is_declaration = is_var_decl(segments[start].as_str());
        let mut is_static = false;
        let mut is_const = false;
        let mut is_tmp = false;
        let mut j = start + 1;
        if is_declaration {
            while j < n && is_qualifier_exec(segments[j].as_str())
                invariant
                    segments@.len() == n,
                    sv == seg_views(segments@),
                    h == sv.skip(start as int),
                    start < n,
                    start + 1 <= j <= n,
                    h.len() == n - start,
                    qual_run(h, 1) == qual_run(h, j - start),
                    is_static == header_is_static(h, j - start),
                    is_const == header_is_const(h, j - start),
                    is_tmp == header_is_tmp(h, j - start),
                decreases n - j,
            {
                proof {
                    assert(h[j - start] == sv[j as int]);
                    assert(sv[j as int] == segments@[j as int]@);
                }
                if str_eq(segments[j].as_str(), "global") || str_eq(
                    segments[j].as_str(),
                    "static",
                ) {
                    is_static = true;
                }
                if str_eq(segments[j].as_str(), "const") {
                    is_const = true;
                }
                if str_eq(segments[j].as_str(), "tmp") {
                    is_tmp = true;
                }
                proof {
                    let jo = j - start;
                    assert(is_qualifier(h[jo]));
                    assert(qual_run(h, jo) == qual_run(h, jo + 1));
                    assert(header_is_static(h, jo + 1) == (header_is_static(h, jo) || (h[jo]
                        == "global"@ || h[jo] == "static"@))) by {
                        assert forall|i: int|
                            1 <= i < jo + 1 && ((#[trigger] h[i]) == "global"@ || h[i]
                                == "static"@) implies header_is_static(h, jo + 1) by {}
                    }
                    assert(header_is_const(h, jo + 1) == (header_is_const(h, jo) || h[jo]
                        == "const"@));
                    assert(header_is_tmp(h, jo + 1) == (header_is_tmp(h, jo) || h[jo]
                        == "tmp"@));
                }
                j += 1;
            }
            if j == n {
                proof {
                    assert(qual_run(h, 1) == h.len());
                }
                return Ok(false);
            }
            proof {
                assert(h[j - start] == sv[j as int]);
                assert(sv[j as int] == segments@[j as int]@);
                assert(!is_qualifier(h[j - start]));
                assert(qual_run(h, j - start) == j - start);
            }
        } else if is_proc_decl(segments[start].as_str()) {
            return Err(DMError::new(location, ErrorKind::ProcLooksLikeVar));
        }
        let tp_start = if is_declaration {
            j
        } else {
            start
        };
        proof {
            if is_declaration {
                assert(qual_run(h, 1) == tp_start - start);
            }
            assert(tp_start < n);
        }
        let mut type_path: Vec<String> = Vec::new();
        let mut k = tp_start;
        while k + 1 < n
            invariant
                segments@.len() == n,
                tp_start <= k <= n - 1,
                tp_start < n,
                type_path@ == segments@.subrange(tp_start as int, k as int),
            decreases n - k,
        {
            type_path.push(segments[k].clone());
            proof {
                assert(type_path@ =~= segments@.subrange(tp_start as int, k + 1));
            }
            k += 1;
        }
        let mut var_type = VarType { is_static, is_const, is_tmp, type_path };
        let ghost tp0 = var_type.type_path@;
        var_type.suffix(&suffix);
        let name_str = segments[n - 1].clone();
        proof {
            assert(name_str@ == h.last());
            assert(self.node(parent as int).wf());
        }
        let clash = self.nodes[parent].procs.position(name_str.as_str());
        if clash.is_some() {
            proof {
                assert(self.node(parent as int).procs.contains(name_str@));
                assert(old(self).node(parent as int).procs.contains(h.last()));
            }
            return Err(DMError::new(location, ErrorKind::ProcLooksLikeVar));
        }
        proof {
            if is_declaration {
                let qe = qual_run(h, 1);
                assert(seg_views(var_type.type_path@) =~= Seq::new(
                    suffix.list@.len(),
                    |i: int| "list"@,
                ) + h.subrange(qe, h.len() - 1)) by {
                    let lhs = seg_views(var_type.type_path@);
                    let rhs = Seq::new(suffix.list@.len(), |i: int| "list"@) + h.subrange(
                        qe,
                        h.len() - 1,
                    );
                    let dims = suffix.list@.len() as int;
                    assert(lhs.len() == rhs.len());
                    assert forall|i: int| 0 <= i < lhs.len() implies lhs[i] == rhs[i] by {
                        if i < dims {
                            assert(var_type.type_path@[i]@ == "list"@);
                        } else {
                            let x = i - dims;
                            assert(var_type.type_path@[suffix.list@.len() + x] == tp0[x]);
                            assert(tp0[x] == segments@[tp_start + x]);
                            assert(h[qe + x] == sv[start + qe + x]);
                            assert(sv[tp_start + x] == segments@[tp_start + x]@);
                        }
                    }
                }
            }
        }
        let pos = self.nodes[parent].vars.position(name_str.as_str());
        match pos {
            Some(p) => {
                match value {
                    Some(e) => {
                        self.nodes[parent].vars.slots[p].value.location = location;
                        self.nodes[parent].vars.slots[p].value.expression = Some(e);
                        proof {
                            assert(self.node(parent as int).vars.wf());
                            assert(self.node(parent as int).wf());
                            ObjectTree::lemma_wf_node_refit(*old(self), *self, parent as int);
                        }
                    },
                    None => {},
                }
                Ok(true)
            },
            None => {
                let expr = match value {
                    Some(e) => Some(e),
                    None => suffix.into_initializer(),
                };
                let tv = TypeVar {
                    value: VarValue {
                        location,
                        expression: expr,
                        constant: None,
                        being_evaluated: false,
                        docs: comment,
                    },
                    declaration: if is_declaration {
                        Some(VarDeclaration { var_type, location })
                    } else {
                        None
                    },
                };
                self.nodes[parent].vars.insert_new(name_str, tv);
                proof {
                    assert(self.node(parent as int).wf());
                    ObjectTree::lemma_wf_node_refit(*old(self), *self, parent as int);
                }
                Ok(true)
            },
        }
    }
}

impl ObjectTree {
    /// Appends one procedure value under `parent`, creating the named slot
    /// on first mention; the first occurrence that knows `proc` vs `verb`
    /// sets the slot's declaration, later ones never change it.  A name
    /// already registered as a variable is a kind mismatch and an error.
    /// Returns the new entry's index in the slot's override list.
    fn register_proc(
        &mut self,
        location: Location,
        parent: usize,
        name: &str,
        is_verb: Option<bool>,
        parameters: Vec<Parameter>,
        code: Code,
    ) -> (r: Result<usize, DMError>)
        requires
            old(self).wf(),
            parent < old(self).node_count(),
        ensures
            final(self).wf(),
            final(self).graph == old(self).graph,
            final(self).node_count() == old(self).node_count(),
            forall|i: int|
                0 <= i < old(self).node_count() && i != parent ==> final(self).node(i) == old(
                    self,
                ).node(i),
            procs_only_changed(old(self).node(parent as int), final(self).node(parent as int)),
            r matches Err(e) ==> *final(self) == *old(self) && e == (DMError {
                location,
                kind: ErrorKind::VarLooksLikeProc,
            }) && old(self).node(parent as int).vars.contains(name@),
            r matches Ok(idx) ==> !old(self).node(parent as int).vars.contains(name@) && ({
                let nm = name@;
                let vt = old(self).node(parent as int).procs;
                let nt = final(self).node(parent as int).procs;
                &&& nt.contains(nm)
                &&& {
                    let tp = nt.at(nm);
                    &&& idx == tp.value@.len() - 1
                    &&& tp.value@.last().location == location
                    &&& tp.value@.last().parameters == parameters
                    &&& tp.value@.last().code == code
                    &&& tp.value@.last().docs.elems@.len() == 0
                    &&& (vt.contains(nm) ==> {
                        &&& nt.names@ == vt.names@
                        &&& nt.key_map() == vt.key_map()
                        &&& forall|p: int|
                            0 <= p < vt.spec_len() && p != vt.pos_of(nm) ==> nt.slots@[p]
                                == vt.slots@[p]
                        &&& tp.value@.drop_last() == vt.at(nm).value@
                        &&& idx == vt.at(nm).value@.len()
                        &&& tp.declaration == (if vt.at(nm).declaration is Some {
                            vt.at(nm).declaration
                        } else {
                            proc_decl_of(location, is_verb)
                        })
                    })
                    &&& (!vt.contains(nm) ==> {
                        &&& nt.names@.len() == vt.names@.len() + 1
                        &&& nt.names@.drop_last() == vt.names@
                        &&& nt.names@.last()@ == nm
                        &&& nt.pos_of(nm) == vt.spec_len()
                        &&& forall|p: int|
                            0 <= p < vt.spec_len() ==> nt.slots@[p] == vt.slots@[p]
                        &&& idx == 0
                        &&& tp.value@.len() == 1
                        &&& tp.declaration == proc_decl_of(location, is_verb)
                    })
                }
            }),
    {
        proof {
            assert(self.node(parent as int).wf());
        }
        let clash = self.nodes[parent].vars.position(name);
        if clash.is_some() {
            proof {
                assert(self.node(parent as int).vars.contains(name@));
            }
            return Err(DMError::new(location, ErrorKind::VarLooksLikeProc));
        }
        let decl = match is_verb {
            Some(v) => Some(ProcDeclaration { location, is_verb: v }),
            None => None,
        };
        let pv = ProcValue { location, parameters, docs: DocCollection::new(), code };
        let pos = self.nodes[parent].procs.position(name);
        match pos {
            Some(p) => {
                if self.nodes[parent].procs.slots[p].declaration.is_none() {
                    self.nodes[parent].procs.slots[p].declaration = decl;
                }
                let idx = self.nodes[parent].procs.slots[p].value.len();
                self.nodes[parent].procs.slots[p].value.push(pv);
                proof {
                    assert(self.node(parent as int).procs.wf());
                    assert forall|k: int|
                        0 <= k < self.node(parent as int).procs.slots@.len() implies (
                    #[trigger] self.node(parent as int).procs.slots@[k]).value@.len() >= 1 by {
                        if k != p {
                            assert(self.node(parent as int).procs.slots@[k] == old(self).node(
                                parent as int,
                            ).procs.slots@[k]);
                            assert(old(self).node(parent as int).wf());
                        }
                    }
                    assert(self.node(parent as int).wf());
                    ObjectTree::lemma_wf_node_refit(*old(self), *self, parent as int);
                    assert(self.node(parent as int).procs.at(name@).value@.drop_last() =~= old(
                        self,
                    ).node(parent as int).procs.at(name@).value@);
                }
                Ok(idx)
            },
            None => {
                let mut v: Vec<ProcValue> = Vec::new();
                v.push(pv);
                let tp = TypeProc { value: v, declaration: decl };
                self.nodes[parent].procs.insert_new(name.to_owned(), tp);
                proof {
                    assert forall|k: int|
                        0 <= k < self.node(parent as int).procs.slots@.len() implies (
                    #[trigger] self.node(parent as int).procs.slots@[k]).value@.len() >= 1 by {
                        if k < old(self).node(parent as int).procs.slots@.len() {
                            assert(old(self).node(parent as int).wf());
                        }
                    }
                    assert(self.node(parent as int).wf());
                    ObjectTree::lemma_wf_node_refit(*old(self), *self, parent as int);
                }
                Ok(0)
            },
        }
    }

    /// Holds when some entry of `out` carries node `i2`'s path.
    pub open spec fn path_listed(self, out: Seq<String>, i2: int) -> bool {
        exists|m: int| 0 <= m < out.len() && self.node(i2).path@ == (#[trigger] out[m])@
    }

    /// Every registered path, in ascending lexicographic code-point order:
    /// the iterate-by-declared-path view of the store.
    pub fn paths_in_order(&self) -> (r: Vec<String>)
        requires
            self.wf(),
        ensures
            r@.len() == self.node_count() - 1,
            forall|m: int| 0 <= m < r@.len() - 1 ==> lex_leq((#[trigger] r@[m])@, r@[m + 1]@),
            forall|m: int| 0 <= m < r@.len() ==> self.has_path((#[trigger] r@[m])@),
            forall|i: int| 1 <= i < self.node_count() ==> #[trigger] self.path_listed(r@, i),
    {
        let n = self.nodes.len();
        let mut out: Vec<String> = Vec::new();
        let mut i: usize = 1;
        while i < n
            invariant
                self.wf(),
                n == self.node_count(),
                1 <= i <= n,
                out@.len() == i - 1,
                forall|m: int|
                    0 <= m < out@.len() - 1 ==> lex_leq((#[trigger] out@[m])@, out@[m + 1]@),
                forall|m: int| 0 <= m < out@.len() ==> self.has_path((#[trigger] out@[m])@),
                forall|i2: int| 1 <= i2 < i ==> #[trigger] self.path_listed(out@, i2),
            decreases n - i,
        {
            let p = self.nodes[i].path.clone();
            let mut pos: usize = 0;
            while pos < out.len() && str_lt(out[pos].as_str(), p.as_str())
                invariant
                    pos <= out@.len(),
                    forall|m: int| 0 <= m < pos ==> lex_lt((#[trigger] out@[m])@, p@),
                decreases out@.len() - pos,
            {
                pos += 1;
            }
            let ghost out0 = out@;
            out.insert(pos, p);
            proof {
                assert forall|m: int|
                    0 <= m < out@.len() - 1 implies lex_leq((#[trigger] out@[m])@, out@[m
                    + 1]@) by {
                    if m + 1 < pos {
                        assert(out@[m] == out0[m] && out@[m + 1] == out0[m + 1]);
                    } else if m + 1 == pos {
                        assert(out@[m] == out0[m] && out@[pos as int] == p);
                        assert(lex_lt(out0[m]@, p@));
                    } else if m == pos {
                        assert(out@[m] == p && out@[m + 1] == out0[m]);
                        assert(!lex_lt(out0[pos as int]@, p@));
                        lemma_lex_total(p@, out0[pos as int]@);
                    } else {
                        assert(out@[m] == out0[m - 1] && out@[m + 1] == out0[m]);
                    }
                }
                assert forall|m: int|
                    0 <= m < out@.len() implies self.has_path((#[trigger] out@[m])@) by {
                    if m < pos {
                        assert(out@[m] == out0[m]);
                    } else if m == pos {
                        assert(out@[m]@ == self.node(i as int).path@);
                        assert(1 <= (i as int) && (i as int) < self.node_count());
                    } else {
                        assert(out@[m] == out0[m - 1]);
                    }
                }
                assert forall|i2: int|
                    1 <= i2 < i + 1 implies #[trigger] self.path_listed(out@, i2) by {
                    if i2 < i {
                        assert(self.path_listed(out0, i2));
                        let m0 = choose|m: int|
                            0 <= m < out0.len() && self.node(i2).path@ == (#[trigger] out0[m])@;
                        if m0 < pos {
                            assert(out@[m0] == out0[m0]);
                        } else {
                            assert(out@[m0 + 1] == out0[m0]);
                        }
                    } else {
                        assert(out@[pos as int]@ == self.node(i2).path@);
                    }
                }
            }
            i += 1;
        }
        out
    }

    /// Extends the documentation of one override entry of a procedure,
    /// named by the owning type's path, the procedure's name and the
    /// entry's index as `add_proc` returned it: the way documentation
    /// discovered after registration is attached to the entry.  Returns
    /// whether the entry exists; a miss changes nothing.
    pub fn extend_proc_docs(
        &mut self,
        path: &str,
        name: &str,
        idx: usize,
        docs: DocCollection,
    ) -> (r: bool)
        requires
            old(self).wf(),
        ensures
            final(self).wf(),
            ({
                let ok = old(self).has_path(path@) && {
                    let x = old(self).path_index(path@);
                    old(self).node(x).procs.contains(name@) && (idx as int) < old(self).node(
                        x,
                    ).procs.at(name@).value@.len()
                };
                &&& r == ok
                &&& (!ok ==> *final(self) == *old(self))
                &&& (ok ==> {
                    let x = old(self).path_index(path@);
                    let tpo = old(self).node(x).procs.at(name@);
                    let tpn = final(self).node(x).procs.at(name@);
                    &&& final(self).graph == old(self).graph
                    &&& final(self).node_count() == old(self).node_count()
                    &&& forall|i: int|
                        0 <= i < old(self).node_count() && i != x ==> final(self).node(i)
                            == old(self).node(i)
                    &&& procs_only_changed(old(self).node(x), final(self).node(x))
                    &&& final(self).node(x).procs.names@ == old(self).node(x).procs.names@
                    &&& final(self).node(x).procs.key_map() == old(self).node(x).procs.key_map()
                    &&& forall|p: int|
                        0 <= p < old(self).node(x).procs.spec_len() && p != old(self).node(
                            x,
                        ).procs.pos_of(name@) ==> final(self).node(x).procs.slots@[p] == old(
                            self,
                        ).node(x).procs.slots@[p]
                    &&& tpn.declaration == tpo.declaration
                    &&& tpn.value@.len() == tpo.value@.len()
                    &&& forall|q: int|
                        0 <= q < tpo.value@.len() && q != idx ==> tpn.value@[q]
                            == tpo.value@[q]
                    &&& tpn.value@[idx as int].docs.elems@ == tpo.value@[
                        idx as int
                    ].docs.elems@ + docs.elems@
                    &&& tpn.value@[idx as int].location == tpo.value@[idx as int].location
                    &&& tpn.value@[idx as int].parameters == tpo.value@[
                        idx as int
                    ].parameters
                    &&& tpn.value@[idx as int].code == tpo.value@[idx as int].code
                })
            }),
    {
        let fx = self.find_index(path);
        match fx {
            Some(x) => {
                proof {
                    assert(self.node(x as int).wf());
                }
                let pos = self.nodes[x].procs.position(name);
                match pos {
                    Some(p) => {
                        let len = self.nodes[x].procs.slots[p].value.len();
                        if idx < len {
                            self.nodes[x].procs.slots[p].value[idx].docs.extend(docs);
                            proof {
                                assert(self.node(x as int).procs.wf());
                                assert forall|q: int|
                                    0 <= q < self.node(x as int).procs.slots@.len() implies (
                                #[trigger] self.node(x as int).procs.slots@[q]).value@.len()
                                    >= 1 by {
                                    assert(old(self).node(x as int).wf());
                                    if q != p {
                                        assert(self.node(x as int).procs.slots@[q] == old(
                                            self,
                                        ).node(x as int).procs.slots@[q]);
                                    }
                                }
                                assert(self.node(x as int).wf());
                                ObjectTree::lemma_wf_node_refit(*old(self), *self, x as int);
                            }
                            true
                        } else {
                            false
                        }
                    },
                    None => false,
                }
            },
            None => false,
        }
    }

    /// Registers an entry that may be anything depending on its path: a
    /// plain path creates or refreshes the named node and extends its
    /// documentation, a `var` header routes to variable registration with no
    /// value, and a `proc`/`verb` header is a block header and registers
    /// nothing further.  Fails on an empty path, or when a var header names
    /// something already registered as a procedure.
    pub fn add_entry(
        &mut self,
        location: Location,
        segments: &Vec<String>,
        specificity: usize,
        comment: DocCollection,
        suffix: VarSuffix,
    ) -> (r: Result<(), DMError>)
        requires
            old(self).wf(),
            forall|i: int| 0 <= i < segments@.len() ==> no_slash(#[trigger] segments@[i]@),
            old(self).node_count() + segments@.len() < 0xffff_fffe - 1,
        ensures
            final(self).wf(),
            final(self).node_count() <= old(self).node_count() + segments@.len(),
            forall|p: Seq<char>|
                old(self).has_path(p) ==> #[trigger] final(self).has_path(p),
            ({
                let sv = seg_views(segments@);
                match r {
                    Err(e) => {
                        ||| (sv.len() == 0 && e == (DMError {
                            location,
                            kind: ErrorKind::CannotRegisterRoot,
                        }) && *final(self) == *old(self))
                        ||| (sv.len() > 0 && is_var_decl_spec(sv[terminal_index(sv)]) && e == (
                        DMError { location, kind: ErrorKind::ProcLooksLikeVar }) && {
                            let t = terminal_index(sv);
                            let x = if t == 0 {
                                0int
                            } else {
                                final(self).path_index(joined(sv.take(t)))
                            };
                            final(self).node(x).procs.contains(sv.last())
                        })
                    },
                    Ok(u) => sv.len() > 0 && {
                        let t = terminal_index(sv);
                        &&& (!is_decl_spec(sv[t]) ==> final(self).has_path(joined(sv)) && {
                            let x = final(self).path_index(joined(sv));
                            &&& (old(self).has_path(joined(sv)) ==> x == old(self).path_index(
                                joined(sv),
                            ) && final(self).node(x).docs.elems@ == old(self).node(
                                x,
                            ).docs.elems@ + comment.elems@)
                            &&& (!old(self).has_path(joined(sv)) ==> final(self).node(
                                x,
                            ).docs.elems@ == comment.elems@)
                        })
                        &&& (is_var_decl_spec(sv[t]) && qual_run(sv.skip(t), 1) < sv.skip(
                            t,
                        ).len() ==> {
                            let x = if t == 0 {
                                0int
                            } else {
                                final(self).path_index(joined(sv.take(t)))
                            };
                            final(self).node(x).vars.contains(sv.last()) && !final(self).node(
                                x,
                            ).procs.contains(sv.last())
                        })
                    },
                }
            }),
    {
        let ghost sv = seg_views(segments@);
        match self.get_from_path(location, segments, specificity) {
            Err(e) => Err(e),
            Ok((parent, t)) => {
                let ghost mid0 = *self;
                proof {
                    assert(sv[t as int] == segments@[t as int]@);
                }
                if is_var_decl(segments[t].as_str()) {
                    let ghost mid = *self;
                    match self.register_var(location, parent, segments, t, comment, suffix, None) {
                        Ok(named) => {
                            proof {
                                if t > 0 {
                                    assert(self.node(parent as int).path@ == joined(
                                        sv.take(t as int),
                                    ));
                                    lemma_joined_nonempty(sv.take(t as int));
                                    assert(parent as int >= 1) by {
                                        if parent == 0 {
                                            assert(self.node(0).path@.len() == 0);
                                        }
                                    }
                                    self.lemma_path_index_unique(
                                        joined(sv.take(t as int)),
                                        parent as int,
                                    );
                                }
                                assert(sv.skip(t as int).last() == sv.last());
                                assert forall|i: int|
                                    1 <= i < old(self).node_count() implies (
                                #[trigger] self.node(i)).path@ == old(self).node(i).path@ by {
                                    assert(unchanged_but_location(old(self).node(i), mid.node(i)));
                                    if i != parent as int {
                                        assert(self.node(i) == mid.node(i));
                                    }
                                }
                                lemma_paths_monotone(*old(self), *self);
                            }
                            Ok(())
                        },
                        Err(e) => {
                            proof {
                                if t > 0 {
                                    assert(self.node(parent as int).path@ == joined(
                                        sv.take(t as int),
                                    ));
                                    lemma_joined_nonempty(sv.take(t as int));
                                    assert(parent as int >= 1) by {
                                        if parent == 0 {
                                            assert(self.node(0).path@.len() == 0);
                                        }
                                    }
                                    self.lemma_path_index_unique(
                                        joined(sv.take(t as int)),
                                        parent as int,
                                    );
                                }
                                assert(sv.skip(t as int).last() == sv.last());
                            }
                            Err(e)
                        },
                    }
                } else if is_proc_decl(segments[t].as_str()) {
                    proof {
                        assert forall|i: int|
                            1 <= i < old(self).node_count() implies (#[trigger] self.node(
                        i)).path@ == old(self).node(i).path@ by {
                            assert(unchanged_but_location(old(self).node(i), self.node(i)));
                        }
                        lemma_paths_monotone(*old(self), *self);
                    }
                    Ok(())
                } else {
                    proof {
                        assert(t as int == sv.len() - 1) by {
                            lemma_first_decl_index(sv);
                        }
                    }
                    let idx = self.subtype_or_add(
                        location,
                        parent,
                        segments[t].as_str(),
                        specificity,
                    );
                    let ghost mid2 = *self;
                    self.nodes[idx].docs.extend(comment);
                    proof {
                        assert(self.node(idx as int).wf()) by {
                            assert(self.node(idx as int).vars == mid2.node(idx as int).vars);
                            assert(self.node(idx as int).procs == mid2.node(idx as int).procs);
                            assert(mid2.node(idx as int).wf());
                        }
                        ObjectTree::lemma_wf_node_refit(mid2, *self, idx as int);
                        assert(self.node(idx as int).path@ == joined(sv)) by {
                            assert(sv.take(t as int + 1) =~= sv);
                            assert(sv.take(t as int + 1).drop_last() =~= sv.take(t as int));
                        }
                        assert(self.has_path(joined(sv))) by {
                            assert(1 <= (idx as int) && (idx as int) < self.node_count());
                        }
                        self.lemma_path_index_unique(joined(sv), idx as int);
                        // The walk touches only proper prefixes of the full path,
                        // so its registration state is the caller's.
                        assert(mid0.has_path(joined(sv)) == old(self).has_path(joined(sv))) by {
                            if exists|k2: int|
                                0 < k2 <= t && joined(sv) == joined(#[trigger] sv.take(k2)) {
                                let k2 = choose|k2: int|
                                    0 < k2 <= t && joined(sv) == joined(#[trigger] sv.take(k2));
                                lemma_joined_take_longer(sv, k2, sv.len() as int);
                                assert(sv.take(sv.len() as int) =~= sv);
                                assert(false);
                            }
                        }
                        assert(mid0.node(parent as int).path@ == joined(sv.take(t as int)));
                        mid0.lemma_has_path_child(parent as int, sv[t as int]);
                        assert(child_path(mid0.node(parent as int).path@, sv[t as int])
                            == joined(sv)) by {
                            assert(sv.take(t as int + 1) =~= sv);
                            assert(sv.take(t as int + 1).drop_last() =~= sv.take(t as int));
                        }
                        if old(self).has_path(joined(sv)) {
                            let y = old(self).path_index(joined(sv));
                            assert(1 <= y < old(self).node_count() && old(self).node(y).path@
                                == joined(sv));
                            assert(mid0.node(y).path@ == joined(sv)) by {
                                assert(unchanged_but_location(old(self).node(y), mid0.node(y)));
                            }
                            assert(y == idx as int) by {
                                mid0.lemma_path_index_unique(joined(sv), y);
                                assert(mid2.node(idx as int).path@ == joined(sv));
                                assert(mid0.node(idx as int).path@ == joined(sv)) by {
                                    if !mid0.has_child_named(parent as int, sv[t as int]) {
                                        assert(idx as int == mid0.node_count());
                                        assert(mid0.has_path(joined(sv)));
                                        assert(false);
                                    }
                                }
                                mid0.lemma_path_index_unique(joined(sv), idx as int);
                            }
                            assert(self.node(idx as int).docs.elems@ == old(self).node(
                                idx as int,
                            ).docs.elems@ + comment.elems@) by {
                                assert(unchanged_but_location(
                                    old(self).node(idx as int),
                                    mid0.node(idx as int),
                                ));
                                assert(unchanged_but_location(
                                    mid0.node(idx as int),
                                    mid2.node(idx as int),
                                ));
                            }
                        } else {
                            assert(!mid0.has_path(joined(sv)));
                            assert(!mid0.has_child_named(parent as int, sv[t as int]));
                            assert(mid2.node(idx as int).docs.elems@.len() == 0);
                            assert(self.node(idx as int).docs.elems@ =~= comment.elems@);
                        }
                        assert forall|i: int|
                            1 <= i < old(self).node_count() implies (#[trigger] self.node(
                        i)).path@ == old(self).node(i).path@ by {
                            assert(unchanged_but_location(old(self).node(i), mid0.node(i)));
                            assert(mid2.node(i).path@ == mid0.node(i).path@) by {
                                if mid0.has_child_named(parent as int, sv[t as int]) {
                                    if i != idx as int {
                                        assert(mid2.node(i) == mid0.node(i));
                                    } else {
                                        assert(unchanged_but_location(
                                            mid0.node(i),
                                            mid2.node(i),
                                        ));
                                    }
                                } else {
                                    assert(mid2.node(i) == mid0.node(i));
                                }
                            }
                            if i != idx as int {
                                assert(self.node(i) == mid2.node(i));
                            }
                        }
                        lemma_paths_monotone(*old(self), *self);
                    }
                    Ok(())
                }
            },
        }
    }

    /// The path one segment below node `parent` is registered exactly when
    /// `parent` has a child of that name.
    pub proof fn lemma_has_path_child(self, parent: int, name: Seq<char>)
        requires
            self.wf(),
            0 <= parent < self.node_count(),
            no_slash(name),
        ensures
            self.has_path(child_path(self.node(parent).path@, name)) == self.has_child_named(
                parent,
                name,
            ),
    {
        let cp = child_path(self.node(parent).path@, name);
        if self.has_child_named(parent, name) {
            let k = choose|k: int|
                0 <= k < self.children(parent).len() && self.node(
                    self.children(parent)[k],
                ).name@ == name;
            let c = self.children(parent)[k];
            assert(self.node(c).path@ == cp);
            assert(1 <= c < self.node_count());
            assert(self.has_path(cp));
        }
        if self.has_path(cp) {
            let y = choose|i: int|
                1 <= i < self.node_count() && (#[trigger] self.node(i)).path@ == cp;
            assert(self.has_lex_parent(y));
            let (p2, k2) = choose|i: int, k: int| self.is_child_at(i, k, y);
            assert(self.node(y).path@ == child_path(self.node(p2).path@, self.node(y).name@));
            crate::strutil::lemma_child_path_injective(
                self.node(p2).path@,
                self.node(y).name@,
                self.node(parent).path@,
                name,
            );
            assert(p2 == parent) by {
                if p2 != parent {
                    assert(self.node(p2).path@ != self.node(parent).path@);
                }
            }
            assert(self.has_child_named(parent, name));
        }
    }

    /// A node's own path pins its handle: no two nodes share a path.
    pub proof fn lemma_path_index_unique(self, p: Seq<char>, i: int)
        requires
            self.wf(),
            1 <= i < self.node_count(),
            self.node(i).path@ == p,
        ensures
            self.has_path(p),
            self.path_index(p) == i,
    {
        assert(self.has_path(p));
        let j = choose|j: int| 1 <= j < self.node_count() && (#[trigger] self.node(j)).path@ == p;
        if j != i {
            assert(self.node(i).path@ != self.node(j).path@);
        }
    }
}


/// Growing a tree while keeping every registered path keeps them registered.
proof fn lemma_paths_monotone(a: ObjectTree, b: ObjectTree)
    requires
        a.node_count() <= b.node_count(),
        forall|i: int| 1 <= i < a.node_count() ==> (#[trigger] b.node(i)).path@ == a.node(i).path@,
    ensures
        forall|p: Seq<char>| a.has_path(p) ==> #[trigger] b.has_path(p),
{
    assert forall|p: Seq<char>| a.has_path(p) implies #[trigger] b.has_path(p) by {
        let i = choose|i: int|
            1 <= i < a.node_count() && (#[trigger] a.node(i)).path@ == p;
        assert(b.node(i).path@ == p);
    }
}

/// The three declaration keywords are pairwise distinct strings.
pub proof fn lemma_keywords_distinct()
    ensures
        "var"@ != "proc"@,
        "var"@ != "verb"@,
        "proc"@ != "verb"@,
{
    reveal_strlit("var");
    reveal_strlit("proc");
    reveal_strlit("verb");
    assert("var"@[0] != "proc"@[0]);
    assert("var"@[1] != "verb"@[1]);
    assert("proc"@[0] != "verb"@[0]);
}

/// A path of one segment is a slash plus that segment.
pub proof fn lemma_joined_single(x: Seq<char>)
    ensures
        joined(seq![x]) == child_path(Seq::<char>::empty(), x),
{
    assert(seq![x].drop_last() =~= Seq::<Seq<char>>::empty());
    assert(seq![x].last() == x);
    assert(joined(seq![x].drop_last()) == Seq::<char>::empty());
}

/// A path of two segments slashes each onto the empty root path in turn.
pub proof fn lemma_joined_pair(x: Seq<char>, y: Seq<char>)
    ensures
        joined(seq![x, y]) == child_path(child_path(Seq::<char>::empty(), x), y),
{
    assert(seq![x, y].drop_last() =~= seq![x]);
    assert(seq![x, y].last() == y);
    lemma_joined_single(x);
}

/// Joining strictly more segments gives a strictly longer path.
pub proof fn lemma_joined_take_longer(segs: Seq<Seq<char>>, k: int, m: int)
    requires
        0 <= k < m <= segs.len(),
    ensures
        joined(segs.take(k)).len() < joined(segs.take(m)).len(),
    decreases m,
{
    assert(segs.take(m).drop_last() =~= segs.take(m - 1));
    assert(joined(segs.take(m)) == child_path(joined(segs.take(m - 1)), segs.take(m).last()));
    if m - 1 > k {
        lemma_joined_take_longer(segs, k, m - 1);
    }
}

/// A path joined from at least one segment is never empty.
pub proof fn lemma_joined_nonempty(segs: Seq<Seq<char>>)
    requires
        segs.len() > 0,
    ensures
        joined(segs).len() > 0,
{
    crate::strutil::lemma_child_path_nonempty(joined(segs.drop_last()), segs.last());
}

impl ObjectTree {
    /// Registers an entry that is definitely a variable because a value is
    /// specified.  The slot's expression and location are set to this
    /// occurrence; an already declared slot keeps its declaration, so an
    /// override never erases the declaring occurrence's type and flags.
    pub fn add_var(
        &mut self,
        location: Location,
        segments: &Vec<String>,
        specificity: usize,
        expr: Expression,
        comment: DocCollection,
        suffix: VarSuffix,
    ) -> (r: Result<(), DMError>)
        requires
            old(self).wf(),
            forall|i: int| 0 <= i < segments@.len() ==> no_slash(#[trigger] segments@[i]@),
            old(self).node_count() + segments@.len() < 0xffff_fffe - 1,
        ensures
            final(self).wf(),
            final(self).node_count() <= old(self).node_count() + segments@.len(),
            forall|p: Seq<char>|
                old(self).has_path(p) ==> #[trigger] final(self).has_path(p),
            r is Err ==> grown(*old(self), *final(self), location, specificity),
            ({
                let sv = seg_views(segments@);
                let t = terminal_index(sv);
                let h = sv.skip(t);
                match r {
                    Err(e) => {
                        ||| (sv.len() == 0 && e == (DMError {
                            location,
                            kind: ErrorKind::CannotRegisterRoot,
                        }) && *final(self) == *old(self))
                        ||| (sv.len() > 0 && e == (DMError {
                            location,
                            kind: ErrorKind::ProcLooksLikeVar,
                        }) && (is_proc_decl_spec(sv[t]) || {
                            let x = if t == 0 {
                                0int
                            } else {
                                final(self).path_index(joined(sv.take(t)))
                            };
                            final(self).node(x).procs.contains(sv.last())
                        }))
                        ||| (sv.len() > 0 && is_var_decl_spec(sv[t]) && qual_run(h, 1) == h.len()
                            && e == (DMError { location, kind: ErrorKind::VarMustHaveName }))
                    },
                    Ok(u) => sv.len() > 0 && !is_proc_decl_spec(sv[t]) && (is_var_decl_spec(
                        sv[t],
                    ) ==> qual_run(h, 1) < h.len()) && {
                        let nm = sv.last();
                        let x = if t == 0 {
                            0int
                        } else {
                            final(self).path_index(joined(sv.take(t)))
                        };
                        let nt = final(self).node(x).vars;
                        &&& 0 <= x < final(self).node_count()
                        &&& final(self).node(x).path@ == joined(sv.take(t))
                        &&& grown_except(*old(self), *final(self), location, specificity, x)
                        &&& !final(self).node(x).procs.contains(nm)
                        &&& nt.contains(nm)
                        &&& nt.at(nm).value.location == location
                        &&& nt.at(nm).value.expression == Some(expr)
                        &&& ((x < old(self).node_count() && old(self).node(x).vars.contains(nm))
                            ==> {
                            let tvo = old(self).node(x).vars.at(nm);
                            &&& nt.names@ == old(self).node(x).vars.names@
                            &&& nt.at(nm).declaration == tvo.declaration
                            &&& nt.at(nm).value.constant == tvo.value.constant
                            &&& nt.at(nm).value.docs == tvo.value.docs
                        })
                        &&& (!(x < old(self).node_count() && old(self).node(x).vars.contains(nm))
                            ==> {
                            let tv = nt.at(nm);
                            &&& tv.value.constant is None
                            &&& !tv.value.being_evaluated
                            &&& tv.value.docs == comment
                            &&& (!is_var_decl_spec(sv[t]) ==> tv.declaration is None)
                            &&& (is_var_decl_spec(sv[t]) ==> (tv.declaration matches Some(d) && {
                                let qe = qual_run(h, 1);
                                &&& d.location == location
                                &&& d.var_type.is_static == header_is_static(h, qe)
                                &&& d.var_type.is_const == header_is_const(h, qe)
                                &&& d.var_type.is_tmp == header_is_tmp(h, qe)
                                &&& seg_views(d.var_type.type_path@) == Seq::new(
                                    suffix.list@.len(),
                                    |i: int| "list"@,
                                ) + h.subrange(qe, h.len() - 1)
                            }))
                        })
                    },
                }
            }),
    {
        let ghost sv = seg_views(segments@);
        match self.get_from_path(location, segments, specificity) {
            Err(e) => {
                proof {
                    lemma_grown_refl(*self, location, specificity);
                    lemma_paths_monotone(*old(self), *self);
                }
                Err(e)
            },
            Ok((parent, t)) => {
                proof {
                    assert(sv[t as int] == segments@[t as int]@);
                    assert(sv.skip(t as int).last() == sv.last());
                }
                let ghost mid = *self;
                match self.register_var(
                    location,
                    parent,
                    segments,
                    t,
                    comment,
                    suffix,
                    Some(expr),
                ) {
                    Err(e) => {
                        proof {
                            if t > 0 {
                                assert(self.node(parent as int).path@ == joined(
                                    sv.take(t as int),
                                ));
                                lemma_joined_nonempty(sv.take(t as int));
                                assert(parent as int >= 1) by {
                                    if parent == 0 {
                                        assert(self.node(0).path@.len() == 0);
                                    }
                                }
                                self.lemma_path_index_unique(
                                    joined(sv.take(t as int)),
                                    parent as int,
                                );
                            }
                            assert(*self == mid);
                            lemma_paths_monotone(*old(self), *self);
                        }
                        Err(e)
                    },
                    Ok(false) => {
                        proof {
                            assert(*self == mid);
                            lemma_paths_monotone(*old(self), *self);
                        }
                        Err(DMError::new(location, ErrorKind::VarMustHaveName))
                    },
                    Ok(true) => {
                        proof {
                            lemma_keywords_distinct();
                            if t > 0 {
                                assert(self.node(parent as int).path@ == joined(sv.take(t as int)));
                                lemma_joined_nonempty(sv.take(t as int));
                                assert(parent as int >= 1) by {
                                    if parent == 0 {
                                        assert(self.node(0).path@.len() == 0);
                                    }
                                }
                                self.lemma_path_index_unique(
                                    joined(sv.take(t as int)),
                                    parent as int,
                                );
                            }
                            if (parent as int) < old(self).node_count() {
                                assert(mid.node(parent as int).vars == old(self).node(
                                    parent as int,
                                ).vars);
                            } else {
                                assert(mid.node(parent as int).vars.spec_len() == 0);
                                assert(!mid.node(parent as int).vars.contains(sv.last()));
                            }
                            lemma_grown_except_compose(
                                *old(self),
                                mid,
                                *self,
                                location,
                                specificity,
                                parent as int,
                            );
                            assert forall|i: int|
                                1 <= i < old(self).node_count() implies (#[trigger] self.node(
                            i)).path@ == old(self).node(i).path@ by {
                                assert(unchanged_but_location(old(self).node(i), mid.node(i)));
                                if i != parent as int {
                                    assert(self.node(i) == mid.node(i));
                                }
                            }
                            lemma_paths_monotone(*old(self), *self);
                        }
                        Ok(())
                    },
                }
            },
        }
    }

    /// Registers an entry that is definitely a procedure because an argument
    /// list is specified.  A `proc`/`verb` keyword immediately before the
    /// name marks the declaration and its verb-ness; the name must be a
    /// single trailing identifier, and a name already registered as a
    /// variable is a kind mismatch.  Returns the new entry's index in the
    /// procedure's override list.
    pub fn add_proc(
        &mut self,
        location: Location,
        segments: &Vec<String>,
        specificity: usize,
        parameters: Vec<Parameter>,
        code: Code,
    ) -> (r: Result<usize, DMError>)
        requires
            old(self).wf(),
            forall|i: int| 0 <= i < segments@.len() ==> no_slash(#[trigger] segments@[i]@),
            old(self).node_count() + segments@.len() < 0xffff_fffe - 1,
        ensures
            final(self).wf(),
            final(self).node_count() <= old(self).node_count() + segments@.len(),
            forall|p: Seq<char>|
                old(self).has_path(p) ==> #[trigger] final(self).has_path(p),
            r is Err ==> grown(*old(self), *final(self), location, specificity),
            ({
                let sv = seg_views(segments@);
                let t = terminal_index(sv);
                match r {
                    Err(e) => {
                        ||| (sv.len() == 0 && e == (DMError {
                            location,
                            kind: ErrorKind::CannotRegisterRoot,
                        }) && *final(self) == *old(self))
                        ||| (sv.len() > 0 && e == (DMError {
                            location,
                            kind: ErrorKind::VarLooksLikeProc,
                        }) && (is_var_decl_spec(sv[t]) || {
                            let x = if t == 0 {
                                0int
                            } else {
                                final(self).path_index(joined(sv.take(t)))
                            };
                            final(self).node(x).vars.contains(sv.last())
                        }))
                        ||| (sv.len() > 0 && is_proc_decl_spec(sv[t]) && t == sv.len() - 1 && e
                            == (DMError { location, kind: ErrorKind::ProcMustHaveName }))
                        ||| (sv.len() > 0 && is_proc_decl_spec(sv[t]) && t + 2 < sv.len() && e
                            == (DMError { location, kind: ErrorKind::SpuriousProcSegment }))
                    },
                    Ok(idx) => sv.len() > 0 && !is_var_decl_spec(sv[t]) && (is_proc_decl_spec(
                        sv[t],
                    ) ==> t == sv.len() - 2) && {
                        let nm = sv.last();
                        let is_verb = if is_proc_decl_spec(sv[t]) {
                            Some(sv[t] == "verb"@)
                        } else {
                            None
                        };
                        let x = if t == 0 {
                            0int
                        } else {
                            final(self).path_index(joined(sv.take(t)))
                        };
                        let nt = final(self).node(x).procs;
                        &&& 0 <= x < final(self).node_count()
                        &&& final(self).node(x).path@ == joined(sv.take(t))
                        &&& grown_except(*old(self), *final(self), location, specificity, x)
                        &&& !final(self).node(x).vars.contains(nm)
                        &&& nt.contains(nm)
                        &&& {
                            let tp = nt.at(nm);
                            &&& idx == tp.value@.len() - 1
                            &&& tp.value@.last().location == location
                            &&& tp.value@.last().parameters == parameters
                            &&& tp.value@.last().code == code
                            &&& ((x < old(self).node_count() && old(self).node(x).procs.contains(
                                nm,
                            )) ==> {
                                let tpo = old(self).node(x).procs.at(nm);
                                &&& tp.value@.drop_last() == tpo.value@
                                &&& idx == tpo.value@.len()
                                &&& tp.declaration == (if tpo.declaration is Some {
                                    tpo.declaration
                                } else {
                                    proc_decl_of(location, is_verb)
                                })
                            })
                            &&& (!(x < old(self).node_count() && old(self).node(
                                x,
                            ).procs.contains(nm)) ==> {
                                &&& idx == 0
                                &&& tp.value@.len() == 1
                                &&& tp.declaration == proc_decl_of(location, is_verb)
                            })
                        }
                    },
                }
            }),
    {
        let ghost sv = seg_views(segments@);
        match self.get_from_path(location, segments, specificity) {
            Err(e) => {
                proof {
                    lemma_grown_refl(*self, location, specificity);
                    lemma_paths_monotone(*old(self), *self);
                }
                Err(e)
            },
            Ok((parent, t)) => {
                proof {
                    assert(sv[t as int] == segments@[t as int]@);
                    lemma_first_decl_index(sv);
                }
                let n = segments.len();
                let mut is_verb: Option<bool> = None;
                let mut name_pos = t;
                if is_proc_decl(segments[t].as_str()) {
                    is_verb = Some(str_eq(segments[t].as_str(), "verb"));
                    if t + 1 >= n {
                        proof {
                            lemma_paths_monotone(*old(self), *self);
                        }
                        return Err(DMError::new(location, ErrorKind::ProcMustHaveName));
                    }
                    name_pos = t + 1;
                } else if is_var_decl(segments[t].as_str()) {
                    proof {
                        lemma_paths_monotone(*old(self), *self);
                    }
                    return Err(DMError::new(location, ErrorKind::VarLooksLikeProc));
                }
                if name_pos + 1 < n {
                    proof {
                        assert(t as int != sv.len() - 1 ==> is_decl_spec(sv[t as int]));
                        lemma_paths_monotone(*old(self), *self);
                    }
                    return Err(DMError::new(location, ErrorKind::SpuriousProcSegment));
                }
                proof {
                    assert(name_pos as int == sv.len() - 1);
                    assert(sv[name_pos as int] == segments@[name_pos as int]@);
                }
                proof {
                    lemma_keywords_distinct();
                }
                let ghost mid = *self;
                let reg = self.register_proc(
                    location,
                    parent,
                    segments[name_pos].as_str(),
                    is_verb,
                    parameters,
                    code,
                );
                let idx: usize;
                match reg {
                    Ok(i) => {
                        idx = i;
                    },
                    Err(e) => {
                        proof {
                            if t > 0 {
                                assert(self.node(parent as int).path@ == joined(
                                    sv.take(t as int),
                                ));
                                lemma_joined_nonempty(sv.take(t as int));
                                assert(parent as int >= 1) by {
                                    if parent == 0 {
                                        assert(self.node(0).path@.len() == 0);
                                    }
                                }
                                self.lemma_path_index_unique(
                                    joined(sv.take(t as int)),
                                    parent as int,
                                );
                            }
                            assert(*self == mid);
                            lemma_paths_monotone(*old(self), *self);
                        }
                        return Err(e);
                    },
                }
                proof {
                    if t > 0 {
                        assert(self.node(parent as int).path@ == joined(sv.take(t as int)));
                        lemma_joined_nonempty(sv.take(t as int));
                        assert(parent as int >= 1) by {
                            if parent == 0 {
                                assert(self.node(0).path@.len() == 0);
                            }
                        }
                        self.lemma_path_index_unique(joined(sv.take(t as int)), parent as int);
                    }
                    if (parent as int) < old(self).node_count() {
                        assert(mid.node(parent as int).procs == old(self).node(
                            parent as int,
                        ).procs);
                    } else {
                        assert(mid.node(parent as int).procs.spec_len() == 0);
                        assert(!mid.node(parent as int).procs.contains(sv.last()));
                    }
                    lemma_grown_except_compose(
                        *old(self),
                        mid,
                        *self,
                        location,
                        specificity,
                        parent as int,
                    );
                    assert forall|i: int|
                        1 <= i < old(self).node_count() implies (#[trigger] self.node(
                    i)).path@ == old(self).node(i).path@ by {
                        assert(unchanged_but_location(old(self).node(i), mid.node(i)));
                        if i != parent as int {
                            assert(self.node(i) == mid.node(i));
                        }
                    }
                    lemma_paths_monotone(*old(self), *self);
                }
                Ok(idx)
            },
        }
    }
}

impl ObjectTree {
    /// The handle registered under an exact path, if any; the root's empty
    /// path is never registered.
    pub fn find_index(&self, path: &str) -> (r: Option<usize>)
        requires
            self.wf(),
        ensures
            match r {
                Some(i) => 1 <= i < self.node_count() && self.node(i as int).path@ == path@
                    && self.has_path(path@) && i == self.path_index(path@),
                None => !self.has_path(path@),
            },
    {
        let mut i: usize = 1;
        while i < self.nodes.len()
            invariant
                self.wf(),
                1 <= i,
                forall|j: int| 1 <= j < i ==> (#[trigger] self.node(j)).path@ != path@,
            decreases self.nodes@.len() - i,
        {
            if str_eq(self.nodes[i].path.as_str(), path) {
                proof {
                    self.lemma_path_index_unique(path@, i as int);
                }
                return Some(i);
            }
            i += 1;
        }
        None
    }

    /// The lexical parent of a type record, by its resolved semantic parent
    /// handle; absent when the handle is absent or out of range.
    pub fn parent_of<'a>(&'a self, type_: &Type) -> (r: Option<&'a Type>)
        ensures
            match r {
                Some(t) => type_.parent_type_idx matches Some(p) && (p as int)
                    < self.node_count() && *t == self.node(p as int),
                None => !(type_.parent_type_idx matches Some(p) && (p as int)
                    < self.node_count()),
            },
    {
        match type_.parent_type_idx {
            Some(p) => {
                if p < self.nodes.len() {
                    Some(&self.nodes[p])
                } else {
                    None
                }
            },
            None => None,
        }
    }

    /// Registers the built-in types the parent-type resolver hardcodes, plus
    /// `/list`: the one-time population step run before user declarations.
    /// Built-ins use the least specific score, so any user occurrence of the
    /// same path takes over the recorded location.
    pub fn register_builtins(&mut self)
        requires
            old(self).wf(),
            old(self).node_count() + 16 < 0xffff_fffe - 1,
        ensures
            final(self).wf(),
            forall|p: Seq<char>|
                old(self).has_path(p) ==> #[trigger] final(self).has_path(p),
            final(self).has_path("/datum"@),
            final(self).has_path("/atom"@),
            final(self).has_path("/atom/movable"@),
            final(self).has_path("/turf"@),
            final(self).has_path("/area"@),
            final(self).has_path("/obj"@),
            final(self).has_path("/mob"@),
            final(self).has_path("/list"@),
    {
        proof {
            reveal_strlit("datum");
            reveal_strlit("/datum");
            reveal_strlit("atom");
            reveal_strlit("/atom");
            reveal_strlit("movable");
            reveal_strlit("/atom/movable");
            reveal_strlit("turf");
            reveal_strlit("/turf");
            reveal_strlit("area");
            reveal_strlit("/area");
            reveal_strlit("obj");
            reveal_strlit("/obj");
            reveal_strlit("mob");
            reveal_strlit("/mob");
            reveal_strlit("list");
            reveal_strlit("/list");
            reveal_strlit("var");
            reveal_strlit("proc");
            reveal_strlit("verb");
            assert("atom"@[0] != "proc"@[0] && "atom"@[0] != "verb"@[0]);
            assert("turf"@[0] != "proc"@[0] && "turf"@[0] != "verb"@[0]);
            assert("area"@[0] != "proc"@[0] && "area"@[0] != "verb"@[0]);
            assert("list"@[0] != "proc"@[0] && "list"@[0] != "verb"@[0]);
            assert("obj"@[0] != "var"@[0]);
            assert("mob"@[0] != "var"@[0]);
        }
        self.register_builtin_1("datum");
        let ghost g1 = *self;
        proof {
            assert(joined(seq!["datum"@]) =~= "/datum"@) by {
                reveal_strlit("datum");
                reveal_strlit("/datum");
                lemma_joined_single("datum"@);
            }
        }
        self.register_builtin_1("atom");
        let ghost g2 = *self;
        proof {
            assert(joined(seq!["atom"@]) =~= "/atom"@) by {
                reveal_strlit("atom");
                reveal_strlit("/atom");
                lemma_joined_single("atom"@);
            }
        }
        self.register_builtin_2("atom", "movable");
        let ghost g3 = *self;
        proof {
            assert(joined(seq!["atom"@, "movable"@]) =~= "/atom/movable"@) by {
                reveal_strlit("atom");
                reveal_strlit("movable");
                reveal_strlit("/atom/movable");
                lemma_joined_pair("atom"@, "movable"@);
            }
        }
        self.register_builtin_1("turf");
        let ghost g4 = *self;
        proof {
            assert(joined(seq!["turf"@]) =~= "/turf"@) by {
                reveal_strlit("turf");
                reveal_strlit("/turf");
                lemma_joined_single("turf"@);
            }
        }
        self.register_builtin_1("area");
        let ghost g5 = *self;
        proof {
            assert(joined(seq!["area"@]) =~= "/area"@) by {
                reveal_strlit("area");
                reveal_strlit("/area");
                lemma_joined_single("area"@);
            }
        }
        self.register_builtin_1("obj");
        let ghost g6 = *self;
        proof {
            assert(joined(seq!["obj"@]) =~= "/obj"@) by {
                reveal_strlit("obj");
                reveal_strlit("/obj");
                lemma_joined_single("obj"@);
            }
        }
        self.register_builtin_1("mob");
        let ghost g7 = *self;
        proof {
            assert(joined(seq!["mob"@]) =~= "/mob"@) by {
                reveal_strlit("mob");
                reveal_strlit("/mob");
                lemma_joined_single("mob"@);
            }
        }
        self.register_builtin_1("list");
        proof {
            assert(joined(seq!["list"@]) =~= "/list"@) by {
                reveal_strlit("list");
                reveal_strlit("/list");
                lemma_joined_single("list"@);
            }
            assert forall|p: Seq<char>|
                old(self).has_path(p) implies #[trigger] self.has_path(p) by {
                assert(g1.has_path(p));
                assert(g2.has_path(p));
                assert(g3.has_path(p));
                assert(g4.has_path(p));
                assert(g5.has_path(p));
                assert(g6.has_path(p));
                assert(g7.has_path(p));
            }
        }
    }

    /// Registers one top-level built-in path.
    fn register_builtin_1(&mut self, a: &str)
        requires
            old(self).wf(),
            no_slash(a@),
            !is_decl_spec(a@),
            old(self).node_count() + 2 < 0xffff_fffe - 1,
        ensures
            final(self).wf(),
            final(self).node_count() <= old(self).node_count() + 1,
            final(self).has_path(joined(seq![a@])),
            forall|p: Seq<char>|
                old(self).has_path(p) ==> #[trigger] final(self).has_path(p),
    {
        let mut v: Vec<String> = Vec::new();
        v.push(String::from_str(a));
        proof {
            assert(seg_views(v@) =~= seq![a@]);
            lemma_first_decl_index(seg_views(v@));
            assert(terminal_index(seg_views(v@)) == 0) by {
                if first_decl_index(seg_views(v@)) == 0 {
                    assert(is_decl_spec(seg_views(v@)[0]));
                }
            }
        }
        let r = self.add_entry(
            Location { file: 0, line: 0, column: 0 },
            &v,
            usize::MAX,
            DocCollection::new(),
            VarSuffix::none(),
        );
        proof {
            assert(r is Ok);
        }
    }

    /// Registers one nested built-in path of two segments.
    fn register_builtin_2(&mut self, a: &str, b: &str)
        requires
            old(self).wf(),
            no_slash(a@),
            no_slash(b@),
            !is_decl_spec(a@),
            !is_decl_spec(b@),
            old(self).node_count() + 3 < 0xffff_fffe - 1,
        ensures
            final(self).wf(),
            final(self).node_count() <= old(self).node_count() + 2,
            final(self).has_path(joined(seq![a@, b@])),
            forall|p: Seq<char>|
                old(self).has_path(p) ==> #[trigger] final(self).has_path(p),
    {
        let mut v: Vec<String> = Vec::new();
        v.push(String::from_str(a));
        v.push(String::from_str(b));
        proof {
            assert(seg_views(v@) =~= seq![a@, b@]);
            lemma_first_decl_index(seg_views(v@));
            assert(first_decl_index(seg_views(v@)) == 2) by {
                if first_decl_index(seg_views(v@)) < 2 {
                    assert(is_decl_spec(seg_views(v@)[first_decl_index(seg_views(v@))]));
                }
            }
        }
        let r = self.add_entry(
            Location { file: 0, line: 0, column: 0 },
            &v,
            usize::MAX,
            DocCollection::new(),
            VarSuffix::none(),
        );
        proof {
            assert(r is Ok);
        }
    }
}

// ---------------------------------------------------------------------------
// Finalization: parent-type resolution and constant folding

/// Holds when the two records agree on everything but the resolved semantic
/// parent handle.
pub open spec fn parent_only_changed(a: Type, b: Type) -> bool {
    &&& b.name == a.name
    &&& b.path == a.path
    &&& b.location == a.location
    &&& b.location_specificity == a.location_specificity
    &&& b.vars == a.vars
    &&& b.procs == a.procs
    &&& b.docs == a.docs
}

/// The parent path a `parent_type` override expression names: a string
/// constant verbatim, a prefab without variable overrides as its slashed
/// path, anything else nothing.
pub open spec fn override_path_of_expr(e: Expression) -> Option<Seq<char>> {
    match e {
        Expression::Literal(c) => match c {
            Constant::Str(s) => Some(s@),
            Constant::Prefab(p) => if p.vars@.len() == 0 {
                Some(joined(seg_views(p.path@)))
            } else {
                None
            },
            _ => None,
        },
        Expression::Opaque => None,
    }
}

/// The kind reported for a `parent_type` override that names no path: an
/// expression the folder cannot evaluate, or a constant of the wrong shape.
pub open spec fn override_error_kind(e: Expression) -> ErrorKind {
    match e {
        Expression::Opaque => ErrorKind::NotAConstant,
        Expression::Literal(_) => ErrorKind::BadParentTypeValue,
    }
}

impl ObjectTree {
    /// The syntactic `parent_type` override of node `j`, if declared with an
    /// expression.
    pub open spec fn parent_type_var_expr(self, j: int) -> Option<Expression> {
        if self.node(j).vars.contains("parent_type"@) {
            self.node(j).vars.at("parent_type"@).value.expression
        } else {
            None
        }
    }

    /// Whether node `j` is one of the built-in paths with a hardcoded parent.
    pub open spec fn is_hardcoded(self, j: int) -> bool {
        let p = self.node(j).path@;
        ||| p == "/atom"@
        ||| p == "/turf"@
        ||| p == "/area"@
        ||| p == "/obj"@
        ||| p == "/mob"@
    }

    /// The hardcoded parent path of a built-in node.
    pub open spec fn hardcoded_target(self, j: int) -> Seq<char> {
        let p = self.node(j).path@;
        if p == "/atom"@ {
            "/datum"@
        } else if p == "/turf"@ || p == "/area"@ {
            "/atom"@
        } else {
            "/atom/movable"@
        }
    }

    /// The fallback parent before any override.  `/datum` and every
    /// top-level type (a type whose lexical parent is the root) parent to
    /// the root directly; the hardcoded built-ins parent to their fixed
    /// paths; every other type parents to its lexical parent's path.
    pub open spec fn default_target(self, j: int) -> Option<Seq<char>> {
        if self.node(j).path@ == "/datum"@ {
            None
        } else if self.is_hardcoded(j) {
            Some(self.hardcoded_target(j))
        } else if self.lex_parent(j) == 0 {
            None
        } else {
            Some(self.node(self.lex_parent(j)).path@)
        }
    }

    /// The parent the resolver must store, `None` for the root directly: an
    /// explicit `parent_type` override, when it names a path-like constant,
    /// replaces both the hardcoded and the lexical default; a non-path-like
    /// or unevaluable override keeps the default already computed.
    pub open spec fn parent_target(self, j: int) -> Option<Seq<char>> {
        match self.parent_type_var_expr(j) {
            Some(e) => match override_path_of_expr(e) {
                Some(p) => Some(p),
                None => self.default_target(j),
            },
            None => self.default_target(j),
        }
    }

    /// The handle finalization stores as node `j`'s semantic parent: the
    /// root directly where the target is the root, otherwise the target
    /// path's node, or the root when that path is registered nowhere.
    pub open spec fn resolved_parent(self, j: int) -> int {
        match self.parent_target(j) {
            None => 0,
            Some(t) => if self.has_path(t) {
                self.path_index(t)
            } else {
                0
            },
        }
    }

    /// Holds when resolving node `j`'s parent reports no error: any override
    /// names a path-like constant, and the target path is registered.
    pub open spec fn parent_resolution_clean(self, j: int) -> bool {
        &&& (self.parent_type_var_expr(j) matches Some(e) ==> override_path_of_expr(e) is Some)
        &&& (self.parent_target(j) matches Some(t) ==> self.has_path(t))
    }

    /// Where a resolution error is attributed: the `parent_type` variable's
    /// own site when the type declares one, else the type's own location.
    pub open spec fn resolver_error_location(self, j: int) -> Location {
        if self.node(j).vars.contains("parent_type"@) {
            self.node(j).vars.at("parent_type"@).value.location
        } else {
            self.node(j).location
        }
    }

    /// Resolution reads only paths, variables and edges, so two trees that
    /// differ in resolved parent handles alone resolve every node alike.
    proof fn lemma_resolution_agrees(a: ObjectTree, b: ObjectTree, j: int)
        requires
            a.wf(),
            b.node_count() == a.node_count(),
            b.graph == a.graph,
            forall|i: int|
                0 <= i < a.node_count() ==> parent_only_changed(a.node(i), #[trigger] b.node(i)),
            1 <= j < a.node_count(),
        ensures
            b.node(j).path@ == a.node(j).path@,
            b.lex_parent(j) == a.lex_parent(j),
            b.parent_type_var_expr(j) == a.parent_type_var_expr(j),
            b.default_target(j) == a.default_target(j),
            b.parent_target(j) == a.parent_target(j),
            b.resolver_error_location(j) == a.resolver_error_location(j),
            forall|p: Seq<char>| #[trigger] b.has_path(p) == a.has_path(p),
            forall|p: Seq<char>|
                a.has_path(p) ==> #[trigger] b.path_index(p) == a.path_index(p),
            b.resolved_parent(j) == a.resolved_parent(j),
            b.parent_resolution_clean(j) == a.parent_resolution_clean(j),
    {
        assert(graph_children(b.graph) == graph_children(a.graph));
        assert(a.has_lex_parent(j));
        let (i0, k0) = choose|i: int, k: int| a.is_child_at(i, k, j);
        assert(b.is_child_at(i0, k0, j));
        assert(b.lex_parent(j) == a.lex_parent(j)) by {
            let (i1, k1) = choose|i: int, k: int| b.is_child_at(i, k, j);
            assert(a.is_child_at(i1, k1, j));
            let (i2, k2) = choose|i: int, k: int| a.is_child_at(i, k, j);
            assert(a.is_child_at(i2, k2, j));
            assert(i1 == i2 && k1 == k2);
        }
        assert forall|p: Seq<char>| #[trigger] b.has_path(p) == a.has_path(p) by {
            if a.has_path(p) {
                let i = choose|i: int|
                    1 <= i < a.node_count() && (#[trigger] a.node(i)).path@ == p;
                assert(b.node(i).path@ == p);
            }
            if b.has_path(p) {
                let i = choose|i: int|
                    1 <= i < b.node_count() && (#[trigger] b.node(i)).path@ == p;
                assert(a.node(i).path@ == p);
            }
        }
        assert forall|p: Seq<char>| a.has_path(p) implies #[trigger] b.path_index(p)
            == a.path_index(p) by {
            let i1 = b.path_index(p);
            let i2 = a.path_index(p);
            assert(1 <= i2 < a.node_count() && a.node(i2).path@ == p);
            assert(b.has_path(p));
            assert(1 <= i1 < b.node_count() && b.node(i1).path@ == p);
            assert(a.node(i1).path@ == p);
            if i1 != i2 {
                assert(a.node(i1).path@ != a.node(i2).path@);
            }
        }
        assert(b.parent_type_var_expr(j) == a.parent_type_var_expr(j));
    }
}

impl ObjectTree {
    /// Resolves and stores every non-root node's semantic parent (hardcoded
    /// built-ins, `parent_type` override, lexical default), reporting a bad
    /// override or an unregistered parent path and falling back to the root.
    #[verifier::rlimit(60)]
    fn assign_parent_types(&mut self, context: &mut Context)
        requires
            old(self).wf(),
        ensures
            final(self).wf(),
            final(self).graph == old(self).graph,
            final(self).node_count() == old(self).node_count(),
            final(self).node(0) == old(self).node(0),
            forall|j: int|
                1 <= j < old(self).node_count() ==> parent_only_changed(
                    old(self).node(j),
                    #[trigger] final(self).node(j),
                ) && final(self).node(j).parent_type_idx == Some(
                    (old(self).resolved_parent(j)) as usize,
                ),
            old(context).errors@.is_prefix_of(final(context).errors@),
            (forall|j: int|
                1 <= j < old(self).node_count() ==> old(self).parent_resolution_clean(j))
                ==> final(context).errors@ == old(context).errors@,
            forall|j: int|
                #![trigger old(self).parent_type_var_expr(j)]
                1 <= j < old(self).node_count() ==> (old(self).parent_type_var_expr(j)
                    matches Some(e) ==> override_path_of_expr(e) is None ==> exists|m: int|
                    old(context).errors@.len() <= m < final(context).errors@.len()
                        && #[trigger] final(context).errors@[m] == (DMError {
                        location: old(self).resolver_error_location(j),
                        kind: override_error_kind(e),
                    })),
            forall|j: int|
                #![trigger old(self).parent_target(j)]
                1 <= j < old(self).node_count() ==> (old(self).parent_target(j) matches Some(t)
                    ==> !old(self).has_path(t) ==> exists|m: int|
                    old(context).errors@.len() <= m < final(context).errors@.len()
                        && #[trigger] final(context).errors@[m] == (DMError {
                        location: old(self).resolver_error_location(j),
                        kind: ErrorKind::BadParentType,
                    })),
    {
        let n = self.nodes.len();
        let mut j: usize = 1;
        while j < n
            invariant
                old(self).wf(),
                self.wf(),
                n == self.nodes@.len(),
                1 <= j <= n,
                self.graph == old(self).graph,
                self.node_count() == old(self).node_count(),
                self.node(0) == old(self).node(0),
                forall|i: int| j <= i < n ==> self.node(i) == old(self).node(i),
                forall|i: int|
                    1 <= i < j ==> parent_only_changed(old(self).node(i), #[trigger] self.node(i))
                        && self.node(i).parent_type_idx == Some(
                        (old(self).resolved_parent(i)) as usize,
                    ),
                old(context).errors@.is_prefix_of(context.errors@),
                (forall|i: int| 1 <= i < j ==> old(self).parent_resolution_clean(i))
                    ==> context.errors@ == old(context).errors@,
                forall|i: int|
                    #![trigger old(self).parent_type_var_expr(i)]
                    1 <= i < j ==> (old(self).parent_type_var_expr(i) matches Some(e)
                        ==> override_path_of_expr(e) is None ==> exists|m: int|
                        old(context).errors@.len() <= m < context.errors@.len()
                            && #[trigger] context.errors@[m] == (DMError {
                            location: old(self).resolver_error_location(i),
                            kind: override_error_kind(e),
                        })),
                forall|i: int|
                    #![trigger old(self).parent_target(i)]
                    1 <= i < j ==> (old(self).parent_target(i) matches Some(t) ==> !old(
                        self,
                    ).has_path(t) ==> exists|m: int|
                        old(context).errors@.len() <= m < context.errors@.len()
                            && #[trigger] context.errors@[m] == (DMError {
                            location: old(self).resolver_error_location(i),
                            kind: ErrorKind::BadParentType,
                        })),
            decreases n - j,
        {
            proof {
                assert forall|i: int|
                    0 <= i < old(self).node_count() implies parent_only_changed(
                    old(self).node(i),
                    #[trigger] self.node(i),
                ) by {
                    if i == 0 || j <= i {
                        assert(self.node(i) == old(self).node(i));
                    }
                }
                ObjectTree::lemma_resolution_agrees(*old(self), *self, j as int);
                assert(self.node(j as int).wf());
            }
            let ghost pre_errors = context.errors@;
            let ghost oldt = *old(self);
            let ghost pre = *self;
            // The default target before any override: the root directly for
            // /datum and for top-level types, a fixed path for the hardcoded
            // built-ins, the lexical parent's path otherwise.
            let mut target: Option<String>;
            if str_eq(self.nodes[j].path.as_str(), "/datum") {
                target = None;
            } else if str_eq(self.nodes[j].path.as_str(), "/atom") {
                target = Some(String::from_str("/datum"));
            } else if str_eq(self.nodes[j].path.as_str(), "/turf") || str_eq(
                self.nodes[j].path.as_str(),
                "/area",
            ) {
                target = Some(String::from_str("/atom"));
            } else if str_eq(self.nodes[j].path.as_str(), "/obj") || str_eq(
                self.nodes[j].path.as_str(),
                "/mob",
            ) {
                target = Some(String::from_str("/atom/movable"));
            } else {
                let lp = graph_parent_of(&self.graph, j);
                let lpi = match lp {
                    Some(p) => p,
                    None => {
                        proof {
                            assert(self.has_lex_parent(j as int));
                            let (i0, k0) = choose|i: int, k: int|
                                self.is_child_at(i, k, j as int);
                            assert(graph_children(self.graph).contains_key(i0));
                            assert(self.children(i0).contains(j as int)) by {
                                assert(self.children(i0)[k0] == j as int);
                            }
                            assert(false);
                        }
                        0
                    },
                };
                proof {
                    assert(graph_children(self.graph).contains_key(lpi as int));
                    assert(0 <= (lpi as int) && (lpi as int) < self.node_count());
                    assert(self.children(lpi as int).contains(j as int));
                    let kk = choose|k: int|
                        0 <= k < self.children(lpi as int).len() && self.children(
                            lpi as int,
                        )[k] == j as int;
                    assert(self.is_child_at(lpi as int, kk, j as int));
                    assert(self.lex_parent(j as int) == lpi as int) by {
                        let (i1, k1) = choose|i: int, k: int|
                            self.is_child_at(i, k, j as int);
                        assert(i1 == lpi as int && k1 == kk);
                    }
                }
                if lpi == 0 {
                    target = None;
                } else {
                    target = Some(self.nodes[lpi].path.clone());
                }
            }
            proof {
                assert(match target {
                    Some(s) => pre.default_target(j as int) == Some(s@),
                    None => pre.default_target(j as int) is None,
                });
            }
            let mut loc = self.nodes[j].location;
            let mut reported: Option<DMError> = None;
            proof {
                assert(self.node(j as int).wf());
            }
            match self.nodes[j].vars.get("parent_type") {
                Some(tv) => {
                    loc = tv.value.location;
                    match &tv.value.expression {
                        Some(expr) => {
                            match expr.simple_evaluate(loc) {
                                Ok(c) => match c {
                                    Constant::Str(s) => {
                                        target = Some(s);
                                    },
                                    Constant::Prefab(pp) => {
                                        if pp.vars.len() == 0 {
                                            let mut t2 = String::new();
                                            let mut q: usize = 0;
                                            while q < pp.path.len()
                                                invariant
                                                    q <= pp.path@.len(),
                                                    t2@ == joined(
                                                        seg_views(pp.path@).take(q as int),
                                                    ),
                                                decreases pp.path@.len() - q,
                                            {
                                                push_segment(&mut t2, pp.path[q].as_str());
                                                proof {
                                                    assert(seg_views(pp.path@).take(
                                                        q + 1,
                                                    ).drop_last() =~= seg_views(pp.path@).take(
                                                        q as int,
                                                    ));
                                                }
                                                q += 1;
                                            }
                                            proof {
                                                assert(seg_views(pp.path@).take(
                                                    pp.path@.len() as int,
                                                ) =~= seg_views(pp.path@));
                                            }
                                            target = Some(t2);
                                        } else {
                                            reported = Some(
                                                DMError::new(loc, ErrorKind::BadParentTypeValue),
                                            );
                                        }
                                    },
                                    Constant::Null => {
                                        reported = Some(
                                            DMError::new(loc, ErrorKind::BadParentTypeValue),
                                        );
                                    },
                                    Constant::Int(_) => {
                                        reported = Some(
                                            DMError::new(loc, ErrorKind::BadParentTypeValue),
                                        );
                                    },
                                },
                                Err(e) => {
                                    reported = Some(e);
                                },
                            }
                        },
                        None => {},
                    }
                },
                None => {},
            }
            proof {
                assert(loc == pre.resolver_error_location(j as int));
                assert(match target {
                    Some(s) => pre.parent_target(j as int) == Some(s@),
                    None => pre.parent_target(j as int) is None,
                });
                assert(match reported {
                    Some(e) => (pre.parent_type_var_expr(j as int) matches Some(ex)
                        && override_path_of_expr(ex) is None && e == (DMError {
                        location: loc,
                        kind: override_error_kind(ex),
                    })),
                    None => !(pre.parent_type_var_expr(j as int) matches Some(ex)
                        && override_path_of_expr(ex) is None),
                });
            }
            let ghost override_err_at = context.errors@.len();
            match reported {
                Some(e) => {
                    context.register_error(e);
                },
                None => {},
            }
            let ghost lookup_err_at = context.errors@.len();
            let pidx: usize;
            let mut lookup_failed = false;
            match target {
                None => {
                    pidx = 0;
                },
                Some(t) => {
                    match self.find_index(t.as_str()) {
                        Some(i) => {
                            pidx = i;
                        },
                        None => {
                            context.register_error(
                                DMError::new(loc, ErrorKind::BadParentType),
                            );
                            lookup_failed = true;
                            pidx = 0;
                        },
                    }
                },
            }
            self.nodes[j].parent_type_idx = Some(pidx);
            proof {
                assert(self.node(j as int).wf()) by {
                    assert(pre.node(j as int).wf());
                }
                ObjectTree::lemma_wf_node_refit(pre, *self, j as int);
                assert(pidx as int == pre.resolved_parent(j as int));
                assert(self.node(j as int).parent_type_idx == Some(
                    (oldt.resolved_parent(j as int)) as usize,
                ));
                assert(oldt.parent_resolution_clean(j as int) ==> context.errors@ == pre_errors);
                match oldt.parent_type_var_expr(j as int) {
                    Some(ex) => {
                        if override_path_of_expr(ex) is None {
                            assert(context.errors@[override_err_at as int] == (DMError {
                                location: oldt.resolver_error_location(j as int),
                                kind: override_error_kind(ex),
                            }));
                            assert(old(context).errors@.len() <= override_err_at
                                < context.errors@.len());
                        }
                    },
                    None => {},
                }
                match oldt.parent_target(j as int) {
                    Some(t) => {
                        if !oldt.has_path(t) {
                            assert(lookup_failed);
                            assert(context.errors@[lookup_err_at as int] == (DMError {
                                location: oldt.resolver_error_location(j as int),
                                kind: ErrorKind::BadParentType,
                            }));
                            assert(old(context).errors@.len() <= lookup_err_at
                                < context.errors@.len());
                        }
                    },
                    None => {},
                }
                assert(pre_errors.is_prefix_of(context.errors@)) by {
                    assert(forall|x: int|
                        0 <= x < pre_errors.len() ==> pre_errors[x]
                            == #[trigger] context.errors@[x]);
                }
                assert forall|i: int|
                    #![trigger old(self).parent_type_var_expr(i)]
                    1 <= i < j + 1 implies (old(self).parent_type_var_expr(i) matches Some(e)
                    ==> override_path_of_expr(e) is None ==> exists|m: int|
                    old(context).errors@.len() <= m < context.errors@.len()
                        && #[trigger] context.errors@[m] == (DMError {
                        location: old(self).resolver_error_location(i),
                        kind: override_error_kind(e),
                    })) by {
                    if i < j {
                        match old(self).parent_type_var_expr(i) {
                            Some(e) => {
                                if override_path_of_expr(e) is None {
                                    let m = choose|m: int|
                                        old(context).errors@.len() <= m < pre_errors.len()
                                            && pre_errors[m] == (DMError {
                                            location: old(self).resolver_error_location(i),
                                            kind: override_error_kind(e),
                                        });
                                    assert(context.errors@[m] == pre_errors[m]);
                                }
                            },
                            None => {},
                        }
                    }
                }
                assert forall|i: int|
                    #![trigger old(self).parent_target(i)]
                    1 <= i < j + 1 implies (old(self).parent_target(i) matches Some(t) ==> !old(
                    self,
                ).has_path(t) ==> exists|m: int|
                    old(context).errors@.len() <= m < context.errors@.len()
                        && #[trigger] context.errors@[m] == (DMError {
                        location: old(self).resolver_error_location(i),
                        kind: ErrorKind::BadParentType,
                    })) by {
                    if i < j {
                        match old(self).parent_target(i) {
                            Some(t) => {
                                if !old(self).has_path(t) {
                                    let m = choose|m: int|
                                        old(context).errors@.len() <= m < pre_errors.len()
                                            && pre_errors[m] == (DMError {
                                            location: old(self).resolver_error_location(i),
                                            kind: ErrorKind::BadParentType,
                                        });
                                    assert(context.errors@[m] == pre_errors[m]);
                                }
                            },
                            None => {},
                        }
                    }
                }
            }
            proof {
                assert(old(context).errors@.is_prefix_of(context.errors@)) by {
                    assert(forall|x: int|
                        0 <= x < old(context).errors@.len() ==> old(context).errors@[x]
                            == #[trigger] context.errors@[x]);
                }
            }
            j += 1;
        }
    }
}

/// Holds when the two records agree on everything except what sits inside
/// their var slots.
pub open spec fn consts_only_changed(a: Type, b: Type) -> bool {
    &&& same_but_content(a, b)
    &&& b.procs == a.procs
    &&& b.docs == a.docs
    &&& b.vars.names@ == a.vars.names@
    &&& b.vars.key_map() == a.vars.key_map()
    &&& b.vars.slots@.len() == a.vars.slots@.len()
}

/// Holds when a slot is due for folding but its initializer is opaque to
/// the folder: the case strict finalization reports.
pub open spec fn unfoldable_slot(so: TypeVar) -> bool {
    &&& so.value.constant is None
    &&& !so.value.being_evaluated
    &&& (so.value.expression matches Some(e) && e is Opaque)
}

/// How constant folding leaves one var slot: everything but the constant
/// and the in-progress flag is kept; an unevaluated slot with a literal
/// initializer gains its value, one with an unfoldable initializer stays
/// without a constant, and a slot already holding a constant, already being
/// evaluated, or without an initializer is untouched.
pub open spec fn folded_slot(so: TypeVar, sn: TypeVar) -> bool {
    &&& sn.declaration == so.declaration
    &&& sn.value.location == so.value.location
    &&& sn.value.expression == so.value.expression
    &&& sn.value.docs == so.value.docs
    &&& (so.value.constant is Some ==> sn == so)
    &&& (so.value.being_evaluated ==> sn == so)
    &&& ((so.value.constant is None && !so.value.being_evaluated) ==> {
        &&& !sn.value.being_evaluated
        &&& (so.value.expression matches Some(e) ==> ((e matches Expression::Literal(c) ==> (
        sn.value.constant matches Some(c2) && same_constant(c2, c))) && (e is Opaque
            ==> sn.value.constant is None)))
        &&& (so.value.expression is None ==> sn == so)
    })
}

impl ObjectTree {
    /// Folds every variable's literal initializer into its constant, once,
    /// guarded by the in-progress flag; an unfoldable initializer is
    /// reported unless `sloppy` asks to continue silently.
    fn evaluate_constants(&mut self, context: &mut Context, sloppy: bool)
        requires
            old(self).wf(),
        ensures
            final(self).wf(),
            final(self).graph == old(self).graph,
            final(self).node_count() == old(self).node_count(),
            forall|j: int|
                0 <= j < old(self).node_count() ==> consts_only_changed(
                    old(self).node(j),
                    #[trigger] final(self).node(j),
                ),
            forall|j: int, k: int|
                0 <= j < old(self).node_count() && 0 <= k < old(self).node(
                    j,
                ).vars.slots@.len() ==> folded_slot(
                    old(self).node(j).vars.slots@[k],
                    #[trigger] final(self).node(j).vars.slots@[k],
                ),
            old(context).errors@.is_prefix_of(final(context).errors@),
            sloppy ==> final(context).errors@ == old(context).errors@,
            !sloppy ==> forall|j: int, k: int|
                #![trigger old(self).node(j).vars.slots@[k]]
                0 <= j < old(self).node_count() && 0 <= k < old(self).node(
                    j,
                ).vars.slots@.len() ==> (unfoldable_slot(old(self).node(j).vars.slots@[k])
                    ==> exists|m: int|
                    old(context).errors@.len() <= m < final(context).errors@.len()
                        && #[trigger] final(context).errors@[m] == (DMError {
                        location: old(self).node(j).vars.slots@[k].value.location,
                        kind: ErrorKind::NotAConstant,
                    })),
    {
        let n = self.nodes.len();
        let mut j: usize = 0;
        while j < n
            invariant
                self.wf(),
                n == self.nodes@.len(),
                j <= n,
                self.graph == old(self).graph,
                self.node_count() == old(self).node_count(),
                forall|i: int| j <= i < n ==> self.node(i) == old(self).node(i),
                forall|i: int|
                    0 <= i < j ==> consts_only_changed(
                        old(self).node(i),
                        #[trigger] self.node(i),
                    ),
                forall|i: int, k: int|
                    0 <= i < j && 0 <= k < old(self).node(i).vars.slots@.len() ==> folded_slot(
                        old(self).node(i).vars.slots@[k],
                        #[trigger] self.node(i).vars.slots@[k],
                    ),
                old(context).errors@.is_prefix_of(context.errors@),
                sloppy ==> context.errors@ == old(context).errors@,
                !sloppy ==> forall|i2: int, x: int|
                    #![trigger old(self).node(i2).vars.slots@[x]]
                    0 <= i2 < j && 0 <= x < old(self).node(i2).vars.slots@.len() ==> (
                    unfoldable_slot(old(self).node(i2).vars.slots@[x]) ==> exists|m2: int|
                        old(context).errors@.len() <= m2 < context.errors@.len()
                            && #[trigger] context.errors@[m2] == (DMError {
                            location: old(self).node(i2).vars.slots@[x].value.location,
                            kind: ErrorKind::NotAConstant,
                        })),
            decreases n - j,
        {
            let m = self.nodes[j].vars.len();
            let mut k: usize = 0;
            while k < m
                invariant
                    self.wf(),
                    n == self.nodes@.len(),
                    j < n,
                    k <= m,
                    m == old(self).node(j as int).vars.slots@.len(),
                    self.graph == old(self).graph,
                    self.node_count() == old(self).node_count(),
                    forall|i: int| j < i < n ==> self.node(i) == old(self).node(i),
                    forall|i: int|
                        0 <= i < j ==> consts_only_changed(
                            old(self).node(i),
                            #[trigger] self.node(i),
                        ),
                    forall|i: int, x: int|
                        0 <= i < j && 0 <= x < old(self).node(i).vars.slots@.len()
                            ==> folded_slot(
                            old(self).node(i).vars.slots@[x],
                            #[trigger] self.node(i).vars.slots@[x],
                        ),
                    consts_only_changed(old(self).node(j as int), self.node(j as int)),
                    forall|x: int|
                        0 <= x < k ==> folded_slot(
                            old(self).node(j as int).vars.slots@[x],
                            #[trigger] self.node(j as int).vars.slots@[x],
                        ),
                    forall|x: int|
                        k <= x < m ==> #[trigger] self.node(j as int).vars.slots@[x] == old(
                            self,
                        ).node(j as int).vars.slots@[x],
                    old(context).errors@.is_prefix_of(context.errors@),
                    sloppy ==> context.errors@ == old(context).errors@,
                    !sloppy ==> forall|i2: int, x: int|
                        #![trigger old(self).node(i2).vars.slots@[x]]
                        0 <= i2 < j && 0 <= x < old(self).node(i2).vars.slots@.len() ==> (
                        unfoldable_slot(old(self).node(i2).vars.slots@[x]) ==> exists|m2: int|
                            old(context).errors@.len() <= m2 < context.errors@.len()
                                && #[trigger] context.errors@[m2] == (DMError {
                                location: old(self).node(i2).vars.slots@[x].value.location,
                                kind: ErrorKind::NotAConstant,
                            })),
                    !sloppy ==> forall|x: int|
                        #![trigger old(self).node(j as int).vars.slots@[x]]
                        0 <= x < k ==> (unfoldable_slot(old(self).node(j as int).vars.slots@[x])
                            ==> exists|m2: int|
                            old(context).errors@.len() <= m2 < context.errors@.len()
                                && #[trigger] context.errors@[m2] == (DMError {
                                location: old(self).node(j as int).vars.slots@[x].value.location,
                                kind: ErrorKind::NotAConstant,
                            })),
                decreases m - k,
            {
                let ghost pre = *self;
                let ghost pre_errs = context.errors@;
                let needs = self.nodes[j].vars.slots[k].value.constant.is_none()
                    && !self.nodes[j].vars.slots[k].value.being_evaluated
                    && self.nodes[j].vars.slots[k].value.expression.is_some();
                if needs {
                    self.nodes[j].vars.slots[k].value.being_evaluated = true;
                    let loc = self.nodes[j].vars.slots[k].value.location;
                    let verdict: Result<Constant, DMError> = match &self.nodes[j].vars.slots[
                        k
                    ].value.expression {
                        Some(e) => e.simple_evaluate(loc),
                        None => {
                            proof {
                                assert(false);
                            }
                            Err(DMError::new(loc, ErrorKind::NotAConstant))
                        },
                    };
                    match verdict {
                        Ok(c) => {
                            self.nodes[j].vars.slots[k].value.constant = Some(c);
                        },
                        Err(er) => {
                            if !sloppy {
                                proof {
                                    assert(er == (DMError {
                                        location: old(self).node(
                                            j as int,
                                        ).vars.slots@[k as int].value.location,
                                        kind: ErrorKind::NotAConstant,
                                    }));
                                }
                                context.register_error(er);
                                proof {
                                    assert(old(context).errors@.is_prefix_of(context.errors@))
                                        by {
                                        assert(forall|x: int|
                                            0 <= x < old(context).errors@.len() ==> old(
                                                context,
                                            ).errors@[x] == #[trigger] context.errors@[x]);
                                    }
                                }
                            }
                        },
                    }
                    self.nodes[j].vars.slots[k].value.being_evaluated = false;
                    proof {
                        assert(self.node(j as int).vars.wf());
                        assert(self.node(j as int).wf());
                        ObjectTree::lemma_wf_node_refit(pre, *self, j as int);
                    }
                }
                proof {
                    if !sloppy {
                        assert(pre_errs.is_prefix_of(context.errors@)) by {
                            assert(forall|x: int|
                                0 <= x < pre_errs.len() ==> pre_errs[x]
                                    == #[trigger] context.errors@[x]);
                        }
                        assert forall|i2: int, x: int|
                            #![trigger old(self).node(i2).vars.slots@[x]]
                            0 <= i2 < j && 0 <= x < old(self).node(i2).vars.slots@.len() implies (
                        unfoldable_slot(old(self).node(i2).vars.slots@[x]) ==> exists|m2: int|
                            old(context).errors@.len() <= m2 < context.errors@.len()
                                && #[trigger] context.errors@[m2] == (DMError {
                                location: old(self).node(i2).vars.slots@[x].value.location,
                                kind: ErrorKind::NotAConstant,
                            })) by {
                            if unfoldable_slot(old(self).node(i2).vars.slots@[x]) {
                                let m2 = choose|m2: int|
                                    old(context).errors@.len() <= m2 < pre_errs.len()
                                        && pre_errs[m2] == (DMError {
                                        location: old(self).node(
                                            i2,
                                        ).vars.slots@[x].value.location,
                                        kind: ErrorKind::NotAConstant,
                                    });
                                assert(context.errors@[m2] == pre_errs[m2]);
                            }
                        }
                        assert forall|x: int|
                            #![trigger old(self).node(j as int).vars.slots@[x]]
                            0 <= x < k + 1 implies (unfoldable_slot(
                            old(self).node(j as int).vars.slots@[x],
                        ) ==> exists|m2: int|
                            old(context).errors@.len() <= m2 < context.errors@.len()
                                && #[trigger] context.errors@[m2] == (DMError {
                                location: old(self).node(j as int).vars.slots@[x].value.location,
                                kind: ErrorKind::NotAConstant,
                            })) by {
                            if x < k && unfoldable_slot(old(self).node(j as int).vars.slots@[x]) {
                                let m2 = choose|m2: int|
                                    old(context).errors@.len() <= m2 < pre_errs.len()
                                        && pre_errs[m2] == (DMError {
                                        location: old(self).node(
                                            j as int,
                                        ).vars.slots@[x].value.location,
                                        kind: ErrorKind::NotAConstant,
                                    });
                                assert(context.errors@[m2] == pre_errs[m2]);
                            }
                            if x == k && unfoldable_slot(old(self).node(j as int).vars.slots@[x]) {
                                assert(context.errors@[pre_errs.len() as int] == (DMError {
                                    location: old(self).node(
                                        j as int,
                                    ).vars.slots@[x].value.location,
                                    kind: ErrorKind::NotAConstant,
                                }));
                            }
                        }
                    }
                }
                k += 1;
            }
            j += 1;
        }
    }

    /// Finalizes the tree: resolves every semantic parent, then folds
    /// constants, in leniency mode passing over unfoldable initializers
    /// silently.  Run once, after all declarations are loaded; navigation
    /// by semantic parent is meaningful only afterwards.
    pub fn finalize(&mut self, context: &mut Context, sloppy: bool)
        requires
            old(self).wf(),
        ensures
            final(self).wf(),
            final(self).node_count() == old(self).node_count(),
            final(self).graph == old(self).graph,
            final(self).node(0).parent_type_idx is None,
            forall|j: int|
                1 <= j < old(self).node_count() ==> (#[trigger] final(self).node(
                    j,
                )).parent_type_idx == Some((old(self).resolved_parent(j)) as usize),
            forall|j: int|
                0 <= j < old(self).node_count() ==> {
                    let a = old(self).node(j);
                    let b = (#[trigger] final(self).node(j));
                    b.path == a.path && b.name == a.name && b.procs == a.procs
                },
            forall|j: int, k: int|
                0 <= j < old(self).node_count() && 0 <= k < old(self).node(
                    j,
                ).vars.slots@.len() ==> folded_slot(
                    old(self).node(j).vars.slots@[k],
                    #[trigger] final(self).node(j).vars.slots@[k],
                ),
            forall|j: int|
                0 <= j < old(self).node_count() ==> (#[trigger] final(self).node(
                    j,
                )).vars.names@ == old(self).node(j).vars.names@ && final(self).node(
                    j,
                ).vars.key_map() == old(self).node(j).vars.key_map(),
            old(context).errors@.is_prefix_of(final(context).errors@),
            forall|j: int|
                #![trigger old(self).parent_type_var_expr(j)]
                1 <= j < old(self).node_count() ==> (old(self).parent_type_var_expr(j)
                    matches Some(e) ==> override_path_of_expr(e) is None ==> exists|m: int|
                    old(context).errors@.len() <= m < final(context).errors@.len()
                        && #[trigger] final(context).errors@[m] == (DMError {
                        location: old(self).resolver_error_location(j),
                        kind: override_error_kind(e),
                    })),
            forall|j: int|
                #![trigger old(self).parent_target(j)]
                1 <= j < old(self).node_count() ==> (old(self).parent_target(j) matches Some(t)
                    ==> !old(self).has_path(t) ==> exists|m: int|
                    old(context).errors@.len() <= m < final(context).errors@.len()
                        && #[trigger] final(context).errors@[m] == (DMError {
                        location: old(self).resolver_error_location(j),
                        kind: ErrorKind::BadParentType,
                    })),
            !sloppy ==> forall|j: int, k: int|
                #![trigger old(self).node(j).vars.slots@[k]]
                0 <= j < old(self).node_count() && 0 <= k < old(self).node(
                    j,
                ).vars.slots@.len() ==> (unfoldable_slot(old(self).node(j).vars.slots@[k])
                    ==> exists|m: int|
                    old(context).errors@.len() <= m < final(context).errors@.len()
                        && #[trigger] final(context).errors@[m] == (DMError {
                        location: old(self).node(j).vars.slots@[k].value.location,
                        kind: ErrorKind::NotAConstant,
                    })),
    {
        let ghost o = *old(self);
        self.assign_parent_types(context);
        let ghost mid = *self;
        let ghost mid_errors = context.errors@;
        self.evaluate_constants(context, sloppy);
        proof {
            assert forall|j: int|
                0 <= j < o.node_count() && 0 <= j < o.node_count() implies mid.node(
                j,
            ).vars == o.node(j).vars by {
                if j == 0 {
                    assert(mid.node(0) == o.node(0));
                }
            }
            assert(old(context).errors@.is_prefix_of(context.errors@)) by {
                assert(forall|x: int|
                    0 <= x < old(context).errors@.len() ==> old(context).errors@[x]
                        == #[trigger] context.errors@[x]);
            }
            assert(forall|x: int|
                0 <= x < mid_errors.len() ==> mid_errors[x] == #[trigger] context.errors@[x]);
            assert forall|j: int|
                #![trigger o.parent_type_var_expr(j)]
                1 <= j < o.node_count() implies (o.parent_type_var_expr(j) matches Some(e)
                ==> override_path_of_expr(e) is None ==> exists|m: int|
                old(context).errors@.len() <= m < context.errors@.len()
                    && #[trigger] context.errors@[m] == (DMError {
                    location: o.resolver_error_location(j),
                    kind: override_error_kind(e),
                })) by {
                match o.parent_type_var_expr(j) {
                    Some(e) => {
                        if override_path_of_expr(e) is None {
                            let m = choose|m: int|
                                old(context).errors@.len() <= m < mid_errors.len()
                                    && mid_errors[m] == (DMError {
                                    location: o.resolver_error_location(j),
                                    kind: override_error_kind(e),
                                });
                            assert(context.errors@[m] == mid_errors[m]);
                        }
                    },
                    None => {},
                }
            }
            assert forall|j: int|
                #![trigger o.parent_target(j)]
                1 <= j < o.node_count() implies (o.parent_target(j) matches Some(t) ==> !o.has_path(
                t,
            ) ==> exists|m: int|
                old(context).errors@.len() <= m < context.errors@.len()
                    && #[trigger] context.errors@[m] == (DMError {
                    location: o.resolver_error_location(j),
                    kind: ErrorKind::BadParentType,
                })) by {
                match o.parent_target(j) {
                    Some(t) => {
                        if !o.has_path(t) {
                            let m = choose|m: int|
                                old(context).errors@.len() <= m < mid_errors.len()
                                    && mid_errors[m] == (DMError {
                                    location: o.resolver_error_location(j),
                                    kind: ErrorKind::BadParentType,
                                });
                            assert(context.errors@[m] == mid_errors[m]);
                        }
                    },
                    None => {},
                }
            }
            if !sloppy {
                assert forall|j: int, k: int|
                    #![trigger o.node(j).vars.slots@[k]]
                    0 <= j < o.node_count() && 0 <= k < o.node(j).vars.slots@.len() implies (
                unfoldable_slot(o.node(j).vars.slots@[k]) ==> exists|m: int|
                    old(context).errors@.len() <= m < context.errors@.len()
                        && #[trigger] context.errors@[m] == (DMError {
                        location: o.node(j).vars.slots@[k].value.location,
                        kind: ErrorKind::NotAConstant,
                    })) by {
                    assert(mid.node(j).vars == o.node(j).vars);
                    if unfoldable_slot(mid.node(j).vars.slots@[k]) {
                        let m = choose|m: int|
                            mid_errors.len() <= m < context.errors@.len()
                                && #[trigger] context.errors@[m] == (DMError {
                                location: mid.node(j).vars.slots@[k].value.location,
                                kind: ErrorKind::NotAConstant,
                            });
                    }
                }
            }
        }
    }
}

impl Default for ObjectTree {
    /// An empty tree: the root node alone.
    fn default() -> (r: ObjectTree)
        ensures
            r.wf(),
            r.node_count() == 1,
            r.node(0).vars.spec_len() == 0,
            r.node(0).procs.spec_len() == 0,
            r.node(0).location_specificity == 0,
            r.node(0).docs.elems@.len() == 0,
            r.children(0).len() == 0,
            forall|p: Seq<char>| !(#[trigger] r.has_path(p)),
    {
        ObjectTree::new()
    }
}

/// Holds when `b` is `a` with at most the location fields changed.
pub open spec fn unchanged_but_location(a: Type, b: Type) -> bool {
    &&& b.name == a.name
    &&& b.path == a.path
    &&& b.vars == a.vars
    &&& b.procs == a.procs
    &&& b.parent_type_idx == a.parent_type_idx
    &&& b.docs == a.docs
}

/// Holds when the trees agree on everything except the location fields of
/// node `c`.
pub open spec fn final_eq_frame(a: ObjectTree, b: ObjectTree, c: int) -> bool {
    &&& b.node_count() == a.node_count()
    &&& b.graph == a.graph
    &&& forall|i: int| 0 <= i < a.node_count() && i != c ==> b.node(i) == a.node(i)
    &&& unchanged_but_location(a.node(c), b.node(c))
}

} // verus!
