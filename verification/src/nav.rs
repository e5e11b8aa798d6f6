//! Read-only navigation over the finished tree: reference handles, child
//! lookup, the three relative-path operators, ancestor walks, subtype tests
//! and inherited var/proc resolution.
//!
//! Semantic-parent walks follow `parent_type` handles, which user overrides
//! can in principle arrange into a loop; every walk therefore visits at most
//! one node more than the tree holds and reports a miss after that, so all
//! navigation terminates on every tree.

use vstd::prelude::*;
use crate::objtree::{ObjectTree, ProcDeclaration, ProcValue, Type, VarDeclaration, VarValue};
use crate::strutil::str_eq;

verus! {

/// A lightweight, copyable handle to one type node of one tree.
pub struct TypeRef<'a> {
    pub tree: &'a ObjectTree,
    pub idx: usize,
}

impl<'a> Clone for TypeRef<'a> {
    fn clone(&self) -> (r: Self)
        ensures
            r == *self,
    {
        TypeRef { tree: self.tree, idx: self.idx }
    }
}

impl<'a> Copy for TypeRef<'a> {}

impl ObjectTree {
    /// One step along the semantic-parent chain.
    pub open spec fn sem_step(self, i: int) -> Option<int> {
        match self.node(i).parent_type_idx {
            Some(p) => Some(p as int),
            None => None,
        }
    }

    /// The node `k` semantic-parent steps above `t`, when every step exists.
    pub open spec fn sem_chain(self, t: int, k: nat) -> Option<int>
        decreases k,
    {
        if k == 0 {
            Some(t)
        } else {
            match self.sem_chain(t, (k - 1) as nat) {
                None => None,
                Some(x) => if 0 <= x < self.node_count() {
                    self.sem_step(x)
                } else {
                    None
                },
            }
        }
    }

    /// Holds when the semantic-parent chain from `t` passes through `x`.
    pub open spec fn sem_reaches(self, t: int, x: int) -> bool {
        exists|k: nat| self.sem_chain(t, k) == Some(x)
    }

    /// Chain values stay inside the arena.
    pub proof fn lemma_chain_in_range(self, t: int, k: nat)
        requires
            self.wf(),
            0 <= t < self.node_count(),
        ensures
            self.sem_chain(t, k) matches Some(x) ==> 0 <= x < self.node_count(),
        decreases k,
    {
        if k > 0 {
            self.lemma_chain_in_range(t, (k - 1) as nat);
        }
    }

    /// A defined chain position has every earlier position defined too.
    pub proof fn lemma_chain_prefix(self, t: int, j: nat, k: nat)
        requires
            j <= k,
            self.sem_chain(t, k) is Some,
        ensures
            self.sem_chain(t, j) is Some,
        decreases k,
    {
        if j < k {
            self.lemma_chain_prefix(t, j, (k - 1) as nat);
        }
    }

    /// Walking `a` steps and then `b` more is walking `a + b`.
    pub proof fn lemma_chain_compose(self, t: int, a: nat, b: nat, y: int)
        requires
            self.sem_chain(t, a) == Some(y),
        ensures
            self.sem_chain(t, a + b) == self.sem_chain(y, b),
        decreases b,
    {
        if b == 0 {
        } else {
            self.lemma_chain_compose(t, a, (b - 1) as nat, y);
            assert(a + b == (a + (b - 1) as nat) + 1);
        }
    }
}

impl ObjectTree {
    /// The handle of the tree's root node.
    pub fn root<'a>(&'a self) -> (r: TypeRef<'a>)
        ensures
            r.tree == self,
            r.idx == 0,
    {
        TypeRef { tree: self, idx: 0 }
    }

    /// The handle registered under an exact path, if any.
    pub fn find<'a>(&'a self, path: &str) -> (r: Option<TypeRef<'a>>)
        requires
            self.wf(),
        ensures
            match r {
                Some(t) => t.tree == self && 1 <= t.idx < self.node_count() && self.node(
                    t.idx as int,
                ).path@ == path@ && self.has_path(path@) && t.idx == self.path_index(path@),
                None => !self.has_path(path@),
            },
    {
        match self.find_index(path) {
            Some(i) => Some(TypeRef { tree: self, idx: i }),
            None => None,
        }
    }

    /// The handle registered under a path the caller guarantees to exist.
    pub fn expect<'a>(&'a self, path: &str) -> (r: TypeRef<'a>)
        requires
            self.wf(),
            self.has_path(path@),
        ensures
            r.tree == self && 1 <= r.idx < self.node_count() && self.node(r.idx as int).path@
                == path@,
    {
        match self.find_index(path) {
            Some(i) => TypeRef { tree: self, idx: i },
            None => {
                proof {
                    assert(false);
                }
                TypeRef { tree: self, idx: 0 }
            },
        }
    }
}

impl<'a> TypeRef<'a> {
    /// The handle is a valid reference into a well-formed tree.
    pub open spec fn wf(self) -> bool {
        &&& self.tree.wf()
        &&& (self.idx as int) < self.tree.node_count()
    }

    /// Builds a handle into a tree.
    pub fn new(tree: &'a ObjectTree, idx: usize) -> (r: TypeRef<'a>)
        ensures
            r == (TypeRef { tree, idx }),
    {
        TypeRef { tree, idx }
    }

    /// The node this handle refers to.
    pub fn get(self) -> (r: &'a Type)
        requires
            self.wf(),
        ensures
            *r == self.tree.node(self.idx as int),
    {
        &self.tree.nodes[self.idx]
    }

    /// The parent by lexical **path**, without `parent_type`; absent only
    /// for the root.
    pub fn parent_path(&self) -> (r: Option<TypeRef<'a>>)
        requires
            self.wf(),
        ensures
            match r {
                Some(t) => t.tree == self.tree && self.idx > 0 && t.idx as int
                    == self.tree.lex_parent(self.idx as int) && t.idx < self.idx,
                None => self.idx == 0,
            },
    {
        let lp = crate::edges::graph_parent_of(&self.tree.graph, self.idx);
        match lp {
            Some(p) => {
                proof {
                    let tree = *self.tree;
                    let j = self.idx as int;
                    assert(crate::edges::graph_children(tree.graph).contains_key(p as int));
                    assert(0 <= (p as int) && (p as int) < tree.node_count());
                    assert(tree.children(p as int).contains(j));
                    let kk = choose|k: int|
                        0 <= k < tree.children(p as int).len() && tree.children(p as int)[k]
                            == j;
                    assert(tree.is_child_at(p as int, kk, j));
                    assert(j != 0);
                    assert(tree.lex_parent(j) == p as int) by {
                        let (i1, k1) = choose|i: int, k: int| tree.is_child_at(i, k, j);
                        assert(i1 == p as int && k1 == kk);
                    }
                    assert((p as int) < j);
                }
                Some(TypeRef { tree: self.tree, idx: p })
            },
            None => {
                proof {
                    let tree = *self.tree;
                    let j = self.idx as int;
                    if j != 0 {
                        assert(tree.has_lex_parent(j));
                        let (i0, k0) = choose|i: int, k: int| tree.is_child_at(i, k, j);
                        assert(crate::edges::graph_children(tree.graph).contains_key(i0));
                        assert(tree.children(i0).contains(j)) by {
                            assert(tree.children(i0)[k0] == j);
                        }
                        assert(false);
                    }
                }
                None
            },
        }
    }

    /// The parent **type** by the resolved `parent_type` handle; meaningful
    /// only after finalization, absent for the root.
    pub fn parent_type(&self) -> (r: Option<TypeRef<'a>>)
        requires
            self.wf(),
        ensures
            match r {
                Some(t) => t.tree == self.tree && self.tree.sem_step(self.idx as int) == Some(
                    t.idx as int,
                ) && (t.idx as int) < self.tree.node_count(),
                None => self.tree.sem_step(self.idx as int) is None,
            },
    {
        match self.tree.nodes[self.idx].parent_type_idx {
            Some(p) => Some(TypeRef { tree: self.tree, idx: p }),
            None => None,
        }
    }

    /// The direct lexical child with the given name, if it exists.
    pub fn child(&self, name: &str) -> (r: Option<TypeRef<'a>>)
        requires
            self.wf(),
        ensures
            match r {
                Some(t) => t.tree == self.tree && self.tree.has_child_named(
                    self.idx as int,
                    name@,
                ) && t.idx as int == self.tree.child_named(self.idx as int, name@) && (
                t.idx as int) < self.tree.node_count() && self.tree.node(t.idx as int).name@
                    == name@,
                None => !self.tree.has_child_named(self.idx as int, name@),
            },
    {
        match self.tree.child_of(self.idx, name) {
            Some(c) => Some(TypeRef { tree: self.tree, idx: c }),
            None => None,
        }
    }

    /// Every direct lexical child, in declaration order.
    pub fn children(&self) -> (r: Vec<TypeRef<'a>>)
        requires
            self.wf(),
        ensures
            r@.len() == self.tree.children(self.idx as int).len(),
            forall|m: int|
                0 <= m < r@.len() ==> (#[trigger] r@[m]).tree == self.tree && r@[m].idx as int
                    == self.tree.children(self.idx as int)[m] && r@[m].wf(),
    {
        let kids = crate::edges::graph_children_of(&self.tree.graph, self.idx);
        let ghost cs = self.tree.children(self.idx as int);
        let mut out: Vec<TypeRef<'a>> = Vec::new();
        let n = kids.len();
        proof {
            assert(kids@.map_values(|x: usize| x as int).len() == kids@.len());
            assert(cs.reverse().len() == cs.len());
        }
        let mut m: usize = 0;
        while m < n
            invariant
                self.wf(),
                n == kids@.len(),
                n == cs.len(),
                cs == self.tree.children(self.idx as int),
                kids@.map_values(|x: usize| x as int) == cs.reverse(),
                m <= n,
                out@.len() == m,
                forall|x: int|
                    0 <= x < m ==> (#[trigger] out@[x]).tree == self.tree && out@[x].idx as int
                        == cs[x] && out@[x].wf(),
            decreases n - m,
        {
            let c = kids[n - 1 - m];
            proof {
                assert(kids@.map_values(|x: usize| x as int)[n - 1 - m] == kids@[n - 1
                    - m] as int);
                assert(cs.reverse()[n - 1 - m] == cs[m as int]);
                assert(self.tree.is_child_at(self.idx as int, m as int, c as int));
            }
            out.push(TypeRef { tree: self.tree, idx: c });
            m += 1;
        }
        out
    }
}

/// Holds when some node within `fuel` semantic-parent steps of `t` carries
/// the path `p`.
pub open spec fn subtype_path_within(tree: ObjectTree, t: int, p: Seq<char>, fuel: nat) -> bool {
    exists|k: nat|
        k <= fuel && (match #[trigger] tree.sem_chain(t, k) {
            Some(x) => tree.node(x).path@ == p,
            None => false,
        })
}

/// Holds when the node `k` semantic-parent steps above `t` exists and has a
/// variable named `name`.
pub open spec fn var_found_at(tree: ObjectTree, t: int, name: Seq<char>, k: nat) -> bool {
    match tree.sem_chain(t, k) {
        Some(x) => tree.node(x).vars.contains(name),
        None => false,
    }
}

/// Holds when the node `k` steps above `t` declares (not merely overrides)
/// a variable named `name`.
pub open spec fn var_decl_found_at(tree: ObjectTree, t: int, name: Seq<char>, k: nat) -> bool {
    match tree.sem_chain(t, k) {
        Some(x) => tree.node(x).vars.contains(name) && tree.node(x).vars.at(
            name,
        ).declaration is Some,
        None => false,
    }
}

impl<'a> TypeRef<'a> {
    /// Checks whether this type is `parent` or has it among its semantic
    /// ancestors, walking `parent_type` and comparing by path, which is
    /// identity within one tree.  At most one step per node of the tree is
    /// taken, so a pathological `parent_type` loop reports a miss rather
    /// than cycling.
    pub fn is_subtype_of(self, parent: &Type) -> (r: bool)
        requires
            self.wf(),
        ensures
            r == subtype_path_within(
                *self.tree,
                self.idx as int,
                parent.path@,
                self.tree.node_count() as nat,
            ),
    {
        let n = self.tree.nodes.len();
        let ghost t = self.idx as int;
        let ghost p = parent.path@;
        let mut cur: usize = self.idx;
        let mut steps: usize = 0;
        loop
            invariant
                self.wf(),
                n == self.tree.node_count(),
                t == self.idx as int,
                p == parent.path@,
                steps <= n,
                cur < n,
                self.tree.sem_chain(t, steps as nat) == Some(cur as int),
                forall|k: nat|
                    k < steps ==> !(match #[trigger] self.tree.sem_chain(t, k) {
                        Some(x) => self.tree.node(x).path@ == p,
                        None => false,
                    }),
            decreases n - steps,
        {
            if str_eq(self.tree.nodes[cur].path.as_str(), parent.path.as_str()) {
                proof {
                    assert(self.tree.sem_chain(t, steps as nat) == Some(cur as int));
                }
                return true;
            }
            if steps == n {
                proof {
                    assert forall|k: nat|
                        k <= n ==> !(match #[trigger] self.tree.sem_chain(t, k) {
                            Some(x) => self.tree.node(x).path@ == p,
                            None => false,
                        }) by {}
                }
                return false;
            }
            match self.tree.nodes[cur].parent_type_idx {
                Some(pt) => {
                    proof {
                        self.tree.lemma_chain_in_range(t, (steps + 1) as nat);
                    }
                    cur = pt;
                    steps = steps + 1;
                },
                None => {
                    proof {
                        assert forall|k: nat|
                            !(match #[trigger] self.tree.sem_chain(t, k) {
                                Some(x) => self.tree.node(x).path@ == p,
                                None => false,
                            }) by {
                            if k > steps {
                                if self.tree.sem_chain(t, k) is Some {
                                    self.tree.lemma_chain_prefix(t, (steps + 1) as nat, k);
                                    assert(self.tree.sem_chain(t, (steps + 1) as nat) is None);
                                }
                            }
                        }
                    }
                    return false;
                },
            }
        }
    }

    /// The value of the nearest variable slot named `name`, declared or
    /// overridden, walking this type then its semantic ancestors; absent
    /// when no ancestor knows the name.
    pub fn get_value(self, name: &str) -> (r: Option<&'a VarValue>)
        requires
            self.wf(),
        ensures
            match r {
                Some(v) => exists|k: nat|
                    #![trigger self.tree.sem_chain(self.idx as int, k)]
                    k <= self.tree.node_count() && var_found_at(
                        *self.tree,
                        self.idx as int,
                        name@,
                        k,
                    ) && (self.tree.sem_chain(self.idx as int, k) matches Some(x) && *v
                        == self.tree.node(x).vars.at(name@).value) && forall|j: nat|
                        j < k ==> !var_found_at(*self.tree, self.idx as int, name@, j),
                None => forall|k: nat|
                    k <= self.tree.node_count() ==> !var_found_at(
                        *self.tree,
                        self.idx as int,
                        name@,
                        k,
                    ),
            },
    {
        let n = self.tree.nodes.len();
        let ghost t = self.idx as int;
        let mut cur: usize = self.idx;
        let mut steps: usize = 0;
        loop
            invariant
                self.wf(),
                n == self.tree.node_count(),
                t == self.idx as int,
                steps <= n,
                cur < n,
                self.tree.sem_chain(t, steps as nat) == Some(cur as int),
                forall|j: nat| j < steps ==> !var_found_at(*self.tree, t, name@, j),
            decreases n - steps,
        {
            proof {
                assert(self.tree.node(cur as int).wf());
            }
            match self.tree.nodes[cur].vars.get(name) {
                Some(tv) => {
                    return Some(&tv.value);
                },
                None => {},
            }
            if steps == n {
                return None;
            }
            match self.tree.nodes[cur].parent_type_idx {
                Some(pt) => {
                    proof {
                        self.tree.lemma_chain_in_range(t, (steps + 1) as nat);
                    }
                    cur = pt;
                    steps = steps + 1;
                },
                None => {
                    proof {
                        assert forall|k: nat|
                            k <= self.tree.node_count() implies !var_found_at(
                            *self.tree,
                            t,
                            name@,
                            k,
                        ) by {
                            if k > steps {
                                if self.tree.sem_chain(t, k) is Some {
                                    self.tree.lemma_chain_prefix(t, (steps + 1) as nat, k);
                                    assert(self.tree.sem_chain(t, (steps + 1) as nat) is None);
                                }
                            }
                        }
                    }
                    return None;
                },
            }
        }
    }

    /// The nearest declaration record for `name` along the semantic
    /// ancestor walk, skipping ancestors that only hold an override.
    pub fn get_var_declaration(self, name: &str) -> (r: Option<&'a VarDeclaration>)
        requires
            self.wf(),
        ensures
            match r {
                Some(d) => exists|k: nat|
                    #![trigger self.tree.sem_chain(self.idx as int, k)]
                    k <= self.tree.node_count() && var_decl_found_at(
                        *self.tree,
                        self.idx as int,
                        name@,
                        k,
                    ) && (self.tree.sem_chain(self.idx as int, k) matches Some(x) && self.tree.node(
                        x,
                    ).vars.at(name@).declaration matches Some(d0) && *d == d0) && forall|j: nat|
                        j < k ==> !var_decl_found_at(*self.tree, self.idx as int, name@, j),
                None => forall|k: nat|
                    k <= self.tree.node_count() ==> !var_decl_found_at(
                        *self.tree,
                        self.idx as int,
                        name@,
                        k,
                    ),
            },
    {
        let n = self.tree.nodes.len();
        let ghost t = self.idx as int;
        let mut cur: usize = self.idx;
        let mut steps: usize = 0;
        loop
            invariant
                self.wf(),
                n == self.tree.node_count(),
                t == self.idx as int,
                steps <= n,
                cur < n,
                self.tree.sem_chain(t, steps as nat) == Some(cur as int),
                forall|j: nat| j < steps ==> !var_decl_found_at(*self.tree, t, name@, j),
            decreases n - steps,
        {
            proof {
                assert(self.tree.node(cur as int).wf());
            }
            match self.tree.nodes[cur].vars.get(name) {
                Some(tv) => {
                    match &tv.declaration {
                        Some(d) => {
                            return Some(d);
                        },
                        None => {},
                    }
                },
                None => {},
            }
            if steps == n {
                return None;
            }
            match self.tree.nodes[cur].parent_type_idx {
                Some(pt) => {
                    proof {
                        self.tree.lemma_chain_in_range(t, (steps + 1) as nat);
                    }
                    cur = pt;
                    steps = steps + 1;
                },
                None => {
                    proof {
                        assert forall|k: nat|
                            k <= self.tree.node_count() implies !var_decl_found_at(
                            *self.tree,
                            t,
                            name@,
                            k,
                        ) by {
                            if k > steps {
                                if self.tree.sem_chain(t, k) is Some {
                                    self.tree.lemma_chain_prefix(t, (steps + 1) as nat, k);
                                    assert(self.tree.sem_chain(t, (steps + 1) as nat) is None);
                                }
                            }
                        }
                    }
                    return None;
                },
            }
        }
    }
}

/// Upward search: the child named `name` of `i` or of its nearest lexical
/// ancestor, fuel-bounded; `i + 1` fuel always suffices since lexical
/// parents have strictly smaller handles.
pub open spec fn upward_find(tree: ObjectTree, i: int, name: Seq<char>, fuel: nat) -> Option<int>
    decreases fuel,
{
    if fuel == 0 {
        None
    } else if tree.has_child_named(i, name) {
        Some(tree.child_named(i, name))
    } else if i == 0 {
        None
    } else {
        upward_find(tree, tree.lex_parent(i), name, (fuel - 1) as nat)
    }
}

/// With fuel to spare, the upward search's answer does not depend on it.
pub proof fn lemma_upward_fuel(tree: ObjectTree, i: int, name: Seq<char>, f1: nat, f2: nat)
    requires
        tree.wf(),
        0 <= i < tree.node_count(),
        f1 >= i + 1,
        f2 >= i + 1,
    ensures
        upward_find(tree, i, name, f1) == upward_find(tree, i, name, f2),
    decreases i,
{
    if !tree.has_child_named(i, name) && i != 0 {
        assert(tree.has_lex_parent(i));
        let (p, k) = choose|p: int, k: int| tree.is_child_at(p, k, i);
        assert(tree.lex_parent(i) == p);
        assert(p < i);
        lemma_upward_fuel(tree, p, name, (f1 - 1) as nat, (f2 - 1) as nat);
    }
}

/// Downward search: the child named `name` of `i`, or the first match found
/// depth-first among `i`'s children's subtrees, in child-declaration order.
pub open spec fn dfs_find(tree: ObjectTree, i: int, name: Seq<char>) -> Option<int>
    decreases tree.node_count() - i, 1int, 0int,
        when tree.wf() && 0 <= i < tree.node_count()
{
    if tree.has_child_named(i, name) {
        Some(tree.child_named(i, name))
    } else {
        dfs_list(tree, i, 0, name)
    }
}

/// The downward search over `i`'s children from position `k` on.
pub open spec fn dfs_list(tree: ObjectTree, i: int, k: int, name: Seq<char>) -> Option<int>
    decreases tree.node_count() - i, 0int, tree.children(i).len() - k,
        when tree.wf() && 0 <= i < tree.node_count() && 0 <= k
{
    if k >= tree.children(i).len() {
        None
    } else {
        match dfs_find(tree, tree.children(i)[k], name) {
            Some(c) => Some(c),
            None => dfs_list(tree, i, k + 1, name),
        }
    }
}

/// What one navigation step resolves to under each operator.
pub open spec fn navigate_spec(
    tree: ObjectTree,
    i: int,
    op: crate::ast::PathOp,
    name: Seq<char>,
) -> Option<int> {
    match op {
        crate::ast::PathOp::Slash => if tree.has_child_named(i, name) {
            Some(tree.child_named(i, name))
        } else {
            None
        },
        crate::ast::PathOp::Dot => upward_find(tree, i, name, (i + 1) as nat),
        crate::ast::PathOp::Colon => dfs_find(tree, i, name),
    }
}

/// The depth-first downward search, as the `:` operator uses it.
fn navigate_colon(tree: &ObjectTree, i: usize, name: &str) -> (r: Option<usize>)
    requires
        tree.wf(),
        i < tree.node_count(),
    ensures
        match r {
            Some(c) => dfs_find(*tree, i as int, name@) == Some(c as int) && c
                < tree.node_count(),
            None => dfs_find(*tree, i as int, name@) is None,
        },
    decreases tree.node_count() - i,
{
    match tree.child_of(i, name) {
        Some(c) => {
            return Some(c);
        },
        None => {},
    }
    let kids = crate::edges::graph_children_of(&tree.graph, i);
    let ghost cs = tree.children(i as int);
    let n = kids.len();
    proof {
        assert(kids@.map_values(|x: usize| x as int).len() == kids@.len());
        assert(cs.reverse().len() == cs.len());
    }
    let mut k: usize = 0;
    while k < n
        invariant
            tree.wf(),
            i < tree.node_count(),
            !tree.has_child_named(i as int, name@),
            n == kids@.len(),
            n == cs.len(),
            cs == tree.children(i as int),
            kids@.map_values(|x: usize| x as int) == cs.reverse(),
            k <= n,
            dfs_list(*tree, i as int, 0, name@) == dfs_list(*tree, i as int, k as int, name@),
        decreases n - k,
    {
        let c = kids[n - 1 - k];
        proof {
            assert(kids@.map_values(|x: usize| x as int)[n - 1 - k] == kids@[n - 1 - k] as int);
            assert(cs.reverse()[n - 1 - k] == cs[k as int]);
            assert(tree.is_child_at(i as int, k as int, c as int));
        }
        let sub = navigate_colon(tree, c, name);
        match sub {
            Some(f) => {
                proof {
                    assert(dfs_list(*tree, i as int, k as int, name@) == Some(f as int));
                }
                return Some(f);
            },
            None => {
                proof {
                    assert(dfs_list(*tree, i as int, k as int, name@) == dfs_list(
                        *tree,
                        i as int,
                        k as int + 1,
                        name@,
                    ));
                }
            },
        }
        k += 1;
    }
    None
}

impl<'a> TypeRef<'a> {
    /// Navigates one step by the given path operator: `/` a direct child,
    /// `.` a child of this node or of any lexical ancestor, `:` the first
    /// depth-first match below this node, in child-declaration order.
    pub fn navigate(self, op: crate::ast::PathOp, name: &str) -> (r: Option<TypeRef<'a>>)
        requires
            self.wf(),
        ensures
            match r {
                Some(t) => t.tree == self.tree && navigate_spec(
                    *self.tree,
                    self.idx as int,
                    op,
                    name@,
                ) == Some(t.idx as int) && t.wf(),
                None => navigate_spec(*self.tree, self.idx as int, op, name@) is None,
            },
    {
        match op {
            crate::ast::PathOp::Slash => self.child(name),
            crate::ast::PathOp::Dot => {
                let ghost fuel0 = (self.idx + 1) as nat;
                let mut cur: usize = self.idx;
                loop
                    invariant
                        self.wf(),
                        cur < self.tree.node_count(),
                        upward_find(*self.tree, self.idx as int, name@, fuel0) == upward_find(
                            *self.tree,
                            cur as int,
                            name@,
                            (cur + 1) as nat,
                        ),
                        fuel0 == (self.idx + 1) as nat,
                        op is Dot,
                    decreases cur,
                {
                    let cref = TypeRef { tree: self.tree, idx: cur };
                    match cref.child(name) {
                        Some(t) => {
                            proof {
                                assert(upward_find(
                                    *self.tree,
                                    cur as int,
                                    name@,
                                    (cur + 1) as nat,
                                ) == Some(self.tree.child_named(cur as int, name@)));
                            }
                            return Some(t);
                        },
                        None => {},
                    }
                    if cur == 0 {
                        proof {
                            assert(upward_find(*self.tree, 0int, name@, 1nat) is None);
                        }
                        return None;
                    }
                    let pp = cref.parent_path();
                    match pp {
                        Some(par) => {
                            proof {
                                lemma_upward_fuel(
                                    *self.tree,
                                    par.idx as int,
                                    name@,
                                    (cur + 1 - 1) as nat,
                                    (par.idx + 1) as nat,
                                );
                            }
                            cur = par.idx;
                        },
                        None => {
                            proof {
                                assert(false);
                            }
                            return None;
                        },
                    }
                }
            },
            crate::ast::PathOp::Colon => {
                match navigate_colon(self.tree, self.idx, name) {
                    Some(c) => {
                        proof {
                            assert((c as int) < self.tree.node_count());
                            assert(navigate_spec(*self.tree, self.idx as int, op, name@)
                                == Some(c as int));
                        }
                        Some(TypeRef { tree: self.tree, idx: c })
                    },
                    None => {
                        proof {
                            assert(navigate_spec(*self.tree, self.idx as int, op, name@)
                                is None);
                        }
                        None
                    },
                }
            },
        }
    }
}

/// What resolving the remaining `(operator, name)` pairs from position `k`
/// yields, starting from `cur`.
pub open spec fn nav_from(
    tree: ObjectTree,
    cur: Option<int>,
    pieces: Seq<(crate::ast::PathOp, Seq<char>)>,
    k: int,
) -> Option<int>
    decreases pieces.len() - k,
        when 0 <= k
{
    if k >= pieces.len() {
        cur
    } else {
        match cur {
            None => None,
            Some(i) => if 0 <= i < tree.node_count() {
                nav_from(tree, navigate_spec(tree, i, pieces[k].0, pieces[k].1), pieces, k + 1)
            } else {
                None
            },
        }
    }
}

/// What a full relative path resolves to from `start`: a leading `/`
/// restarts from the global root, matching the language's convention that a
/// fully rooted path is absolute.
pub open spec fn navigate_path_spec(
    tree: ObjectTree,
    start: int,
    pieces: Seq<(crate::ast::PathOp, Seq<char>)>,
) -> Option<int> {
    if pieces.len() == 0 {
        Some(start)
    } else if pieces[0].0 is Slash {
        nav_from(tree, navigate_spec(tree, 0, crate::ast::PathOp::Slash, pieces[0].1), pieces, 1)
    } else {
        nav_from(tree, navigate_spec(tree, start, pieces[0].0, pieces[0].1), pieces, 1)
    }
}

impl<'a> TypeRef<'a> {
    /// Resolves a sequence of `(operator, name)` pairs starting here,
    /// restarting from the root when the very first operator is `/`; absent
    /// as soon as any step fails.
    pub fn navigate_path(self, pieces: &Vec<(crate::ast::PathOp, String)>) -> (r: Option<
        TypeRef<'a>,
    >)
        requires
            self.wf(),
        ensures
            ({
                let pv = Seq::new(
                    pieces@.len(),
                    |i: int| (pieces@[i].0, pieces@[i].1@),
                );
                match r {
                    Some(t) => t.tree == self.tree && navigate_path_spec(
                        *self.tree,
                        self.idx as int,
                        pv,
                    ) == Some(t.idx as int) && t.wf(),
                    None => navigate_path_spec(*self.tree, self.idx as int, pv) is None,
                }
            }),
    {
        let ghost pv = Seq::new(pieces@.len(), |i: int| (pieces@[i].0, pieces@[i].1@));
        let n = pieces.len();
        if n == 0 {
            return Some(self);
        }
        let first = match pieces[0].0 {
            crate::ast::PathOp::Slash => {
                let root = TypeRef { tree: self.tree, idx: 0 };
                root.navigate(crate::ast::PathOp::Slash, pieces[0].1.as_str())
            },
            crate::ast::PathOp::Dot => self.navigate(
                crate::ast::PathOp::Dot,
                pieces[0].1.as_str(),
            ),
            crate::ast::PathOp::Colon => self.navigate(
                crate::ast::PathOp::Colon,
                pieces[0].1.as_str(),
            ),
        };
        let mut cur = first;
        let mut k: usize = 1;
        proof {
            assert(pv[0] == (pieces@[0].0, pieces@[0].1@));
        }
        while k < n
            invariant
                self.wf(),
                n == pieces@.len(),
                pv == Seq::new(pieces@.len(), |i: int| (pieces@[i].0, pieces@[i].1@)),
                1 <= k <= n,
                match cur {
                    Some(t) => t.tree == self.tree && t.wf() && navigate_path_spec(
                        *self.tree,
                        self.idx as int,
                        pv,
                    ) == nav_from(*self.tree, Some(t.idx as int), pv, k as int),
                    None => navigate_path_spec(*self.tree, self.idx as int, pv) == nav_from(
                        *self.tree,
                        None,
                        pv,
                        k as int,
                    ),
                },
            decreases n - k,
        {
            proof {
                assert(pv[k as int] == (pieces@[k as int].0, pieces@[k as int].1@));
            }
            match cur {
                Some(t) => {
                    cur = t.navigate(pieces[k].0, pieces[k].1.as_str());
                },
                None => {
                    return None;
                },
            }
            k += 1;
        }
        cur
    }
}

// ---------------------------------------------------------------------------
// Procedure references and inherited proc resolution

/// Holds when the node `k` semantic-parent steps above `t` exists and has a
/// procedure named `name`.
pub open spec fn proc_found_at(tree: ObjectTree, t: int, name: Seq<char>, k: nat) -> bool {
    match tree.sem_chain(t, k) {
        Some(x) => tree.node(x).procs.contains(name),
        None => false,
    }
}

/// Holds when the node `k` steps above `t` carries a proc declaration
/// record for `name`.
pub open spec fn proc_decl_found_at(tree: ObjectTree, t: int, name: Seq<char>, k: nat) -> bool {
    match tree.sem_chain(t, k) {
        Some(x) => tree.node(x).procs.contains(name) && tree.node(x).procs.at(
            name,
        ).declaration is Some,
        None => false,
    }
}

/// What an inherited-proc lookup from `t` must return: the most-derived
/// override (the last list entry) of the nearest ancestor knowing the name,
/// given as a `(type handle, entry index)` pair, or nothing when no
/// ancestor within reach knows it.
pub open spec fn proc_lookup_post(
    tree: ObjectTree,
    t: int,
    name: Seq<char>,
    r: Option<(int, int)>,
) -> bool {
    match r {
        Some(pr) => exists|k: nat|
            #![trigger tree.sem_chain(t, k)]
            k <= tree.node_count() && (tree.sem_chain(t, k) matches Some(x) && x == pr.0
                && tree.node(x).procs.contains(name) && pr.1 == tree.node(x).procs.at(
                name,
            ).value@.len() - 1) && forall|j: nat| j < k ==> !proc_found_at(tree, t, name, j),
        None => forall|k: nat| k <= tree.node_count() ==> !proc_found_at(tree, t, name, k),
    }
}

/// A lightweight, copyable handle to one entry of one procedure's override
/// list under one type.
pub struct ProcRef<'a> {
    pub ty: TypeRef<'a>,
    pub name: &'a str,
    pub idx: usize,
}

impl<'a> Clone for ProcRef<'a> {
    fn clone(&self) -> (r: Self)
        ensures
            r == *self,
    {
        ProcRef { ty: self.ty, name: self.name, idx: self.idx }
    }
}

impl<'a> Copy for ProcRef<'a> {}

impl<'a> ProcRef<'a> {
    /// The handle points into a well-formed tree at an existing entry.
    pub open spec fn wf(self) -> bool {
        &&& self.ty.wf()
        &&& self.ty.tree.node(self.ty.idx as int).procs.contains(self.name@)
        &&& (self.idx as int) < self.ty.tree.node(self.ty.idx as int).procs.at(
            self.name@,
        ).value@.len()
    }

    /// The procedure value this handle refers to.
    pub fn get(self) -> (r: &'a ProcValue)
        requires
            self.wf(),
        ensures
            *r == self.ty.tree.node(self.ty.idx as int).procs.at(self.name@).value@[
                self.idx as int
            ],
    {
        proof {
            assert(self.ty.tree.node(self.ty.idx as int).wf());
        }
        match self.ty.tree.nodes[self.ty.idx].procs.get(self.name) {
            Some(tp) => &tp.value[self.idx],
            None => vstd::pervasive::unreached(),
        }
    }

    /// The owning type.
    pub fn ty(self) -> (r: TypeRef<'a>)
        ensures
            r == self.ty,
    {
        self.ty
    }

    /// The procedure's name.
    pub fn name(&self) -> (r: &str)
        ensures
            r@ == self.name@,
    {
        self.name
    }

    /// The entry's index in its type's override list; 0 is the earliest.
    pub fn index(self) -> (r: usize)
        ensures
            r == self.idx,
    {
        self.idx
    }

    /// The version one step up the override chain: the previous entry of
    /// the same list, or for the earliest entry the nearest semantic
    /// ancestor's latest override.
    pub fn parent_proc(self) -> (r: Option<ProcRef<'a>>)
        requires
            self.wf(),
        ensures
            self.idx > 0 ==> (r matches Some(p) && p.ty == self.ty && p.name == self.name
                && p.idx == self.idx - 1 && p.wf()),
            self.idx == 0 ==> match self.ty.tree.sem_step(self.ty.idx as int) {
                Some(pt) => (match r {
                    Some(p) => p.ty.tree == self.ty.tree && p.name == self.name && p.wf()
                        && proc_lookup_post(
                        *self.ty.tree,
                        pt,
                        self.name@,
                        Some((p.ty.idx as int, p.idx as int)),
                    ),
                    None => proc_lookup_post(*self.ty.tree, pt, self.name@, None),
                }),
                None => r is None,
            },
    {
        if self.idx > 0 {
            Some(ProcRef { ty: self.ty, name: self.name, idx: self.idx - 1 })
        } else {
            match self.ty.parent_type() {
                Some(pt) => pt.get_proc(self.name),
                None => None,
            }
        }
    }
}

impl<'a> TypeRef<'a> {
    /// The nearest inherited procedure named `name`, anchored at the
    /// most-derived override of the nearest semantic ancestor knowing the
    /// name.
    pub fn get_proc(self, name: &'a str) -> (r: Option<ProcRef<'a>>)
        requires
            self.wf(),
        ensures
            match r {
                Some(p) => p.ty.tree == self.tree && p.name == name && p.wf()
                    && proc_lookup_post(
                    *self.tree,
                    self.idx as int,
                    name@,
                    Some((p.ty.idx as int, p.idx as int)),
                ),
                None => proc_lookup_post(*self.tree, self.idx as int, name@, None),
            },
    {
        let n = self.tree.nodes.len();
        let ghost t = self.idx as int;
        let mut cur: usize = self.idx;
        let mut steps: usize = 0;
        loop
            invariant
                self.wf(),
                n == self.tree.node_count(),
                t == self.idx as int,
                steps <= n,
                cur < n,
                self.tree.sem_chain(t, steps as nat) == Some(cur as int),
                forall|j: nat| j < steps ==> !proc_found_at(*self.tree, t, name@, j),
            decreases n - steps,
        {
            proof {
                assert(self.tree.node(cur as int).wf());
            }
            match self.tree.nodes[cur].procs.position(name) {
                Some(p) => {
                    let len = self.tree.nodes[cur].procs.slots[p].value.len();
                    proof {
                        assert(self.tree.node(cur as int).procs.slots@[p as int].value@.len()
                            >= 1);
                        assert(self.tree.node(cur as int).procs.at(name@) == self.tree.node(
                            cur as int,
                        ).procs.slots@[p as int]);
                    }
                    let ty = TypeRef { tree: self.tree, idx: cur };
                    return Some(ProcRef { ty, name, idx: len - 1 });
                },
                None => {},
            }
            if steps == n {
                return None;
            }
            match self.tree.nodes[cur].parent_type_idx {
                Some(pt) => {
                    proof {
                        self.tree.lemma_chain_in_range(t, (steps + 1) as nat);
                    }
                    cur = pt;
                    steps = steps + 1;
                },
                None => {
                    proof {
                        assert forall|k: nat|
                            k <= self.tree.node_count() implies !proc_found_at(
                            *self.tree,
                            t,
                            name@,
                            k,
                        ) by {
                            if k > steps {
                                if self.tree.sem_chain(t, k) is Some {
                                    self.tree.lemma_chain_prefix(t, (steps + 1) as nat, k);
                                    assert(self.tree.sem_chain(t, (steps + 1) as nat) is None);
                                }
                            }
                        }
                    }
                    return None;
                },
            }
        }
    }

    /// The nearest proc declaration record for `name` along the semantic
    /// ancestor walk.
    pub fn get_proc_declaration(self, name: &str) -> (r: Option<&'a ProcDeclaration>)
        requires
            self.wf(),
        ensures
            match r {
                Some(d) => exists|k: nat|
                    #![trigger self.tree.sem_chain(self.idx as int, k)]
                    k <= self.tree.node_count() && proc_decl_found_at(
                        *self.tree,
                        self.idx as int,
                        name@,
                        k,
                    ) && (self.tree.sem_chain(self.idx as int, k) matches Some(x)
                        && self.tree.node(x).procs.at(name@).declaration matches Some(d0) && *d
                        == d0) && forall|j: nat|
                        j < k ==> !proc_decl_found_at(*self.tree, self.idx as int, name@, j),
                None => forall|k: nat|
                    k <= self.tree.node_count() ==> !proc_decl_found_at(
                        *self.tree,
                        self.idx as int,
                        name@,
                        k,
                    ),
            },
    {
        let n = self.tree.nodes.len();
        let ghost t = self.idx as int;
        let mut cur: usize = self.idx;
        let mut steps: usize = 0;
        loop
            invariant
                self.wf(),
                n == self.tree.node_count(),
                t == self.idx as int,
                steps <= n,
                cur < n,
                self.tree.sem_chain(t, steps as nat) == Some(cur as int),
                forall|j: nat| j < steps ==> !proc_decl_found_at(*self.tree, t, name@, j),
            decreases n - steps,
        {
            proof {
                assert(self.tree.node(cur as int).wf());
            }
            match self.tree.nodes[cur].procs.get(name) {
                Some(tp) => {
                    match &tp.declaration {
                        Some(d) => {
                            return Some(d);
                        },
                        None => {},
                    }
                },
                None => {},
            }
            if steps == n {
                return None;
            }
            match self.tree.nodes[cur].parent_type_idx {
                Some(pt) => {
                    proof {
                        self.tree.lemma_chain_in_range(t, (steps + 1) as nat);
                    }
                    cur = pt;
                    steps = steps + 1;
                },
                None => {
                    proof {
                        assert forall|k: nat|
                            k <= self.tree.node_count() implies !proc_decl_found_at(
                            *self.tree,
                            t,
                            name@,
                            k,
                        ) by {
                            if k > steps {
                                if self.tree.sem_chain(t, k) is Some {
                                    self.tree.lemma_chain_prefix(t, (steps + 1) as nat, k);
                                    assert(self.tree.sem_chain(t, (steps + 1) as nat) is None);
                                }
                            }
                        }
                    }
                    return None;
                },
            }
        }
    }
}

/// How many override entries the first `upto` procedure slots hold in all.
pub open spec fn proc_entry_total(slots: Seq<crate::objtree::TypeProc>, upto: int) -> int
    decreases upto,
{
    if upto <= 0 {
        0
    } else {
        proc_entry_total(slots, upto - 1) + slots[upto - 1].value@.len()
    }
}

/// The running entry total never decreases as slots are added.
pub proof fn lemma_proc_total_mono(slots: Seq<crate::objtree::TypeProc>, a: int, b: int)
    requires
        0 <= a <= b,
    ensures
        proc_entry_total(slots, a) <= proc_entry_total(slots, b),
    decreases b,
{
    if b > a {
        lemma_proc_total_mono(slots, a, b - 1);
    }
}

/// The preorder walk of the lexical subtree under `i`: the node itself,
/// then each child's whole subtree, children in declaration order.
pub open spec fn preorder(tree: ObjectTree, i: int) -> Seq<int>
    decreases tree.node_count() - i, 1int, 0int,
        when tree.wf() && 0 <= i < tree.node_count()
{
    seq![i] + preorder_list(tree, i, 0)
}

/// The concatenated preorder walks of `i`'s children from position `k` on.
pub open spec fn preorder_list(tree: ObjectTree, i: int, k: int) -> Seq<int>
    decreases tree.node_count() - i, 0int, tree.children(i).len() - k,
        when tree.wf() && 0 <= i < tree.node_count() && 0 <= k
{
    if k >= tree.children(i).len() {
        Seq::empty()
    } else {
        preorder(tree, tree.children(i)[k]) + preorder_list(tree, i, k + 1)
    }
}

impl<'a> TypeRef<'a> {
    /// This type and all its semantic ancestors, nearest first: the
    /// semantic-parent chain, cut off after one step per node of the tree.
    pub fn visit_parent_types(&self) -> (r: Vec<TypeRef<'a>>)
        requires
            self.wf(),
        ensures
            r@.len() >= 1,
            forall|m: int|
                0 <= m < r@.len() ==> (#[trigger] r@[m]).tree == self.tree && r@[m].wf()
                    && self.tree.sem_chain(self.idx as int, m as nat) == Some(r@[m].idx as int),
            ({
                let last = r@[r@.len() - 1];
                self.tree.sem_step(last.idx as int) is None || r@.len()
                    == self.tree.node_count() + 1
            }),
    {
        let n = self.tree.nodes.len();
        let mut out: Vec<TypeRef<'a>> = Vec::new();
        let mut cur: usize = self.idx;
        let mut steps: usize = 0;
        loop
            invariant
                self.wf(),
                n == self.tree.node_count(),
                steps <= n,
                cur < n,
                out@.len() == steps,
                self.tree.sem_chain(self.idx as int, steps as nat) == Some(cur as int),
                forall|m: int|
                    0 <= m < steps ==> (#[trigger] out@[m]).tree == self.tree && out@[m].wf()
                        && self.tree.sem_chain(self.idx as int, m as nat) == Some(
                        out@[m].idx as int,
                    ),
            decreases n - steps,
        {
            out.push(TypeRef { tree: self.tree, idx: cur });
            if steps == n {
                return out;
            }
            match self.tree.nodes[cur].parent_type_idx {
                Some(pt) => {
                    proof {
                        self.tree.lemma_chain_in_range(self.idx as int, (steps + 1) as nat);
                    }
                    cur = pt;
                    steps = steps + 1;
                },
                None => {
                    return out;
                },
            }
        }
    }

    /// This type and all its lexical ancestors, nearest first, ending at
    /// the root.
    pub fn visit_parent_paths(&self) -> (r: Vec<TypeRef<'a>>)
        requires
            self.wf(),
        ensures
            r@.len() >= 1,
            r@[0].tree == self.tree && r@[0].idx == self.idx,
            forall|m: int|
                0 <= m < r@.len() ==> (#[trigger] r@[m]).tree == self.tree && r@[m].wf(),
            forall|m: int|
                1 <= m < r@.len() ==> (#[trigger] r@[m]).idx as int == self.tree.lex_parent(
                    r@[m - 1].idx as int,
                ),
            r@[r@.len() - 1].idx == 0,
    {
        let mut out: Vec<TypeRef<'a>> = Vec::new();
        let mut cur = TypeRef { tree: self.tree, idx: self.idx };
        out.push(cur);
        loop
            invariant
                self.wf(),
                out@.len() >= 1,
                out@[0].tree == self.tree && out@[0].idx == self.idx,
                cur.tree == self.tree,
                cur.wf(),
                out@[out@.len() - 1] == cur,
                forall|m: int|
                    0 <= m < out@.len() ==> (#[trigger] out@[m]).tree == self.tree
                        && out@[m].wf(),
                forall|m: int|
                    1 <= m < out@.len() ==> (#[trigger] out@[m]).idx as int
                        == self.tree.lex_parent(out@[m - 1].idx as int),
            decreases cur.idx,
        {
            match cur.parent_path() {
                Some(p) => {
                    out.push(p);
                    cur = p;
                },
                None => {
                    return out;
                },
            }
        }
    }

    /// This type and every type below it by lexical nesting, in preorder:
    /// this node first, then each child's whole subtree, children in
    /// declaration order.
    pub fn recurse(&self) -> (r: Vec<TypeRef<'a>>)
        requires
            self.wf(),
        ensures
            r@.len() >= 1,
            r@[0].tree == self.tree && r@[0].idx == self.idx,
            r@.map_values(|t: TypeRef<'a>| t.idx as int) == preorder(
                *self.tree,
                self.idx as int,
            ),
            forall|m: int|
                0 <= m < r@.len() ==> (#[trigger] r@[m]).tree == self.tree && r@[m].wf()
                    && r@[m].idx >= self.idx,
        decreases self.tree.node_count() - self.idx,
    {
        let mut out: Vec<TypeRef<'a>> = Vec::new();
        out.push(*self);
        let kids = self.children();
        let n = kids.len();
        proof {
            assert(out@.map_values(|t: TypeRef<'a>| t.idx as int) =~= seq![self.idx as int]);
        }
        let mut k: usize = 0;
        while k < n
            invariant
                self.wf(),
                n == kids@.len(),
                n as int == self.tree.children(self.idx as int).len(),
                k <= n,
                forall|m: int|
                    0 <= m < n ==> (#[trigger] kids@[m]).tree == self.tree && kids@[m].wf()
                        && kids@[m].idx as int == self.tree.children(self.idx as int)[m],
                out@.len() >= 1,
                out@[0].tree == self.tree && out@[0].idx == self.idx,
                out@.map_values(|t: TypeRef<'a>| t.idx as int) + preorder_list(
                    *self.tree,
                    self.idx as int,
                    k as int,
                ) == preorder(*self.tree, self.idx as int),
                forall|m: int|
                    0 <= m < out@.len() ==> (#[trigger] out@[m]).tree == self.tree
                        && out@[m].wf() && out@[m].idx >= self.idx,
            decreases n - k,
        {
            proof {
                assert(self.tree.is_child_at(self.idx as int, k as int, kids@[k as int].idx as int));
            }
            let ghost out0 = out@;
            let mut sub = kids[k].recurse();
            let ghost subv = sub@;
            out.append(&mut sub);
            proof {
                assert forall|m: int|
                    0 <= m < out@.len() implies (#[trigger] out@[m]).tree == self.tree
                    && out@[m].wf() && out@[m].idx >= self.idx by {
                    if m >= out@.len() - subv.len() {
                        assert(out@[m] == subv[m - (out@.len() - subv.len())]);
                    }
                }
                assert(out@.map_values(|t: TypeRef<'a>| t.idx as int) =~= out0.map_values(
                    |t: TypeRef<'a>| t.idx as int,
                ) + subv.map_values(|t: TypeRef<'a>| t.idx as int));
                assert(subv.map_values(|t: TypeRef<'a>| t.idx as int) == preorder(
                    *self.tree,
                    kids@[k as int].idx as int,
                ));
                assert(preorder_list(*self.tree, self.idx as int, k as int) == preorder(
                    *self.tree,
                    self.tree.children(self.idx as int)[k as int],
                ) + preorder_list(*self.tree, self.idx as int, k as int + 1));
                assert(out@.map_values(|t: TypeRef<'a>| t.idx as int) + preorder_list(
                    *self.tree,
                    self.idx as int,
                    k as int + 1,
                ) =~= preorder(*self.tree, self.idx as int));
            }
            k += 1;
        }
        proof {
            assert(preorder_list(*self.tree, self.idx as int, n as int) =~= Seq::<int>::empty());
            assert(out@.map_values(|t: TypeRef<'a>| t.idx as int) =~= preorder(
                *self.tree,
                self.idx as int,
            ));
        }
        out
    }

    /// Every override entry of every procedure of this type itself, grouped
    /// by name in table order, each group in override order: the entry for
    /// override `b` of the table's `a`-th name sits right after all entries
    /// of the earlier names.
    pub fn iter_self_procs(self) -> (r: Vec<ProcRef<'a>>)
        requires
            self.wf(),
        ensures
            forall|m: int|
                0 <= m < r@.len() ==> (#[trigger] r@[m]).ty == self && r@[m].wf(),
            ({
                let tbl = self.tree.node(self.idx as int).procs;
                &&& r@.len() == proc_entry_total(tbl.slots@, tbl.spec_len())
                &&& forall|a: int, b: int|
                    0 <= a < tbl.spec_len() && 0 <= b < tbl.slots@[a].value@.len() ==> {
                        let e = #[trigger] r@[proc_entry_total(tbl.slots@, a) + b];
                        &&& e.name@ == tbl.names@[a]@
                        &&& e.idx == b
                    }
            }),
    {
        proof {
            assert(self.tree.node(self.idx as int).wf());
        }
        let mut out: Vec<ProcRef<'a>> = Vec::new();
        let table = &self.tree.nodes[self.idx].procs;
        let ghost tbl = self.tree.node(self.idx as int).procs;
        let n = table.names.len();
        let mut s: usize = 0;
        while s < n
            invariant
                self.wf(),
                table == &self.tree.nodes[self.idx as int].procs,
                tbl == self.tree.node(self.idx as int).procs,
                n == table.names@.len(),
                n as int == tbl.spec_len(),
                s <= n,
                out@.len() == proc_entry_total(tbl.slots@, s as int),
                forall|m: int|
                    0 <= m < out@.len() ==> (#[trigger] out@[m]).ty == self && out@[m].wf(),
                forall|a: int, b: int|
                    0 <= a < s && 0 <= b < tbl.slots@[a].value@.len() ==> {
                        let e = #[trigger] out@[proc_entry_total(tbl.slots@, a) + b];
                        &&& e.name@ == tbl.names@[a]@
                        &&& e.idx == b
                    },
            decreases n - s,
        {
            proof {
                assert(self.tree.node(self.idx as int).procs.wf());
                assert(table.key_map().contains_key(table.names@[s as int]@));
            }
            let name: &'a str = self.tree.nodes[self.idx].procs.names[s].as_str();
            let len = table.slots[s].value.len();
            proof {
                assert(self.tree.node(self.idx as int).procs.slots@[s as int].value@.len() >= 1);
                assert(table.pos_of(name@) == s as int);
                assert(self.tree.node(self.idx as int).procs.at(name@) == table.slots@[s as int]);
            }
            let ghost base = out@.len() as int;
            proof {
                assert(base == proc_entry_total(tbl.slots@, s as int));
                assert(name@ == tbl.names@[s as int]@);
            }
            let mut j: usize = 0;
            while j < len
                invariant
                    self.wf(),
                    tbl == self.tree.node(self.idx as int).procs,
                    s < tbl.names@.len(),
                    tbl.contains(name@),
                    name@ == tbl.names@[s as int]@,
                    len as int == tbl.at(name@).value@.len(),
                    len as int == tbl.slots@[s as int].value@.len(),
                    j <= len,
                    base == proc_entry_total(tbl.slots@, s as int),
                    out@.len() == base + j,
                    forall|m: int|
                        0 <= m < out@.len() ==> (#[trigger] out@[m]).ty == self && out@[m].wf(),
                    forall|a: int, b: int|
                        0 <= a < s && 0 <= b < tbl.slots@[a].value@.len() ==> {
                            let e = #[trigger] out@[proc_entry_total(tbl.slots@, a) + b];
                            &&& e.name@ == tbl.names@[a]@
                            &&& e.idx == b
                        },
                    forall|b: int|
                        0 <= b < j ==> {
                            let e = #[trigger] out@[base + b];
                            &&& e.name@ == tbl.names@[s as int]@
                            &&& e.idx == b
                        },
                decreases len - j,
            {
                let ghost out0 = out@;
                out.push(ProcRef { ty: self, name, idx: j });
                proof {
                    assert(out@ == out0.push(ProcRef { ty: self, name, idx: j }));
                    assert(out@.len() == out0.len() + 1);
                    assert(forall|m: int| 0 <= m < out0.len() ==> #[trigger] out@[m] == out0[m]);
                    assert forall|a: int, b: int|
                        0 <= a < s && 0 <= b < tbl.slots@[a].value@.len() implies {
                        let e = #[trigger] out@[proc_entry_total(tbl.slots@, a) + b];
                        &&& e.name@ == tbl.names@[a]@
                        &&& e.idx == b
                    } by {
                        lemma_proc_total_mono(tbl.slots@, 0, a);
                        lemma_proc_total_mono(tbl.slots@, a + 1, s as int);
                        assert(0 <= proc_entry_total(tbl.slots@, a) + b < out0.len());
                        assert(out@[proc_entry_total(tbl.slots@, a) + b] == out0[
                            proc_entry_total(tbl.slots@, a) + b]);
                    }
                    assert forall|b: int| 0 <= b < j + 1 implies {
                        let e = #[trigger] out@[base + b];
                        &&& e.name@ == tbl.names@[s as int]@
                        &&& e.idx == b
                    } by {
                        lemma_proc_total_mono(tbl.slots@, 0, s as int);
                        if b < j {
                            assert(0 <= base + b < out0.len());
                            assert(out@[base + b] == out0[base + b]);
                        } else {
                            assert(out@[base + b] == (ProcRef { ty: self, name, idx: j }));
                        }
                    }
                }
                j += 1;
            }
            proof {
                assert(proc_entry_total(tbl.slots@, s as int + 1) == base + len);
                assert forall|a: int, b: int|
                    0 <= a < s + 1 && 0 <= b < tbl.slots@[a].value@.len() implies {
                    let e = #[trigger] out@[proc_entry_total(tbl.slots@, a) + b];
                    &&& e.name@ == tbl.names@[a]@
                    &&& e.idx == b
                } by {
                    lemma_proc_total_mono(tbl.slots@, 0, a);
                    if a < s {
                        lemma_proc_total_mono(tbl.slots@, a + 1, s as int);
                        assert(proc_entry_total(tbl.slots@, a) + b < base);
                    } else {
                        assert(proc_entry_total(tbl.slots@, a) + b == base + b);
                    }
                }
            }
            s += 1;
        }
        out
    }
}

/// The walk `type_by_path_approx` performs: resolve each segment as a direct
/// child from the root; stop short where a segment has no child, and stop
/// successfully at a first segment `list`, under which every lookup is
/// `list` itself.
pub open spec fn approx_from(tree: ObjectTree, cur: int, segs: Seq<Seq<char>>, k: int) -> (
    bool,
    int,
)
    decreases segs.len() - k,
        when 0 <= k
{
    if k >= segs.len() {
        (true, cur)
    } else if !tree.has_child_named(cur, segs[k]) {
        (false, cur)
    } else if k == 0 && segs[0] == "list"@ {
        (true, tree.child_named(cur, segs[0]))
    } else {
        approx_from(tree, tree.child_named(cur, segs[k]), segs, k + 1)
    }
}

impl ObjectTree {
    /// Resolves a sequence of plain segment names from the root, reporting
    /// how far it got: fully resolved, or resolved up to the returned node.
    pub fn type_by_path_approx<'a>(&'a self, path: &Vec<String>) -> (r: (bool, TypeRef<'a>))
        requires
            self.wf(),
        ensures
            r.1.tree == self && r.1.wf(),
            (r.0, r.1.idx as int) == approx_from(*self, 0, crate::objtree::seg_views(path@), 0),
    {
        let ghost sv = crate::objtree::seg_views(path@);
        let n = path.len();
        let mut cur: usize = 0;
        let mut k: usize = 0;
        loop
            invariant
                self.wf(),
                n == path@.len(),
                sv == crate::objtree::seg_views(path@),
                k <= n,
                cur < self.node_count(),
                approx_from(*self, 0, sv, 0) == approx_from(*self, cur as int, sv, k as int),
                k == 0 ==> cur == 0,
            decreases n - k,
        {
            if k == n {
                return (true, TypeRef { tree: self, idx: cur });
            }
            proof {
                assert(sv[k as int] == path@[k as int]@);
            }
            match self.child_of(cur, path[k].as_str()) {
                Some(c) => {
                    if k == 0 && str_eq(path[0].as_str(), "list") {
                        return (true, TypeRef { tree: self, idx: c });
                    }
                    proof {
                        assert(!(k == 0 && sv[0] == "list"@));
                    }
                    cur = c;
                    k += 1;
                },
                None => {
                    return (false, TypeRef { tree: self, idx: cur });
                },
            }
        }
    }

    /// Resolves a sequence of plain segment names from the root, succeeding
    /// only on a full match.
    pub fn type_by_path<'a>(&'a self, path: &Vec<String>) -> (r: Option<TypeRef<'a>>)
        requires
            self.wf(),
        ensures
            ({
                let a = approx_from(*self, 0, crate::objtree::seg_views(path@), 0);
                match r {
                    Some(t) => a.0 && t.tree == self && t.idx as int == a.1 && t.wf(),
                    None => !a.0,
                }
            }),
    {
        let (exact, t) = self.type_by_path_approx(path);
        if exact {
            Some(t)
        } else {
            None
        }
    }

    /// The type a previously evaluated constant names: a string constant is
    /// an exact path, a prefab resolves by its segments, anything else
    /// names no type.
    pub fn type_by_constant<'a>(&'a self, constant: &crate::ast::Constant) -> (r: Option<
        TypeRef<'a>,
    >)
        requires
            self.wf(),
        ensures
            match constant {
                crate::ast::Constant::Str(s) => match r {
                    Some(t) => t.tree == self && self.has_path(s@) && t.idx as int
                        == self.path_index(s@),
                    None => !self.has_path(s@),
                },
                crate::ast::Constant::Prefab(p) => {
                    let a = approx_from(*self, 0, crate::objtree::seg_views(p.path@), 0);
                    match r {
                        Some(t) => a.0 && t.tree == self && t.idx as int == a.1,
                        None => !a.0,
                    }
                },
                _ => r is None,
            },
    {
        match constant {
            crate::ast::Constant::Str(s) => self.find(s.as_str()),
            crate::ast::Constant::Prefab(p) => self.type_by_path(&p.path),
            _ => None,
        }
    }
}

} // verus!
