//! The general guarantees of the object tree, stated and proved once over
//! the specification functions its public contracts use.

use vstd::prelude::*;
use vstd::seq_lib::*;
use vstd::set_lib::*;
use crate::ast::Location;
use crate::objtree::{more_specific, ObjectTree};
use crate::nav::{subtype_path_within, var_found_at};
use crate::strutil::{child_path, joined};

verus! {

/// Holds when `b` is a direct lexical child of `a`.
pub open spec fn is_lex_edge(tree: ObjectTree, a: int, b: int) -> bool {
    exists|k: int| #[trigger] tree.is_child_at(a, k, b)
}

/// A lexical chain: a run of handles starting at the root in which each
/// handle is a direct child of the one before it.
pub open spec fn is_lex_chain(tree: ObjectTree, c: Seq<int>) -> bool {
    &&& c.len() >= 1
    &&& c[0] == 0
    &&& forall|m: int| 1 <= m < c.len() ==> #[trigger] is_lex_edge(tree, c[m - 1], c[m])
}

/// The names along a chain, root excluded.
pub open spec fn chain_names(tree: ObjectTree, c: Seq<int>) -> Seq<Seq<char>> {
    c.subrange(1, c.len() as int).map_values(|x: int| tree.node(x).name@)
}

/// Every registered node is reachable from the root by following lexical
/// child edges named after each of its path's segments: the segments of a
/// node's path, joined, are its path.
pub proof fn lemma_registered_path_reachable(tree: ObjectTree, i: int)
    requires
        tree.wf(),
        0 <= i < tree.node_count(),
    ensures
        exists|c: Seq<int>|
            #[trigger] is_lex_chain(tree, c) && c.last() == i && joined(chain_names(tree, c))
                == tree.node(i).path@,
    decreases i,
{
    if i == 0 {
        let c = seq![0int];
        assert(is_lex_chain(tree, c));
        assert(chain_names(tree, c) =~= Seq::<Seq<char>>::empty());
        assert(joined(chain_names(tree, c)) == tree.node(0).path@);
    } else {
        assert(tree.has_lex_parent(i));
        let (p, k) = choose|p: int, k: int| tree.is_child_at(p, k, i);
        assert(tree.is_child_at(p, k, i));
        assert(p < i);
        lemma_registered_path_reachable(tree, p);
        let c0 = choose|c: Seq<int>|
            #[trigger] is_lex_chain(tree, c) && c.last() == p && joined(chain_names(tree, c))
                == tree.node(p).path@;
        let c = c0.push(i);
        assert(is_lex_chain(tree, c0));
        assert(c.len() == c0.len() + 1);
        assert(c[0] == c0[0]);
        assert forall|m: int| 1 <= m < c.len() implies #[trigger] is_lex_edge(
            tree,
            c[m - 1],
            c[m],
        ) by {
            if m < c.len() - 1 {
                assert(c[m - 1] == c0[m - 1] && c[m] == c0[m]);
                assert(1 <= m < c0.len());
                assert(is_lex_edge(tree, c0[m - 1], c0[m]));
            } else {
                assert(c[m - 1] == c0.last() && c[m] == i);
                assert(tree.is_child_at(p, k, i));
            }
        }
        assert(is_lex_chain(tree, c));
        assert(chain_names(tree, c) =~= chain_names(tree, c0).push(tree.node(i).name@));
        assert(joined(chain_names(tree, c)) == child_path(
            joined(chain_names(tree, c0)),
            tree.node(i).name@,
        )) by {
            assert(chain_names(tree, c).drop_last() =~= chain_names(tree, c0));
            assert(chain_names(tree, c).last() == tree.node(i).name@);
        }
        assert(tree.node(i).path@ == child_path(tree.node(p).path@, tree.node(i).name@));
        assert(c.last() == i);
    }
}

/// Registering the same path twice with different specificity numbers
/// leaves the node's location equal to whichever occurrence had the smaller
/// specificity value, regardless of call order: the refinement rule the
/// builder applies is order-insensitive on distinct scores.
pub proof fn lemma_specificity_order_irrelevant(
    l1: Location,
    s1: usize,
    l2: Location,
    s2: usize,
)
    requires
        s1 != s2,
    ensures
        more_specific(l1, s1, l2, s2) == more_specific(l2, s2, l1, s1),
        more_specific(l1, s1, l2, s2) == (if s1 < s2 {
            (l1, s1)
        } else {
            (l2, s2)
        }),
{
}

/// A later occurrence refines an earlier refinement exactly as the smaller
/// score dictates: refinement is idempotent and keeps the minimum.
pub proof fn lemma_specificity_converges(
    l0: Location,
    s0: usize,
    l1: Location,
    s1: usize,
)
    ensures
        more_specific(more_specific(l0, s0, l1, s1).0, more_specific(l0, s0, l1, s1).1, l1, s1)
            == more_specific(l0, s0, l1, s1),
        more_specific(l0, s0, l1, s1).1 == (if s0 < s1 {
            s0
        } else {
            s1
        }),
{
}

/// Looking a variable up on a type with no local slot of that name gives
/// exactly what looking it up on the type's semantic parent gives, one
/// chain step shifted: inherited variables resolve through ancestors.
pub proof fn lemma_lookup_skips_to_parent(tree: ObjectTree, t: int, p: int, name: Seq<char>)
    requires
        tree.wf(),
        0 <= t < tree.node_count(),
        !tree.node(t).vars.contains(name),
        tree.sem_step(t) == Some(p),
    ensures
        forall|k: nat|
            var_found_at(tree, t, name, (k + 1) as nat) == #[trigger] var_found_at(
                tree,
                p,
                name,
                k,
            ),
        !var_found_at(tree, t, name, 0),
{
    assert(tree.sem_chain(t, 0nat) == Some(t));
    assert(tree.sem_chain(t, 1nat) == Some(p));
    assert forall|k: nat|
        var_found_at(tree, t, name, (k + 1) as nat) == #[trigger] var_found_at(
        tree,
        p,
        name,
        k,
    ) by {
        tree.lemma_chain_compose(t, 1nat, k, p);
        assert(tree.sem_chain(t, (k + 1) as nat) == tree.sem_chain(p, k));
    }
}

/// The value of the chain `k` steps above `t`, or `-1` when the walk ends
/// before that.
pub open spec fn chain_val(tree: ObjectTree, t: int, k: nat) -> int {
    match tree.sem_chain(t, k) {
        Some(x) => x,
        None => -1,
    }
}

/// Whatever the semantic-parent chain reaches, it reaches within one step
/// per node of the tree: a longer witness always contains a cycle that can
/// be cut out.
pub proof fn lemma_chain_shorten(tree: ObjectTree, t: int, x: int, k: nat)
    requires
        tree.wf(),
        0 <= t < tree.node_count(),
        tree.sem_chain(t, k) == Some(x),
    ensures
        exists|k2: nat|
            k2 <= tree.node_count() && #[trigger] tree.sem_chain(t, k2) == Some(x),
    decreases k,
{
    let n = tree.node_count();
    if k <= n {
        assert(tree.sem_chain(t, k) == Some(x));
    } else {
        let vs = Seq::<int>::new((n + 1) as nat, |m: int| chain_val(tree, t, m as nat));
        assert forall|m: int| 0 <= m < vs.len() implies 0 <= #[trigger] vs[m] < n by {
            tree.lemma_chain_prefix(t, m as nat, k);
            tree.lemma_chain_in_range(t, m as nat);
        }
        if vs.no_duplicates() {
            vs.unique_seq_to_set();
            assert(vs.to_set().subset_of(set_int_range(0, n))) by {
                assert forall|e: int| vs.to_set().contains(e) implies set_int_range(
                    0,
                    n,
                ).contains(e) by {
                    let m = choose|m: int| 0 <= m < vs.len() && vs[m] == e;
                }
            }
            lemma_int_range(0, n);
            lemma_len_subset(vs.to_set(), set_int_range(0, n));
            assert(false);
        } else {
            let (i1, i2) = choose|i1: int, i2: int|
                0 <= i1 < vs.len() && 0 <= i2 < vs.len() && i1 != i2 && vs[i1] == vs[i2];
            let a = if i1 < i2 {
                i1
            } else {
                i2
            };
            let b = if i1 < i2 {
                i2
            } else {
                i1
            };
            assert(0 <= a < b <= n);
            assert(vs[a] == vs[b]);
            tree.lemma_chain_prefix(t, a as nat, k);
            tree.lemma_chain_prefix(t, b as nat, k);
            let y = chain_val(tree, t, a as nat);
            assert(tree.sem_chain(t, a as nat) == Some(y));
            assert(tree.sem_chain(t, b as nat) == Some(y));
            tree.lemma_chain_compose(t, b as nat, (k - b) as nat, y);
            tree.lemma_chain_compose(t, a as nat, (k - b) as nat, y);
            assert(tree.sem_chain(t, (a + k - b) as nat) == Some(x));
            lemma_chain_shorten(tree, t, x, (a + k - b) as nat);
        }
    }
}

/// The bounded walk every navigation function performs decides semantic
/// reachability exactly: whatever any number of `parent_type` steps reaches
/// is reached within one step per node, and conversely.
pub proof fn lemma_reaches_iff_within_bound(tree: ObjectTree, t: int, x: int)
    requires
        tree.wf(),
        0 <= t < tree.node_count(),
    ensures
        tree.sem_reaches(t, x) <==> exists|k: nat|
            k <= tree.node_count() && #[trigger] tree.sem_chain(t, k) == Some(x),
{
    if tree.sem_reaches(t, x) {
        let k = choose|k: nat| tree.sem_chain(t, k) == Some(x);
        lemma_chain_shorten(tree, t, x, k);
    }
    if exists|k: nat| k <= tree.node_count() && #[trigger] tree.sem_chain(t, k) == Some(x) {
        let k = choose|k: nat|
            k <= tree.node_count() && #[trigger] tree.sem_chain(t, k) == Some(x);
        assert(tree.sem_chain(t, k) == Some(x));
    }
}

/// A type is a subtype of itself: the empty semantic walk already reaches
/// its own path.
pub proof fn lemma_subtype_reflexive(tree: ObjectTree, t: int)
    requires
        tree.wf(),
        0 <= t < tree.node_count(),
    ensures
        subtype_path_within(tree, t, tree.node(t).path@, tree.node_count() as nat),
{
    assert(tree.sem_chain(t, 0nat) == Some(t));
}

/// Subtyping is transitive along `parent_type` chains: reaching the node
/// with path `pb`, from which the node with path `pc` is reachable, reaches
/// `pc` too, still within the walk bound every navigation function uses.
pub proof fn lemma_subtype_transitive(
    tree: ObjectTree,
    t: int,
    b: int,
    pc: Seq<char>,
)
    requires
        tree.wf(),
        0 <= t < tree.node_count(),
        0 <= b < tree.node_count(),
        subtype_path_within(tree, t, tree.node(b).path@, tree.node_count() as nat),
        subtype_path_within(tree, b, pc, tree.node_count() as nat),
    ensures
        subtype_path_within(tree, t, pc, tree.node_count() as nat),
{
    let n = tree.node_count() as nat;
    let k1 = choose|k: nat|
        k <= n && (match #[trigger] tree.sem_chain(t, k) {
            Some(x) => tree.node(x).path@ == tree.node(b).path@,
            None => false,
        });
    let x = chain_val(tree, t, k1);
    assert(tree.sem_chain(t, k1) == Some(x));
    tree.lemma_chain_in_range(t, k1);
    assert(x == b) by {
        if x != b {
            assert(tree.node(x).path@ != tree.node(b).path@);
        }
    }
    let k2 = choose|k: nat|
        k <= n && (match #[trigger] tree.sem_chain(b, k) {
            Some(y) => tree.node(y).path@ == pc,
            None => false,
        });
    let y = chain_val(tree, b, k2);
    assert(tree.sem_chain(b, k2) == Some(y));
    tree.lemma_chain_compose(t, k1, k2, b);
    assert(tree.sem_chain(t, (k1 + k2) as nat) == Some(y));
    lemma_chain_shorten(tree, t, y, (k1 + k2) as nat);
    let k3 = choose|k2_: nat|
        k2_ <= tree.node_count() && #[trigger] tree.sem_chain(t, k2_) == Some(y);
    assert(match tree.sem_chain(t, k3) {
        Some(z) => tree.node(z).path@ == pc,
        None => false,
    });
}

} // verus!
