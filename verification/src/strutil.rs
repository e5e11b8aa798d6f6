//! Character-level helpers for path strings.
//!
//! Type paths are slash-delimited strings such as `/obj/item/weapon`.  The
//! helpers here compare strings character by character and state the results
//! over `Seq<char>` views, and the spec functions model how a path is built
//! from its segments.

use vstd::prelude::*;
use vstd::string::*;

verus! {

/// Holds when `s` contains no `/`, as a path segment must.
pub open spec fn no_slash(s: Seq<char>) -> bool {
    forall|i: int| 0 <= i < s.len() ==> s[i] != '/'
}

/// The path of a child named `name` under a node whose path is `parent`.
pub open spec fn child_path(parent: Seq<char>, name: Seq<char>) -> Seq<char> {
    parent + seq!['/'] + name
}

/// The path named by a sequence of segments, each prefixed with a slash:
/// `["obj", "item"]` becomes `/obj/item`, and no segments name the root `""`.
pub open spec fn joined(segs: Seq<Seq<char>>) -> Seq<char>
    decreases segs.len(),
{
    if segs.len() == 0 {
        Seq::empty()
    } else {
        child_path(joined(segs.drop_last()), segs.last())
    }
}

/// Two slash-free names under two parents give the same path only when both
/// the parents and the names agree: appending `/name` loses no information.
pub proof fn lemma_child_path_injective(p1: Seq<char>, n1: Seq<char>, p2: Seq<char>, n2: Seq<char>)
    requires
        no_slash(n1),
        no_slash(n2),
        child_path(p1, n1) == child_path(p2, n2),
    ensures
        p1 == p2,
        n1 == n2,
{
    let s = child_path(p1, n1);
    assert(s.len() == p1.len() + 1 + n1.len());
    assert(s.len() == p2.len() + 1 + n2.len());
    if p1.len() < p2.len() {
        let j = p2.len() as int;
        assert(child_path(p2, n2)[j] == '/');
        assert(s[j] == n1[j - p1.len() - 1]);
        assert(false);
    }
    if p2.len() < p1.len() {
        let j = p1.len() as int;
        assert(child_path(p1, n1)[j] == '/');
        assert(child_path(p2, n2)[j] == n2[j - p2.len() - 1]);
        assert(false);
    }
    assert(p1 =~= p2) by {
        assert(forall|i: int| 0 <= i < p1.len() ==> s[i] == p1[i] && s[i] == p2[i]);
    }
    assert(n1 =~= n2) by {
        assert(forall|i: int| 0 <= i < n1.len() ==> {
            &&& s[p1.len() + 1 + i] == n1[i]
            &&& s[p1.len() + 1 + i] == n2[i]
        });
    }
}

/// A child path is never empty, so no child of any node is mistaken for the
/// root, whose path is the empty string.
pub proof fn lemma_child_path_nonempty(parent: Seq<char>, name: Seq<char>)
    ensures
        child_path(parent, name).len() > 0,
{
}

/// Compares two string slices character by character.
pub fn str_eq(a: &str, b: &str) -> (r: bool)
    ensures
        r == (a@ == b@),
{
    let alen = a.unicode_len();
    let blen = b.unicode_len();
    if alen != blen {
        return false;
    }
    let mut i: usize = 0;
    while i < alen
        invariant
            alen == a@.len(),
            blen == b@.len(),
            alen == blen,
            i <= alen,
            forall|j: int| 0 <= j < i ==> a@[j] == b@[j],
        decreases alen - i,
    {
        if a.get_char(i) != b.get_char(i) {
            assert(a@[i as int] != b@[i as int]);
            return false;
        }
        i += 1;
    }
    proof {
        assert(a@ =~= b@);
    }
    true
}

/// Holds when `p` is an initial run of `s`.
pub open spec fn is_prefix(p: Seq<char>, s: Seq<char>) -> bool {
    p.len() <= s.len() && forall|i: int| 0 <= i < p.len() ==> s[i] == p[i]
}

/// Checks whether `p` is a prefix of `s`, character by character.
pub fn str_has_prefix(s: &str, p: &str) -> (r: bool)
    ensures
        r == is_prefix(p@, s@),
{
    let slen = s.unicode_len();
    let plen = p.unicode_len();
    if plen > slen {
        return false;
    }
    let mut i: usize = 0;
    while i < plen
        invariant
            slen == s@.len(),
            plen == p@.len(),
            plen <= slen,
            i <= plen,
            forall|j: int| 0 <= j < i ==> s@[j] == p@[j],
        decreases plen - i,
    {
        if s.get_char(i) != p.get_char(i) {
            assert(s@[i as int] != p@[i as int]);
            return false;
        }
        i += 1;
    }
    true
}

/// Strict lexicographic order on character sequences, by code point.
pub open spec fn lex_lt(a: Seq<char>, b: Seq<char>) -> bool
    decreases a.len(),
{
    if b.len() == 0 {
        false
    } else if a.len() == 0 {
        true
    } else if a[0] != b[0] {
        (a[0] as int) < (b[0] as int)
    } else {
        lex_lt(a.drop_first(), b.drop_first())
    }
}

/// Lexicographic order, allowing equality.
pub open spec fn lex_leq(a: Seq<char>, b: Seq<char>) -> bool {
    lex_lt(a, b) || a == b
}

/// Any two character sequences are ordered or equal.
pub proof fn lemma_lex_total(a: Seq<char>, b: Seq<char>)
    ensures
        lex_lt(a, b) || lex_lt(b, a) || a == b,
    decreases a.len(),
{
    if b.len() == 0 || a.len() == 0 {
        if a.len() == 0 && b.len() == 0 {
            assert(a =~= b);
        }
    } else if a[0] != b[0] {
    } else {
        lemma_lex_total(a.drop_first(), b.drop_first());
        if a.drop_first() == b.drop_first() {
            assert(a.len() == b.len()) by {
                assert(a.drop_first().len() == a.len() - 1);
                assert(b.drop_first().len() == b.len() - 1);
            }
            assert forall|x: int| 0 <= x < a.len() implies a[x] == b[x] by {
                if x >= 1 {
                    assert(a[x] == a.drop_first()[x - 1]);
                    assert(b[x] == b.drop_first()[x - 1]);
                }
            }
            assert(a =~= b);
        }
    }
}

/// Compares two strings in lexicographic code-point order.
pub fn str_lt(a: &str, b: &str) -> (r: bool)
    ensures
        r == lex_lt(a@, b@),
{
    let alen = a.unicode_len();
    let blen = b.unicode_len();
    proof {
        assert(a@.skip(0) =~= a@);
        assert(b@.skip(0) =~= b@);
    }
    let mut i: usize = 0;
    while i < alen && i < blen
        invariant
            alen == a@.len(),
            blen == b@.len(),
            i <= alen,
            i <= blen,
            lex_lt(a@, b@) == lex_lt(a@.skip(i as int), b@.skip(i as int)),
        decreases alen - i,
    {
        let ca = a.get_char(i);
        let cb = b.get_char(i);
        proof {
            assert(a@.skip(i as int)[0] == a@[i as int]);
            assert(b@.skip(i as int)[0] == b@[i as int]);
        }
        if ca != cb {
            return (ca as u32) < (cb as u32);
        }
        proof {
            assert(a@.skip(i as int).drop_first() =~= a@.skip(i as int + 1));
            assert(b@.skip(i as int).drop_first() =~= b@.skip(i as int + 1));
        }
        i += 1;
    }
    proof {
        assert(a@.skip(i as int).len() == alen - i);
        assert(b@.skip(i as int).len() == blen - i);
    }
    alen < blen
}

/// Appends `/name` to `path`, building the path of a child node.
pub fn push_segment(path: &mut String, name: &str)
    ensures
        final(path)@ == child_path(old(path)@, name@),
{
    path.append("/");
    path.append(name);
    proof {
        reveal_strlit("/");
        assert("/"@ =~= seq!['/']);
        assert(path@ =~= child_path(old(path)@, name@));
    }
}

} // verus!
