//! Lexicographic ordering of node names.
//!
//! `nodes` and `edges` return their results sorted by name; this module
//! defines that order, proves that it behaves as a strict total order, and
//! provides sorted insertion into a vector of nodes or of node pairs.

use vstd::prelude::*;

use crate::Node;

verus! {

/// Lexicographic comparison of `a` and `b` starting at position `i`.
pub open spec fn name_lt_from(a: Seq<char>, b: Seq<char>, i: int) -> bool
    decreases b.len() - i,
{
    if i >= b.len() {
        false
    } else if i >= a.len() {
        true
    } else if a[i] != b[i] {
        (a[i] as u32) < (b[i] as u32)
    } else {
        name_lt_from(a, b, i + 1)
    }
}

/// `a` comes strictly before `b` in lexicographic order.
pub open spec fn name_lt(a: Seq<char>, b: Seq<char>) -> bool {
    name_lt_from(a, b, 0)
}

proof fn lemma_from_connex(a: Seq<char>, b: Seq<char>, i: int)
    requires
        0 <= i <= a.len(),
        0 <= i <= b.len(),
    ensures
        name_lt_from(a, b, i) || name_lt_from(b, a, i) || a.skip(i) == b.skip(i),
    decreases a.len() + b.len() - 2 * i,
{
    if i >= b.len() {
        if i >= a.len() {
            assert(a.skip(i) =~= b.skip(i));
        }
    } else if i >= a.len() {
    } else if a[i] != b[i] {
        assert((a[i] as u32) != (b[i] as u32)) by {
            vstd::utf8::char_u32_cast(a[i], a[i] as u32);
            vstd::utf8::char_u32_cast(b[i], b[i] as u32);
        }
    } else {
        lemma_from_connex(a, b, i + 1);
        if !name_lt_from(a, b, i) && !name_lt_from(b, a, i) {
            assert(a.skip(i) =~= b.skip(i)) by {
                assert(a.skip(i + 1) == b.skip(i + 1));
                assert forall|j: int| 0 <= j < a.skip(i).len() implies a.skip(i)[j] == b.skip(i)[j]
                by {
                    if j > 0 {
                        assert(a.skip(i + 1)[j - 1] == b.skip(i + 1)[j - 1]);
                    }
                }
            }
        }
    }
}

/// The order is connex: two distinct names compare one way or the other.
pub proof fn lemma_name_lt_connex(a: Seq<char>, b: Seq<char>)
    ensures
        a == b || name_lt(a, b) || name_lt(b, a),
{
    lemma_from_connex(a, b, 0);
    if !name_lt(a, b) && !name_lt(b, a) {
        assert(a =~= a.skip(0));
        assert(b =~= b.skip(0));
    }
}

proof fn lemma_from_irrefl(a: Seq<char>, i: int)
    ensures
        !name_lt_from(a, a, i),
    decreases a.len() - i,
{
    if i < a.len() {
        lemma_from_irrefl(a, i + 1);
    }
}

/// The order is irreflexive.
pub proof fn lemma_name_lt_irrefl(a: Seq<char>)
    ensures
        !name_lt(a, a),
{
    lemma_from_irrefl(a, 0);
}

proof fn lemma_from_trans(a: Seq<char>, b: Seq<char>, c: Seq<char>, i: int)
    requires
        name_lt_from(a, b, i),
        name_lt_from(b, c, i),
    ensures
        name_lt_from(a, c, i),
    decreases c.len() - i,
{
    if i >= c.len() {
    } else if i >= a.len() {
    } else if i >= b.len() {
    } else {
        if a[i] == b[i] && b[i] == c[i] {
            lemma_from_trans(a, b, c, i + 1);
        }
    }
}

/// The order is transitive.
pub proof fn lemma_name_lt_trans(a: Seq<char>, b: Seq<char>, c: Seq<char>)
    requires
        name_lt(a, b),
        name_lt(b, c),
    ensures
        name_lt(a, c),
{
    lemma_from_trans(a, b, c, 0);
}

/// Lexicographic comparison of two strings.
pub fn str_lt(x: &str, y: &str) -> (r: bool)
    ensures
        r == name_lt(x@, y@),
{
    let xn = x.unicode_len();
    let yn = y.unicode_len();
    let mut i: usize = 0;
    loop
        invariant
            0 <= i,
            i <= xn == x@.len(),
            i <= yn == y@.len(),
            name_lt(x@, y@) == name_lt_from(x@, y@, i as int),
        decreases yn - i,
    {
        if i >= yn {
            return false;
        }
        if i >= xn {
            return true;
        }
        let cx = x.get_char(i);
        let cy = y.get_char(i);
        if cx != cy {
            return (cx as u32) < (cy as u32);
        }
        i += 1;
    }
}

/// Lexicographic comparison of two node names.
pub fn node_lt(a: &Node, b: &Node) -> (r: bool)
    ensures
        r == name_lt(a@, b@),
{
    str_lt(a.name(), b.name())
}

/// The names of a sequence of nodes, in order.
pub open spec fn names_of(s: Seq<Node>) -> Seq<Seq<char>> {
    s.map_values(|n: Node| n@)
}

/// A strictly sorted sequence of names.
pub open spec fn sorted_names(s: Seq<Seq<char>>) -> bool {
    forall|i: int, j: int| 0 <= i < j < s.len() ==> name_lt(#[trigger] s[i], #[trigger] s[j])
}

/// Insert a node into a vector sorted by name, keeping it sorted and
/// without duplicates.
pub fn insert_node(v: &mut Vec<Node>, x: Node)
    requires
        sorted_names(names_of(old(v)@)),
    ensures
        sorted_names(names_of(final(v)@)),
        names_of(final(v)@).to_set() == names_of(old(v)@).to_set().insert(x@),
{
    let ghost olds = names_of(v@);
    let mut i: usize = 0;
    while i < v.len() && node_lt(&v[i], &x)
        invariant
            0 <= i <= v.len(),
            names_of(v@) == olds,
            sorted_names(olds),
            forall|j: int| 0 <= j < i ==> name_lt(#[trigger] olds[j], x@),
        decreases v.len() - i,
    {
        i += 1;
    }
    if i < v.len() && !node_lt(&x, &v[i]) {
        // the name is already present
        proof {
            lemma_name_lt_connex(x@, olds[i as int]);
            assert(olds[i as int] == x@);
            assert(olds.to_set().contains(x@)) by {
                assert(olds.contains(x@));
            }
            assert(olds.to_set() =~= olds.to_set().insert(x@));
        }
        return ;
    }
    proof {
        if i < v.len() {
            lemma_name_lt_connex(x@, olds[i as int]);
        }
    }
    v.insert(i, x);
    proof {
        let news = names_of(v@);
        assert(news =~= olds.insert(i as int, x@));
        assert forall|p: int, q: int| 0 <= p < q < news.len() implies name_lt(
            news[p],
            news[q],
        ) by {
            let oi = i as int;
            if q == oi {
                assert(news[p] == olds[p] && news[q] == x@);
            } else if p == oi {
                assert(news[p] == x@ && news[q] == olds[q - 1]);
                assert(name_lt(x@, olds[oi]));
                if q - 1 > oi {
                    lemma_name_lt_trans(x@, olds[oi], olds[q - 1]);
                }
            } else if p < oi && q > oi {
                assert(news[p] == olds[p] && news[q] == olds[q - 1]);
            } else if p > oi {
                assert(news[p] == olds[p - 1] && news[q] == olds[q - 1]);
            } else {
                assert(news[p] == olds[p] && news[q] == olds[q]);
            }
        }
        assert(news.to_set() =~= olds.to_set().insert(x@)) by {
            assert forall|y: Seq<char>| news.to_set().contains(y) implies olds.to_set().insert(
                x@,
            ).contains(y) by {
                let k = choose|k: int| 0 <= k < news.len() && news[k] == y;
                if k < i as int {
                    assert(olds.contains(y));
                } else if k > i as int {
                    assert(olds[k - 1] == y);
                    assert(olds.contains(y));
                }
            }
            assert forall|y: Seq<char>| olds.to_set().insert(x@).contains(y) implies news.to_set()
                .contains(y) by {
                if y == x@ {
                    assert(news[i as int] == y);
                    assert(news.contains(y));
                } else {
                    let k = choose|k: int| 0 <= k < olds.len() && olds[k] == y;
                    if k < i as int {
                        assert(news[k] == y);
                    } else {
                        assert(news[k + 1] == y);
                    }
                    assert(news.contains(y));
                }
            }
        }
    }
}

/// Lexicographic order on pairs of names.
pub open spec fn pair_lt(a: (Seq<char>, Seq<char>), b: (Seq<char>, Seq<char>)) -> bool {
    name_lt(a.0, b.0) || (a.0 == b.0 && name_lt(a.1, b.1))
}

/// The pair order is connex.
pub proof fn lemma_pair_lt_connex(a: (Seq<char>, Seq<char>), b: (Seq<char>, Seq<char>))
    ensures
        a == b || pair_lt(a, b) || pair_lt(b, a),
{
    lemma_name_lt_connex(a.0, b.0);
    lemma_name_lt_connex(a.1, b.1);
}

/// The pair order is transitive.
pub proof fn lemma_pair_lt_trans(
    a: (Seq<char>, Seq<char>),
    b: (Seq<char>, Seq<char>),
    c: (Seq<char>, Seq<char>),
)
    requires
        pair_lt(a, b),
        pair_lt(b, c),
    ensures
        pair_lt(a, c),
{
    if name_lt(a.0, b.0) && name_lt(b.0, c.0) {
        lemma_name_lt_trans(a.0, b.0, c.0);
    } else if a.0 == b.0 && b.0 == c.0 {
        lemma_name_lt_trans(a.1, b.1, c.1);
    }
}

/// The pair of names a pair of nodes carries.
pub open spec fn pair_view(p: (Node, Node)) -> (Seq<char>, Seq<char>) {
    (p.0@, p.1@)
}

/// The name pairs of a sequence of node pairs, in order./// The name pairs of a sequence of node pairs, in order.
pub open spec fn pair_names(s: Seq<(Node, Node)>) -> Seq<(Seq<char>, Seq<char>)> {
    s.map_values(|p: (Node, Node)| pair_view(p))
}

/// A strictly sorted sequence of name pairs.
pub open spec fn sorted_pairs(s: Seq<(Seq<char>, Seq<char>)>) -> bool {
    forall|i: int, j: int| 0 <= i < j < s.len() ==> pair_lt(#[trigger] s[i], #[trigger] s[j])
}

/// Compare two node pairs lexicographically.
fn node_pair_lt(a: &(Node, Node), b: &(Node, Node)) -> (r: bool)
    ensures
        r == pair_lt(pair_view(*a), pair_view(*b)),
{
    if node_lt(&a.0, &b.0) {
        true
    } else if node_lt(&b.0, &a.0) {
        false
    } else {
        proof {
            lemma_name_lt_connex(a.0@, b.0@);
        }
        node_lt(&a.1, &b.1)
    }
}

/// Insert a node pair into a vector sorted by the pair order, keeping it
/// sorted and without duplicates.
pub fn insert_pair(v: &mut Vec<(Node, Node)>, x: (Node, Node))
    requires
        sorted_pairs(pair_names(old(v)@)),
    ensures
        sorted_pairs(pair_names(final(v)@)),
        pair_names(final(v)@).to_set() == pair_names(old(v)@).to_set().insert(pair_view(x)),
{
    let ghost olds = pair_names(v@);
    let ghost xn = pair_view(x);
    let mut i: usize = 0;
    let mut scanning = true;
    while scanning && i < v.len()
        invariant
            0 <= i <= v.len(),
            pair_names(v@) == olds,
            xn == pair_view(x),
            sorted_pairs(olds),
            forall|j: int| 0 <= j < i ==> pair_lt(#[trigger] olds[j], xn),
            !scanning && i < v.len() ==> !pair_lt(olds[i as int], xn),
        decreases v.len() - i + (if scanning { 1int } else { 0int }),
    {
        proof {
            assert(olds[i as int] == pair_view(v@[i as int]));
        }
        if node_pair_lt(&v[i], &x) {
            i += 1;
        } else {
            scanning = false;
        }
    }
    if i < v.len() && !node_pair_lt(&x, &v[i]) {
        // the pair is already present
        proof {
            lemma_pair_lt_connex(xn, olds[i as int]);
            assert(olds[i as int] == xn);
            assert(olds.to_set().contains(xn)) by {
                assert(olds.contains(xn));
            }
            assert(olds.to_set() =~= olds.to_set().insert(xn));
        }
        return ;
    }
    proof {
        if i < v.len() {
            lemma_pair_lt_connex(xn, olds[i as int]);
        }
    }
    v.insert(i, x);
    proof {
        let news = pair_names(v@);
        assert(news =~= olds.insert(i as int, xn));
        assert forall|p: int, q: int| 0 <= p < q < news.len() implies pair_lt(
            news[p],
            news[q],
        ) by {
            let oi = i as int;
            if q == oi {
                assert(news[p] == olds[p] && news[q] == xn);
            } else if p == oi {
                assert(news[p] == xn && news[q] == olds[q - 1]);
                assert(pair_lt(xn, olds[oi]));
                if q - 1 > oi {
                    lemma_pair_lt_trans(xn, olds[oi], olds[q - 1]);
                }
            } else if p < oi && q > oi {
                assert(news[p] == olds[p] && news[q] == olds[q - 1]);
            } else if p > oi {
                assert(news[p] == olds[p - 1] && news[q] == olds[q - 1]);
            } else {
                assert(news[p] == olds[p] && news[q] == olds[q]);
            }
        }
        assert(news.to_set() =~= olds.to_set().insert(xn)) by {
            assert forall|y: (Seq<char>, Seq<char>)| news.to_set().contains(y) implies olds.to_set()
                .insert(xn).contains(y) by {
                let k = choose|k: int| 0 <= k < news.len() && news[k] == y;
                if k < i as int {
                    assert(olds.contains(y));
                } else if k > i as int {
                    assert(olds[k - 1] == y);
                    assert(olds.contains(y));
                }
            }
            assert forall|y: (Seq<char>, Seq<char>)| olds.to_set().insert(xn).contains(y)
                implies news.to_set().contains(y) by {
                if y == xn {
                    assert(news[i as int] == y);
                    assert(news.contains(y));
                } else {
                    let k = choose|k: int| 0 <= k < olds.len() && olds[k] == y;
                    if k < i as int {
                        assert(news[k] == y);
                    } else {
                        assert(news[k + 1] == y);
                    }
                    assert(news.contains(y));
                }
            }
        }
    }
}

/// Two strictly sorted listings of the same finite set coincide.  The
/// order must be irreflexive and transitive.
pub proof fn lemma_sorted_unique<A>(a: Seq<A>, b: Seq<A>, lt: spec_fn(A, A) -> bool)
    requires
        forall|x: A| !#[trigger] lt(x, x),
        forall|x: A, y: A, z: A| #[trigger] lt(x, y) && #[trigger] lt(y, z) ==> lt(x, z),
        forall|i: int, j: int| 0 <= i < j < a.len() ==> lt(#[trigger] a[i], #[trigger] a[j]),
        forall|i: int, j: int| 0 <= i < j < b.len() ==> lt(#[trigger] b[i], #[trigger] b[j]),
        a.to_set() == b.to_set(),
    ensures
        a == b,
    decreases a.len(),
{
    if a.len() == 0 {
        if b.len() > 0 {
            assert(b.to_set().contains(b[0]));
            assert(a.to_set().contains(b[0]));
            assert(false);
        }
        assert(a =~= b);
    } else {
        assert(a.to_set().contains(a[0]));
        assert(b.to_set().contains(a[0]));
        if b.len() == 0 {
            assert(false);
        }
        assert(b.to_set().contains(b[0]));
        assert(a.to_set().contains(b[0]));
        // both heads are the least element of the common set
        let ka = choose|k: int| 0 <= k < a.len() && a[k] == b[0];
        let kb = choose|k: int| 0 <= k < b.len() && b[k] == a[0];
        assert(a[0] == b[0]) by {
            if a[0] != b[0] {
                assert(ka > 0);
                assert(kb > 0);
                assert(lt(a[0], a[ka]));
                assert(lt(b[0], b[kb]));
                assert(lt(a[0], b[0]) && lt(b[0], a[0]));
                assert(lt(a[0], a[0]));
            }
        }
        let at = a.drop_first();
        let bt = b.drop_first();
        assert(at.to_set() =~= bt.to_set()) by {
            assert forall|x: A| at.to_set().contains(x) implies bt.to_set().contains(x) by {
                let k = choose|k: int| 0 <= k < at.len() && at[k] == x;
                assert(a[k + 1] == x);
                assert(lt(a[0], x));
                assert(b.to_set().contains(x));
                let k2 = choose|k2: int| 0 <= k2 < b.len() && b[k2] == x;
                assert(k2 > 0);
                assert(bt[k2 - 1] == x);
                assert(bt.contains(x));
            }
            assert forall|x: A| bt.to_set().contains(x) implies at.to_set().contains(x) by {
                let k = choose|k: int| 0 <= k < bt.len() && bt[k] == x;
                assert(b[k + 1] == x);
                assert(lt(b[0], x));
                assert(a.to_set().contains(x));
                let k2 = choose|k2: int| 0 <= k2 < a.len() && a[k2] == x;
                assert(k2 > 0);
                assert(at[k2 - 1] == x);
                assert(at.contains(x));
            }
        }
        assert(forall|i: int, j: int| 0 <= i < j < at.len() ==> lt(#[trigger] at[i], #[trigger] at[j]))
            by {
            assert(forall|i: int| 0 <= i < at.len() ==> #[trigger] at[i] == a[i + 1]);
        }
        assert(forall|i: int, j: int| 0 <= i < j < bt.len() ==> lt(#[trigger] bt[i], #[trigger] bt[j]))
            by {
            assert(forall|i: int| 0 <= i < bt.len() ==> #[trigger] bt[i] == b[i + 1]);
        }
        lemma_sorted_unique(at, bt, lt);
        assert(a =~= b) by {
            assert(forall|i: int| 0 < i < a.len() ==> #[trigger] a[i] == at[i - 1]);
            assert(forall|i: int| 0 < i < b.len() ==> #[trigger] b[i] == bt[i - 1]);
        }
    }
}

} // verus!
