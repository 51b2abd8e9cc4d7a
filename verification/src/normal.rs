//! Reduction of expressions to normal form.
//!
//! The normal form of an expression is a disjoint union of cliques:
//!
//! - empty groups reduce to the empty disjoint union: `{} => []`
//! - single-member groups collapse to their member: `[{A}] => A`
//! - nested groups of the same kind are flattened: `{{A, B}, C} => {A, B, C}`
//! - connectivity distributes over disjointness:
//!   `{[A, B], [C, D]} => [{A, C}, {A, D}, {B, C}, {B, D}]`
//! - a group member whose node set is contained in a sibling's is dropped.
//!
//! The specification functions in this module define the normal form; the
//! executable `normalize` and `dedup` operations are proved to compute it.

use vstd::prelude::*;

use crate::order::names_of;
use crate::{lemma_model_all, lemma_nset_all_contains, model_all, nset, nset_all, Expr, GExpr, Node, Normalize, Ret, Stmt};

verus! {

// ---------------------------------------------------------------------------
// The normal form, as specification functions.
// ---------------------------------------------------------------------------
/// The name of a leaf.
pub open spec fn leaf_name(g: GExpr) -> Seq<char>
    recommends
        g is Leaf,
{
    g->Leaf_0
}

/// The names of a sequence of leaves, in order.
pub open spec fn leaf_names(ms: Seq<GExpr>) -> Seq<Seq<char>>
    decreases ms,
{
    if ms.len() == 0 {
        Seq::empty()
    } else {
        leaf_names(ms.drop_last()).push(leaf_name(ms.last()))
    }
}

/// The clique contribution of a normal component: a leaf contributes its
/// name, a connected group of leaves contributes their names.
pub open spec fn member_names(g: GExpr) -> Seq<Seq<char>> {
    match g {
        GExpr::Leaf(n) => seq![n],
        GExpr::Conn(ms) => leaf_names(ms),
        GExpr::Disc(_) => Seq::empty(),
    }
}

/// One row of the distribution step: the first accumulated clique extended
/// by each alternative of a disconnected member, in order.
pub open spec fn cross_disc(b: Seq<Seq<Seq<char>>>, items: Seq<GExpr>) -> Seq<Seq<Seq<char>>>
    decreases b,
{
    if b.len() == 0 {
        Seq::empty()
    } else {
        items.map_values(|it: GExpr| b.first() + member_names(it)) + cross_disc(b.drop_first(), items)
    }
}

/// Extend the accumulated cliques by one (already normalized) member of a
/// connected group.  An empty accumulator first receives a single empty
/// clique; a leaf or connected member extends every clique, a disconnected
/// member multiplies the cliques by its alternatives.
pub open spec fn ext_cliques(base: Seq<Seq<Seq<char>>>, m: GExpr) -> Seq<Seq<Seq<char>>> {
    let b = if base.len() == 0 {
        seq![Seq::<Seq<char>>::empty()]
    } else {
        base
    };
    match m {
        GExpr::Disc(items) => cross_disc(b, items),
        _ => b.map_values(|c: Seq<Seq<char>>| c + member_names(m)),
    }
}

/// The cliques of a connected group whose members are already normalized:
/// the cross product of the members' alternatives, left to right.
pub open spec fn cliques_of(ms: Seq<GExpr>) -> Seq<Seq<Seq<char>>>
    decreases ms,
{
    if ms.len() == 0 {
        Seq::empty()
    } else {
        ext_cliques(cliques_of(ms.drop_last()), ms.last())
    }
}

/// The first occurrences of the names in a clique, in order.
pub open spec fn first_distinct(c: Seq<Seq<char>>) -> Seq<Seq<char>>
    decreases c,
{
    if c.len() == 0 {
        Seq::empty()
    } else {
        let p = first_distinct(c.drop_last());
        if p.contains(c.last()) {
            p
        } else {
            p.push(c.last())
        }
    }
}

/// The component built from a clique: its distinct names as a connected
/// group, or a single leaf.
pub open spec fn group_of(c: Seq<Seq<char>>) -> GExpr {
    let d = first_distinct(c);
    if d.len() == 1 {
        GExpr::Leaf(d[0])
    } else {
        GExpr::Conn(d.map_values(|n: Seq<char>| GExpr::Leaf(n)))
    }
}

/// The components built from a sequence of cliques.
pub open spec fn groups_of(cls: Seq<Seq<Seq<char>>>) -> Seq<GExpr> {
    cls.map_values(|c: Seq<Seq<char>>| group_of(c))
}

/// Whether some element of `fresh` subsumes `x` (contains its node set).
pub open spec fn covered(fresh: Seq<GExpr>, x: GExpr) -> bool {
    exists|i: int| 0 <= i < fresh.len() && nset(x).subset_of(nset(#[trigger] fresh[i]))
}

/// Drop the elements of `fresh` that `x` subsumes.
pub open spec fn drop_subsumed(fresh: Seq<GExpr>, x: GExpr) -> Seq<GExpr> {
    fresh.filter(|f: GExpr| !nset(f).subset_of(nset(x)))
}

/// One deduplication step: a newcomer subsumed by an earlier sibling is
/// dropped; otherwise it replaces every sibling it subsumes.
pub open spec fn dedup_step(fresh: Seq<GExpr>, x: GExpr) -> Seq<GExpr> {
    if covered(fresh, x) {
        fresh
    } else {
        drop_subsumed(fresh, x).push(x)
    }
}

/// Deduplication of a sequence of sibling components, left to right.
pub open spec fn dedup_groups(gs: Seq<GExpr>) -> Seq<GExpr>
    decreases gs,
{
    if gs.len() == 0 {
        Seq::empty()
    } else {
        dedup_step(dedup_groups(gs.drop_last()), gs.last())
    }
}

/// The members a normalized member contributes to an enclosing
/// disconnected group: a nested disjoint union is spliced in.
pub open spec fn splice_one(m: GExpr) -> Seq<GExpr> {
    match m {
        GExpr::Disc(items) => items,
        _ => seq![m],
    }
}

/// Splice a sequence of normalized members into one flat member list.
pub open spec fn splice(ms: Seq<GExpr>) -> Seq<GExpr>
    decreases ms,
{
    if ms.len() == 0 {
        Seq::empty()
    } else {
        splice(ms.drop_last()) + splice_one(ms.last())
    }
}

/// A disjoint union of the given components, collapsed when there is
/// exactly one.
pub open spec fn wrap_disc(items: Seq<GExpr>) -> GExpr {
    if items.len() == 1 {
        items[0]
    } else {
        GExpr::Disc(items)
    }
}

/// The normal form of a connected group with normalized members.
pub open spec fn norm_conn(ms: Seq<GExpr>) -> GExpr {
    wrap_disc(dedup_groups(groups_of(cliques_of(ms))))
}

/// The normal form of a disconnected group with normalized members.
pub open spec fn norm_disc(ms: Seq<GExpr>) -> GExpr {
    wrap_disc(dedup_groups(splice(ms)))
}

/// The normal form of an expression.
pub open spec fn norm(g: GExpr) -> GExpr
    decreases g,
{
    match g {
        GExpr::Leaf(n) => GExpr::Leaf(n),
        GExpr::Conn(es) => norm_conn(norm_all(es)),
        GExpr::Disc(es) => norm_disc(norm_all(es)),
    }
}

/// The normal forms of a sequence of expressions, in order.
pub open spec fn norm_all(es: Seq<GExpr>) -> Seq<GExpr>
    decreases es,
{
    if es.len() == 0 {
        Seq::empty()
    } else {
        norm_all(es.drop_last()).push(norm(es.last()))
    }
}

/// `norm_all` is the element-wise normal form.
pub broadcast proof fn lemma_norm_all(es: Seq<GExpr>)
    ensures
        (#[trigger] norm_all(es)).len() == es.len(),
        forall|i: int| 0 <= i < es.len() ==> norm_all(es)[i] == norm(#[trigger] es[i]),
    decreases es,
{
    if es.len() > 0 {
        lemma_norm_all(es.drop_last());
        assert forall|i: int| 0 <= i < es.len() implies norm_all(es)[i] == norm(
            #[trigger] es[i],
        ) by {
            if i < es.len() - 1 {
                assert(es.drop_last()[i] == es[i]);
            }
        }
    }
}

// ---------------------------------------------------------------------------
// The shape of normal forms.
// ---------------------------------------------------------------------------
/// All members of the sequence are leaves.
pub open spec fn all_leaves(ms: Seq<GExpr>) -> bool {
    forall|i: int| 0 <= i < ms.len() ==> (#[trigger] ms[i]) is Leaf
}

/// No two members of the sequence carry the same name.
pub open spec fn distinct_names(ms: Seq<GExpr>) -> bool {
    forall|i: int, j: int|
        0 <= i < j < ms.len() ==> leaf_name(#[trigger] ms[i]) != leaf_name(#[trigger] ms[j])
}

/// A component of a normal form: a leaf, or a clique of at least two
/// distinct leaves.
pub open spec fn is_component(g: GExpr) -> bool {
    match g {
        GExpr::Leaf(_) => true,
        GExpr::Conn(ms) => ms.len() >= 2 && all_leaves(ms) && distinct_names(ms),
        GExpr::Disc(_) => false,
    }
}

/// No member's node set is contained in another member's node set.
pub open spec fn incomparable(items: Seq<GExpr>) -> bool {
    forall|i: int, j: int|
        0 <= i < items.len() && 0 <= j < items.len() && i != j ==> !nset(
            #[trigger] items[i],
        ).subset_of(nset(#[trigger] items[j]))
}

/// A normal form: a single component, or a disjoint union (never of
/// exactly one) of components none of which subsumes another.
pub open spec fn is_normal(g: GExpr) -> bool {
    match g {
        GExpr::Disc(items) => {
            &&& items.len() != 1
            &&& forall|i: int| 0 <= i < items.len() ==> is_component(#[trigger] items[i])
            &&& incomparable(items)
        },
        _ => is_component(g),
    }
}

// ---------------------------------------------------------------------------
// Properties of the building blocks.
// ---------------------------------------------------------------------------
/// A sequence contains an element exactly when its front part does or the
/// element is the last one.
proof fn lemma_contains_split<A>(s: Seq<A>, x: A)
    requires
        s.len() > 0,
    ensures
        s.contains(x) <==> (s.drop_last().contains(x) || x == s.last()),
{
    if s.contains(x) {
        let i = choose|i: int| 0 <= i < s.len() && s[i] == x;
        if i < s.len() - 1 {
            assert(s.drop_last()[i] == x);
        }
    }
    if s.drop_last().contains(x) {
        let i = choose|i: int| 0 <= i < s.drop_last().len() && s.drop_last()[i] == x;
        assert(s[i] == x);
    }
    if x == s.last() {
        assert(s[s.len() - 1] == x);
    }
}

/// `first_distinct` keeps exactly the names of the clique, once each.
proof fn lemma_first_distinct(c: Seq<Seq<char>>)
    ensures
        forall|x: Seq<char>| first_distinct(c).contains(x) <==> c.contains(x),
        forall|i: int, j: int|
            0 <= i < j < first_distinct(c).len() ==> first_distinct(c)[i] != first_distinct(c)[j],
        c.len() > 0 ==> first_distinct(c).len() > 0,
        first_distinct(c).to_set() == c.to_set(),
    decreases c,
{
    if c.len() > 0 {
        lemma_first_distinct(c.drop_last());
        let p = first_distinct(c.drop_last());
        let fd = first_distinct(c);
        assert forall|x: Seq<char>| fd.contains(x) <==> c.contains(x) by {
            lemma_contains_split(c, x);
            assert(p.contains(x) <==> c.drop_last().contains(x));
            if !p.contains(c.last()) {
                lemma_contains_split(fd, x);
                assert(fd.drop_last() =~= p);
            }
        }
        if !p.contains(c.last()) {
            assert forall|i: int, j: int| 0 <= i < j < fd.len() implies fd[i] != fd[j] by {
                if j == fd.len() - 1 {
                    assert(p.contains(p[i]));
                }
            }
        }
        assert(p.len() > 0 || !p.contains(c.last()));
        if p.contains(c.last()) {
            assert(p.len() > 0);
        }
    }
    assert(first_distinct(c).to_set() =~= c.to_set());
}

/// What deduplication keeps: a subsequence-like selection of the input
/// whose members no longer subsume one another, covering the same names.
proof fn lemma_dedup_groups(gs: Seq<GExpr>)
    ensures
        forall|i: int|
            0 <= i < dedup_groups(gs).len() ==> gs.contains(#[trigger] dedup_groups(gs)[i]),
        incomparable(dedup_groups(gs)),
        gs.len() > 0 ==> dedup_groups(gs).len() > 0,
        forall|x: Seq<char>|
            nset_all(dedup_groups(gs)).contains(x) <==> nset_all(gs).contains(x),
    decreases gs,
{
    if gs.len() > 0 {
        lemma_dedup_groups(gs.drop_last());
        let p = dedup_groups(gs.drop_last());
        let x = gs.last();
        let dg = dedup_groups(gs);
        // membership in gs
        assert forall|i: int| 0 <= i < dg.len() implies gs.contains(#[trigger] dg[i]) by {
            if covered(p, x) {
                assert(gs.drop_last().contains(dg[i]));
                lemma_contains_split(gs, dg[i]);
            } else {
                let pred = |f: GExpr| !nset(f).subset_of(nset(x));
                let kept = p.filter(pred);
                if i < kept.len() {
                    lemma_filter_position(p, pred, i);
                    let pi = choose|pi: int| 0 <= pi < p.len() && p[pi] == kept[i];
                    assert(gs.drop_last().contains(p[pi]));
                    lemma_contains_split(gs, dg[i]);
                } else {
                    assert(dg[i] == x);
                    lemma_contains_split(gs, x);
                }
            }
        }
        // incomparability
        if covered(p, x) {
        } else {
            let pred = |f: GExpr| !nset(f).subset_of(nset(x));
            let kept = p.filter(pred);
            assert forall|i: int, j: int|
                0 <= i < dg.len() && 0 <= j < dg.len() && i != j implies !nset(
                dg[i],
            ).subset_of(nset(dg[j])) by {
                if i < kept.len() && j < kept.len() {
                    let lo = if i < j {
                        i
                    } else {
                        j
                    };
                    let hi = if i < j {
                        j
                    } else {
                        i
                    };
                    lemma_filter_distinct_positions(p, pred, lo, hi);
                    let (qi, qj) = choose|qi: int, qj: int|
                        0 <= qi < qj < p.len() && p[qi] == kept[lo] && p[qj] == kept[hi];
                    assert(!nset(p[qi]).subset_of(nset(p[qj])));
                    assert(!nset(p[qj]).subset_of(nset(p[qi])));
                } else if i < kept.len() && j == kept.len() {
                    // kept[i] not subsumed by x, by the filter
                    p.lemma_filter_pred(pred, i);
                } else if i == kept.len() && j < kept.len() {
                    // x not subsumed by kept[j]: otherwise x were covered
                    lemma_filter_position(p, pred, j);
                    let pj = choose|pj: int| 0 <= pj < p.len() && p[pj] == kept[j];
                    if nset(x).subset_of(nset(kept[j])) {
                        assert(nset(x).subset_of(nset(p[pj])));
                        assert(covered(p, x));
                    }
                }
            }
        }
        // name sets
        assert forall|y: Seq<char>|
            nset_all(dg).contains(y) <==> nset_all(gs).contains(y) by {
            lemma_nset_all_contains(dg, y);
            lemma_nset_all_contains(gs, y);
            lemma_nset_all_contains(p, y);
            lemma_nset_all_contains(gs.drop_last(), y);
            if covered(p, x) {
                // dg == p
                if nset_all(gs).contains(y) {
                    let i = choose|i: int| 0 <= i < gs.len() && nset(gs[i]).contains(y);
                    if i < gs.len() - 1 {
                        assert(gs.drop_last()[i] == gs[i]);
                        assert(nset_all(gs.drop_last()).contains(y));
                    } else {
                        // y is in nset(x), which is inside some element of p
                        let k = choose|k: int|
                            0 <= k < p.len() && nset(x).subset_of(nset(p[k]));
                        assert(nset(p[k]).contains(y));
                    }
                }
                if nset_all(p).contains(y) {
                    let i = choose|i: int| 0 <= i < p.len() && nset(p[i]).contains(y);
                    assert(gs.drop_last().contains(p[i]));
                    let k = choose|k: int|
                        0 <= k < gs.drop_last().len() && gs.drop_last()[k] == p[i];
                    assert(gs[k] == p[i]);
                }
            } else {
                let pred = |f: GExpr| !nset(f).subset_of(nset(x));
                let kept = p.filter(pred);
                if nset_all(gs).contains(y) {
                    let i = choose|i: int| 0 <= i < gs.len() && nset(gs[i]).contains(y);
                    if i == gs.len() - 1 {
                        assert(dg[dg.len() - 1] == x);
                        assert(nset_all(dg).contains(y));
                    } else {
                        assert(gs.drop_last()[i] == gs[i]);
                        assert(nset_all(gs.drop_last()).contains(y));
                        let k = choose|k: int| 0 <= k < p.len() && nset(p[k]).contains(y);
                        if pred(p[k]) {
                            p.lemma_filter_contains(pred, k);
                            let t = choose|t: int| 0 <= t < kept.len() && kept[t] == p[k];
                            assert(nset(dg[t]).contains(y));
                        } else {
                            // p[k] is subsumed by x, so y is in nset(x)
                            assert(nset(x).contains(y));
                            assert(dg[dg.len() - 1] == x);
                        }
                    }
                }
                if nset_all(dg).contains(y) {
                    let i = choose|i: int| 0 <= i < dg.len() && nset(dg[i]).contains(y);
                    if i < kept.len() {
                        lemma_filter_position(p, pred, i);
                        let k = choose|k: int| 0 <= k < p.len() && p[k] == kept[i];
                        assert(nset(p[k]).contains(y));
                        assert(nset_all(p).contains(y));
                        let t = choose|t: int|
                            0 <= t < gs.drop_last().len() && nset(gs.drop_last()[t]).contains(y);
                        assert(gs[t] == gs.drop_last()[t]);
                    } else {
                        assert(dg[i] == x);
                        assert(nset(gs[gs.len() - 1]).contains(y));
                    }
                }
            }
        }
    }
}

/// Distinct positions in a filtered sequence come from distinct positions
/// of the original, so a duplicate-free filter result cannot repeat.
proof fn lemma_filter_distinct_positions(
    p: Seq<GExpr>,
    pred: spec_fn(GExpr) -> bool,
    i: int,
    j: int,
)
    requires
        0 <= i < j < p.filter(pred).len(),
    ensures
        exists|pi: int, pj: int|
            0 <= pi < pj < p.len() && p[pi] == p.filter(pred)[i] && p[pj] == p.filter(pred)[j],
    decreases p,
{
    reveal(Seq::filter);
    if p.len() > 0 {
        let fp = p.filter(pred);
        let front = p.drop_last().filter(pred);
        if pred(p.last()) {
            if j < fp.len() - 1 {
                lemma_filter_distinct_positions(p.drop_last(), pred, i, j);
                let (pi, pj) = choose|pi: int, pj: int|
                    0 <= pi < pj < p.drop_last().len() && p.drop_last()[pi] == front[i]
                        && p.drop_last()[pj] == front[j];
                assert(p[pi] == fp[i] && p[pj] == fp[j]);
            } else {
                // fp[j] is p.last(); find a position for fp[i] in the front
                lemma_filter_position(p.drop_last(), pred, i);
                let pi = choose|pi: int|
                    0 <= pi < p.drop_last().len() && p.drop_last()[pi] == front[i];
                assert(p[pi] == fp[i] && p[p.len() - 1] == fp[j]);
            }
        } else {
            lemma_filter_distinct_positions(p.drop_last(), pred, i, j);
            let (pi, pj) = choose|pi: int, pj: int|
                0 <= pi < pj < p.drop_last().len() && p.drop_last()[pi] == front[i]
                    && p.drop_last()[pj] == front[j];
            assert(p[pi] == fp[i] && p[pj] == fp[j]);
        }
    }
}

/// `leaf_names` is the element-wise name.
proof fn lemma_leaf_names(ms: Seq<GExpr>)
    ensures
        leaf_names(ms).len() == ms.len(),
        forall|i: int| 0 <= i < ms.len() ==> leaf_names(ms)[i] == leaf_name(#[trigger] ms[i]),
    decreases ms,
{
    if ms.len() > 0 {
        lemma_leaf_names(ms.drop_last());
        assert forall|i: int| 0 <= i < ms.len() implies leaf_names(ms)[i] == leaf_name(
            #[trigger] ms[i],
        ) by {
            if i < ms.len() - 1 {
                assert(ms.drop_last()[i] == ms[i]);
            }
        }
    }
}

/// A component's clique contribution is non-empty and covers exactly its
/// node set.
proof fn lemma_member_names(g: GExpr)
    requires
        is_component(g),
    ensures
        member_names(g).len() > 0,
        forall|x: Seq<char>| member_names(g).contains(x) <==> nset(g).contains(x),
        member_names(g).to_set() == nset(g),
    decreases g,
{
    match g {
        GExpr::Leaf(n) => {
            assert forall|x: Seq<char>| member_names(g).contains(x) <==> nset(g).contains(x) by {
                if nset(g).contains(x) {
                    assert(member_names(g)[0] == x);
                }
            }
        },
        GExpr::Conn(ms) => {
            lemma_leaf_names(ms);
            assert forall|x: Seq<char>| member_names(g).contains(x) <==> nset(g).contains(x) by {
                lemma_nset_all_contains(ms, x);
                if member_names(g).contains(x) {
                    let i = choose|i: int| 0 <= i < ms.len() && leaf_names(ms)[i] == x;
                    assert(ms[i] is Leaf);
                    assert(nset(ms[i]).contains(x));
                }
                if nset_all(ms).contains(x) {
                    let i = choose|i: int| 0 <= i < ms.len() && nset(#[trigger] ms[i]).contains(x);
                    assert(ms[i] is Leaf);
                    assert(leaf_names(ms)[i] == x);
                    assert(leaf_names(ms).contains(x));
                }
            }
        },
        GExpr::Disc(_) => {},
    }
    assert(member_names(g).to_set() =~= nset(g));
}

/// Appending one accumulated clique distributes over the cross product.
proof fn lemma_cross_snoc(b: Seq<Seq<Seq<char>>>, y: Seq<Seq<char>>, items: Seq<GExpr>)
    ensures
        cross_disc(b.push(y), items) == cross_disc(b, items) + items.map_values(
            |it: GExpr| y + member_names(it),
        ),
    decreases b,
{
    if b.len() == 0 {
        assert(b.push(y).drop_first() =~= b);
        assert(cross_disc(b.push(y), items) =~= cross_disc(b, items) + items.map_values(
            |it: GExpr| y + member_names(it),
        ));
    } else {
        assert(b.push(y).drop_first() =~= b.drop_first().push(y));
        lemma_cross_snoc(b.drop_first(), y, items);
        assert(cross_disc(b.push(y), items) =~= cross_disc(b, items) + items.map_values(
            |it: GExpr| y + member_names(it),
        ));
    }
}

/// Every clique produced by the cross step extends an accumulated clique
/// by one alternative.
proof fn lemma_cross_disc_elem(b: Seq<Seq<Seq<char>>>, items: Seq<GExpr>, k: int)
    requires
        0 <= k < cross_disc(b, items).len(),
    ensures
        exists|t: int, u: int|
            #![trigger b[t], items[u]]
            0 <= t < b.len() && 0 <= u < items.len() && cross_disc(b, items)[k] == b[t]
                + member_names(items[u]),
    decreases b,
{
    if b.len() > 0 {
        let row = items.map_values(|it: GExpr| b.first() + member_names(it));
        if k < row.len() {
            assert(cross_disc(b, items)[k] == b[0] + member_names(items[k]));
        } else {
            let k2 = k - row.len();
            lemma_cross_disc_elem(b.drop_first(), items, k2);
            assert(cross_disc(b, items)[k] == cross_disc(b.drop_first(), items)[k2]);
            let (t, u) = choose|t: int, u: int|
                #![trigger b.drop_first()[t], items[u]]
                0 <= t < b.drop_first().len() && 0 <= u < items.len() && cross_disc(
                    b.drop_first(),
                    items,
                )[k2] == b.drop_first()[t] + member_names(items[u]);
            assert(b.drop_first()[t] == b[t + 1]);
            assert(cross_disc(b, items)[k] == b[t + 1] + member_names(items[u]));
        }
    }
}

/// The cliques of a connected group with normal members are non-empty.
proof fn lemma_ext_cliques_nonempty(base: Seq<Seq<Seq<char>>>, m: GExpr)
    requires
        forall|k: int| 0 <= k < base.len() ==> (#[trigger] base[k]).len() > 0,
        is_normal(m),
    ensures
        forall|k: int| 0 <= k < ext_cliques(base, m).len() ==> (#[trigger] ext_cliques(base, m)[k]).len()
            > 0,
{
    let b = if base.len() == 0 {
        seq![Seq::<Seq<char>>::empty()]
    } else {
        base
    };
    match m {
        GExpr::Disc(items) => {
            assert forall|k: int| 0 <= k < ext_cliques(base, m).len() implies (
            #[trigger] ext_cliques(base, m)[k]).len() > 0 by {
                lemma_cross_disc_elem(b, items, k);
                let (t, u) = choose|t: int, u: int|
                    #![trigger b[t], items[u]]
                    0 <= t < b.len() && 0 <= u < items.len() && cross_disc(b, items)[k] == b[t]
                        + member_names(items[u]);
                assert(is_component(items[u]));
                lemma_member_names(items[u]);
            }
        },
        _ => {
            assert(member_names(m).len() > 0) by {
                lemma_member_names(m);
            }
        },
    }
}

/// All cliques of a connected group with normal members are non-empty.
proof fn lemma_cliques_nonempty(ms: Seq<GExpr>)
    requires
        forall|i: int| 0 <= i < ms.len() ==> is_normal(#[trigger] ms[i]),
    ensures
        forall|k: int| 0 <= k < cliques_of(ms).len() ==> (#[trigger] cliques_of(ms)[k]).len() > 0,
    decreases ms,
{
    if ms.len() > 0 {
        lemma_cliques_nonempty(ms.drop_last());
        assert(forall|i: int|
            0 <= i < ms.drop_last().len() ==> ms.drop_last()[i] == #[trigger] ms[i]);
        lemma_ext_cliques_nonempty(cliques_of(ms.drop_last()), ms.last());
    }
}

/// The component built from a non-empty clique is a component carrying
/// exactly the clique's names.
proof fn lemma_group_of(c: Seq<Seq<char>>)
    requires
        c.len() > 0,
    ensures
        is_component(group_of(c)),
        nset(group_of(c)) == c.to_set(),
{
    lemma_first_distinct(c);
    let d = first_distinct(c);
    let g = group_of(c);
    if d.len() == 1 {
        assert forall|x: Seq<char>| nset(g).contains(x) <==> c.to_set().contains(x) by {
            if c.to_set().contains(x) {
                assert(d.contains(x));
            }
            if nset(g).contains(x) {
                assert(d.contains(d[0]));
            }
        }
        assert(nset(g) =~= c.to_set());
    } else {
        let ms = d.map_values(|n: Seq<char>| GExpr::Leaf(n));
        assert(all_leaves(ms));
        assert(distinct_names(ms));
        assert(is_component(g));
        assert forall|x: Seq<char>| nset(g).contains(x) <==> c.to_set().contains(x) by {
            lemma_nset_all_contains(ms, x);
            if nset_all(ms).contains(x) {
                let i = choose|i: int| 0 <= i < ms.len() && nset(#[trigger] ms[i]).contains(x);
                assert(d[i] == x);
                assert(d.contains(x));
            }
            if c.to_set().contains(x) {
                let i = choose|i: int| 0 <= i < d.len() && d[i] == x;
                assert(nset(ms[i]).contains(x));
            }
        }
        assert(nset(g) =~= c.to_set());
    }
}

/// Splicing normal members yields components only.
proof fn lemma_splice_components(ms: Seq<GExpr>)
    requires
        forall|i: int| 0 <= i < ms.len() ==> is_normal(#[trigger] ms[i]),
    ensures
        forall|k: int| 0 <= k < splice(ms).len() ==> is_component(#[trigger] splice(ms)[k]),
    decreases ms,
{
    if ms.len() > 0 {
        lemma_splice_components(ms.drop_last());
        assert(forall|i: int|
            0 <= i < ms.drop_last().len() ==> ms.drop_last()[i] == #[trigger] ms[i]);
        let front = splice(ms.drop_last());
        assert forall|k: int| 0 <= k < splice(ms).len() implies is_component(
            #[trigger] splice(ms)[k],
        ) by {
            if k < front.len() {
                assert(splice(ms)[k] == front[k]);
            } else {
                let m = ms.last();
                assert(is_normal(m));
                match m {
                    GExpr::Disc(items) => {
                        assert(splice(ms)[k] == items[k - front.len()]);
                    },
                    _ => {
                        assert(splice(ms)[k] == m);
                    },
                }
            }
        }
    }
}

/// The normal form is normal.
pub proof fn lemma_norm_normal(g: GExpr)
    ensures
        is_normal(norm(g)),
    decreases g,
{
    match g {
        GExpr::Leaf(_) => {},
        GExpr::Conn(es) => {
            lemma_norm_all(es);
            let ms = norm_all(es);
            assert forall|i: int| 0 <= i < ms.len() implies is_normal(#[trigger] ms[i]) by {
                lemma_norm_normal(es[i]);
            }
            lemma_cliques_nonempty(ms);
            let cls = cliques_of(ms);
            let gps = groups_of(cls);
            assert forall|k: int| 0 <= k < gps.len() implies is_component(#[trigger] gps[k]) by {
                lemma_group_of(cls[k]);
            }
            lemma_dedup_groups(gps);
            let dd = dedup_groups(gps);
            assert forall|i: int| 0 <= i < dd.len() implies is_component(#[trigger] dd[i]) by {
                assert(gps.contains(dd[i]));
                let j = choose|j: int| 0 <= j < gps.len() && gps[j] == dd[i];
                assert(is_component(gps[j]));
            }
            if dd.len() == 1 {
                assert(norm(g) == dd[0]);
            }
        },
        GExpr::Disc(es) => {
            lemma_norm_all(es);
            let ms = norm_all(es);
            assert forall|i: int| 0 <= i < ms.len() implies is_normal(#[trigger] ms[i]) by {
                lemma_norm_normal(es[i]);
            }
            lemma_splice_components(ms);
            let sp = splice(ms);
            lemma_dedup_groups(sp);
            let dd = dedup_groups(sp);
            assert forall|i: int| 0 <= i < dd.len() implies is_component(#[trigger] dd[i]) by {
                assert(sp.contains(dd[i]));
                let j = choose|j: int| 0 <= j < sp.len() && sp[j] == dd[i];
                assert(is_component(sp[j]));
            }
            if dd.len() == 1 {
                assert(norm(g) == dd[0]);
            }
        },
    }
}

/// A filter that keeps every element is the identity.
proof fn lemma_filter_id(s: Seq<GExpr>, pred: spec_fn(GExpr) -> bool)
    requires
        forall|i: int| 0 <= i < s.len() ==> pred(#[trigger] s[i]),
    ensures
        s.filter(pred) == s,
    decreases s,
{
    reveal(Seq::filter);
    if s.len() > 0 {
        assert(forall|i: int| 0 <= i < s.drop_last().len() ==> s.drop_last()[i] == #[trigger] s[i]);
        lemma_filter_id(s.drop_last(), pred);
        assert(pred(s[s.len() - 1]));
        assert(s.filter(pred) =~= s);
    }
}

/// Deduplication leaves a family of incomparable components unchanged.
proof fn lemma_dedup_id(gs: Seq<GExpr>)
    requires
        incomparable(gs),
    ensures
        dedup_groups(gs) == gs,
    decreases gs,
{
    if gs.len() > 0 {
        assert(forall|i: int|
            0 <= i < gs.drop_last().len() ==> gs.drop_last()[i] == #[trigger] gs[i]);
        lemma_dedup_id(gs.drop_last());
        let p = gs.drop_last();
        let x = gs.last();
        if covered(p, x) {
            let i = choose|i: int| 0 <= i < p.len() && nset(x).subset_of(nset(#[trigger] p[i]));
            assert(gs[i] == p[i] && gs[gs.len() - 1] == x);
            assert(false);
        }
        let pred = |f: GExpr| !nset(f).subset_of(nset(x));
        assert forall|i: int| 0 <= i < p.len() implies pred(#[trigger] p[i]) by {
            assert(gs[i] == p[i] && gs[gs.len() - 1] == x);
        }
        lemma_filter_id(p, pred);
        assert(dedup_groups(gs) =~= gs);
    }
}

/// Splicing members none of which is a disjoint union is the identity.
proof fn lemma_splice_id(ms: Seq<GExpr>)
    requires
        forall|i: int| 0 <= i < ms.len() ==> !((#[trigger] ms[i]) is Disc),
    ensures
        splice(ms) == ms,
    decreases ms,
{
    if ms.len() > 0 {
        assert(forall|i: int|
            0 <= i < ms.drop_last().len() ==> ms.drop_last()[i] == #[trigger] ms[i]);
        lemma_splice_id(ms.drop_last());
        assert(!(ms[ms.len() - 1] is Disc));
        assert(splice(ms) =~= ms);
    }
}

/// `first_distinct` leaves a duplicate-free clique unchanged.
proof fn lemma_first_distinct_id(c: Seq<Seq<char>>)
    requires
        forall|i: int, j: int| 0 <= i < j < c.len() ==> c[i] != c[j],
    ensures
        first_distinct(c) == c,
    decreases c,
{
    if c.len() > 0 {
        assert(forall|i: int, j: int|
            0 <= i < j < c.drop_last().len() ==> c.drop_last()[i] != c.drop_last()[j]);
        lemma_first_distinct_id(c.drop_last());
        if c.drop_last().contains(c.last()) {
            let i = choose|i: int| 0 <= i < c.drop_last().len() && c.drop_last()[i] == c.last();
            assert(c[i] == c[c.len() - 1]);
            assert(false);
        }
        assert(first_distinct(c) =~= c);
    }
}

/// The cliques of a group of leaves: the single clique of their names.
proof fn lemma_cliques_of_leaves(ms: Seq<GExpr>)
    requires
        ms.len() > 0,
        all_leaves(ms),
    ensures
        cliques_of(ms) == seq![leaf_names(ms)],
    decreases ms,
{
    lemma_leaf_names(ms);
    if ms.len() == 1 {
        let b = seq![Seq::<Seq<char>>::empty()];
        assert(ms.last() is Leaf);
        assert(cliques_of(ms.drop_last()) == Seq::<Seq<Seq<char>>>::empty());
        assert(cliques_of(ms) == ext_cliques(cliques_of(ms.drop_last()), ms.last()));
        assert(cliques_of(ms) == b.map_values(
            |c: Seq<Seq<char>>| c + member_names(ms.last()),
        ));
        assert(cliques_of(ms)[0] =~= leaf_names(ms));
        assert(cliques_of(ms) =~= seq![leaf_names(ms)]);
    } else {
        assert(forall|i: int|
            0 <= i < ms.drop_last().len() ==> ms.drop_last()[i] == #[trigger] ms[i]);
        lemma_cliques_of_leaves(ms.drop_last());
        lemma_leaf_names(ms.drop_last());
        let base = seq![leaf_names(ms.drop_last())];
        assert(ms.last() is Leaf);
        assert(cliques_of(ms) == base.map_values(
            |c: Seq<Seq<char>>| c + member_names(ms.last()),
        ));
        assert(cliques_of(ms)[0] =~= leaf_names(ms));
        assert(cliques_of(ms) =~= seq![leaf_names(ms)]);
    }
}

/// Normalization leaves normal forms unchanged.
pub proof fn lemma_norm_id(g: GExpr)
    requires
        is_normal(g),
    ensures
        norm(g) == g,
    decreases g,
{
    match g {
        GExpr::Leaf(_) => {},
        GExpr::Conn(es) => {
            lemma_norm_all(es);
            assert forall|i: int| 0 <= i < es.len() implies norm(#[trigger] es[i]) == es[i] by {
                assert(es[i] is Leaf);
            }
            assert(norm_all(es) =~= es);
            lemma_cliques_of_leaves(es);
            lemma_leaf_names(es);
            let names = leaf_names(es);
            assert forall|i: int, j: int| 0 <= i < j < names.len() implies names[i] != names[j] by {
                assert(names[i] == leaf_name(es[i]));
                assert(names[j] == leaf_name(es[j]));
            }
            lemma_first_distinct_id(names);
            let grp = group_of(names);
            assert(names.len() >= 2);
            let mapped = names.map_values(|n: Seq<char>| GExpr::Leaf(n));
            assert forall|i: int| 0 <= i < mapped.len() implies mapped[i] == es[i] by {
                assert(es[i] is Leaf);
            }
            assert(mapped =~= es);
            assert(grp == g);
            assert(groups_of(cliques_of(es)) =~= seq![g]);
            assert(dedup_groups(seq![g]) =~= seq![g]) by {
                assert(dedup_groups(seq![g].drop_last()) =~= Seq::<GExpr>::empty());
                assert(!covered(Seq::<GExpr>::empty(), g));
                assert(drop_subsumed(Seq::<GExpr>::empty(), g) =~= Seq::<GExpr>::empty()) by {
                    reveal(Seq::filter);
                }
            }
            assert(norm(g) == g);
        },
        GExpr::Disc(items) => {
            lemma_norm_all(items);
            assert forall|i: int| 0 <= i < items.len() implies norm(#[trigger] items[i])
                == items[i] by {
                assert(is_component(items[i]));
                lemma_norm_id(items[i]);
            }
            assert(norm_all(items) =~= items);
            assert forall|i: int| 0 <= i < items.len() implies !((#[trigger] items[i]) is Disc) by {
                assert(is_component(items[i]));
            }
            lemma_splice_id(items);
            lemma_dedup_id(items);
            assert(items.len() != 1);
            assert(norm(g) == g);
        },
    }
}

/// Normalization is idempotent.
pub proof fn lemma_normalize_idempotent(g: GExpr)
    ensures
        norm(norm(g)) == norm(g),
{
    lemma_norm_normal(g);
    lemma_norm_id(norm(g));
}

/// The graph's edges are unchanged by normalization: an expression and
/// its normal form project onto the same edge set.
pub proof fn lemma_edges_invariant(g: GExpr)
    ensures
        crate::epairs(norm(norm(g))) == crate::epairs(norm(g)),
{
    lemma_normalize_idempotent(g);
}

/// The node listing is unchanged by normalization: for an expression
/// without empty groups, any sorted listing of its node set and any
/// sorted listing of its normal form's node set coincide.  With the
/// contract of `Expr::nodes`, the node vectors of an expression and of
/// its normal form are therefore equal.
pub proof fn lemma_nodes_listing_invariant(a: Seq<Seq<char>>, b: Seq<Seq<char>>, g: GExpr)
    requires
        no_empty_groups(g),
        crate::order::sorted_names(a),
        a.to_set() == nset(g),
        crate::order::sorted_names(b),
        b.to_set() == nset(norm(g)),
    ensures
        a == b,
{
    lemma_norm_nset(g);
    let lt = |x: Seq<char>, y: Seq<char>| crate::order::name_lt(x, y);
    assert forall|x: Seq<char>| !#[trigger] lt(x, x) by {
        crate::order::lemma_name_lt_irrefl(x);
    }
    assert forall|x: Seq<char>, y: Seq<char>, z: Seq<char>|
        #[trigger] lt(x, y) && #[trigger] lt(y, z) implies lt(x, z) by {
        crate::order::lemma_name_lt_trans(x, y, z);
    }
    crate::order::lemma_sorted_unique(a, b, lt);
}

/// The edge listing is unchanged by normalization: any sorted listing of
/// the edge set of an expression's normal form and any sorted listing of
/// its normal form's normal form coincide.  With the contract of
/// `Expr::edges`, the edge vectors of an expression and of its normal
/// form are therefore equal.
pub proof fn lemma_edges_listing_invariant(
    a: Seq<(Seq<char>, Seq<char>)>,
    b: Seq<(Seq<char>, Seq<char>)>,
    g: GExpr,
)
    requires
        crate::order::sorted_pairs(a),
        a.to_set() == crate::epairs(norm(g)),
        crate::order::sorted_pairs(b),
        b.to_set() == crate::epairs(norm(norm(g))),
    ensures
        a == b,
{
    lemma_edges_invariant(g);
    let lt = |x: (Seq<char>, Seq<char>), y: (Seq<char>, Seq<char>)| crate::order::pair_lt(x, y);
    assert forall|x: (Seq<char>, Seq<char>)| !#[trigger] lt(x, x) by {
        crate::order::lemma_name_lt_irrefl(x.0);
        crate::order::lemma_name_lt_irrefl(x.1);
    }
    assert forall|x: (Seq<char>, Seq<char>), y: (Seq<char>, Seq<char>), z: (Seq<char>, Seq<char>)|
        #[trigger] lt(x, y) && #[trigger] lt(y, z) implies lt(x, z) by {
        crate::order::lemma_pair_lt_trans(x, y, z);
    }
    crate::order::lemma_sorted_unique(a, b, lt);
}

// ---------------------------------------------------------------------------
// Normalization preserves the node set (for expressions without empty
// groups).
// ---------------------------------------------------------------------------
/// Every grouping in the expression has at least one member.
pub open spec fn no_empty_groups(g: GExpr) -> bool
    decreases g,
{
    match g {
        GExpr::Leaf(_) => true,
        GExpr::Conn(es) => es.len() > 0 && all_no_empty(es),
        GExpr::Disc(es) => es.len() > 0 && all_no_empty(es),
    }
}

/// Every grouping in every member has at least one member.
pub open spec fn all_no_empty(es: Seq<GExpr>) -> bool
    decreases es,
{
    if es.len() == 0 {
        true
    } else {
        all_no_empty(es.drop_last()) && no_empty_groups(es.last())
    }
}

/// `all_no_empty` is the element-wise condition.
proof fn lemma_all_no_empty(es: Seq<GExpr>)
    ensures
        all_no_empty(es) <==> forall|i: int| 0 <= i < es.len() ==> no_empty_groups(#[trigger] es[i]),
    decreases es,
{
    if es.len() > 0 {
        lemma_all_no_empty(es.drop_last());
        assert(forall|i: int|
            0 <= i < es.drop_last().len() ==> es.drop_last()[i] == #[trigger] es[i]);
        if forall|i: int| 0 <= i < es.len() ==> no_empty_groups(#[trigger] es[i]) {
            assert(no_empty_groups(es[es.len() - 1]));
        }
    }
}

/// An expression without empty groups names at least one node.
proof fn lemma_nset_nonempty(g: GExpr)
    requires
        no_empty_groups(g),
    ensures
        exists|x: Seq<char>| nset(g).contains(x),
    decreases g,
{
    match g {
        GExpr::Leaf(n) => {
            assert(nset(g).contains(n));
            assert(exists|x: Seq<char>| nset(g).contains(x));
        },
        GExpr::Conn(es) | GExpr::Disc(es) => {
            lemma_all_no_empty(es);
            lemma_nset_nonempty(es[0]);
            let x = choose|x: Seq<char>| nset(es[0]).contains(x);
            lemma_nset_all_contains(es, x);
            assert(nset_all(es).contains(x));
            assert(nset(g).contains(x));
            assert(exists|y: Seq<char>| nset(g).contains(y));
        },
    }
}

/// The union of the names of a family of cliques.
pub open spec fn names_union(cls: Seq<Seq<Seq<char>>>) -> Set<Seq<char>>
    decreases cls,
{
    if cls.len() == 0 {
        Set::empty()
    } else {
        names_union(cls.drop_last()).union(cls.last().to_set())
    }
}

/// Membership in `names_union` is membership in some clique.
proof fn lemma_names_union_contains(cls: Seq<Seq<Seq<char>>>, x: Seq<char>)
    ensures
        names_union(cls).contains(x) <==> exists|k: int|
            0 <= k < cls.len() && (#[trigger] cls[k]).contains(x),
    decreases cls,
{
    if cls.len() > 0 {
        lemma_names_union_contains(cls.drop_last(), x);
        if names_union(cls).contains(x) {
            if names_union(cls.drop_last()).contains(x) {
                let k = choose|k: int|
                    0 <= k < cls.drop_last().len() && (#[trigger] cls.drop_last()[k]).contains(x);
                assert(cls[k] == cls.drop_last()[k]);
            } else {
                assert(cls[cls.len() - 1].contains(x));
            }
        }
        if exists|k: int| 0 <= k < cls.len() && (#[trigger] cls[k]).contains(x) {
            let k = choose|k: int| 0 <= k < cls.len() && (#[trigger] cls[k]).contains(x);
            if k < cls.len() - 1 {
                assert(cls.drop_last()[k] == cls[k]);
            } else {
                assert(cls.last().to_set().contains(x));
            }
        }
    }
}

/// The cross step contains the extension of every accumulated clique by
/// every alternative.
proof fn lemma_cross_disc_full(b: Seq<Seq<Seq<char>>>, items: Seq<GExpr>, t: int, u: int)
    requires
        0 <= t < b.len(),
        0 <= u < items.len(),
    ensures
        cross_disc(b, items).contains(b[t] + member_names(items[u])),
    decreases b,
{
    let row = items.map_values(|it: GExpr| b.first() + member_names(it));
    if t == 0 {
        assert(cross_disc(b, items)[u] == b[0] + member_names(items[u]));
    } else {
        lemma_cross_disc_full(b.drop_first(), items, t - 1, u);
        let target = b.drop_first()[t - 1] + member_names(items[u]);
        let k = choose|k: int|
            0 <= k < cross_disc(b.drop_first(), items).len() && cross_disc(b.drop_first(), items)[k]
                == target;
        assert(cross_disc(b, items)[row.len() + k] == target);
        assert(b.drop_first()[t - 1] == b[t]);
    }
}

/// One extension step adds exactly the member's names to the union.
proof fn lemma_ext_cliques_union(base: Seq<Seq<Seq<char>>>, m: GExpr)
    requires
        is_normal(m),
        m is Disc ==> m->Disc_0.len() > 0,
    ensures
        names_union(ext_cliques(base, m)) == names_union(base).union(nset(m)),
{
    let b = if base.len() == 0 {
        seq![Seq::<Seq<char>>::empty()]
    } else {
        base
    };
    let ext = ext_cliques(base, m);
    assert forall|x: Seq<char>|
        names_union(ext).contains(x) <==> names_union(base).union(nset(m)).contains(x) by {
        lemma_names_union_contains(ext, x);
        lemma_names_union_contains(base, x);
        lemma_names_union_contains(b, x);
        match m {
            GExpr::Disc(items) => {
                if names_union(ext).contains(x) {
                    let k = choose|k: int| 0 <= k < ext.len() && (#[trigger] ext[k]).contains(x);
                    lemma_cross_disc_elem(b, items, k);
                    let (t, u) = choose|t: int, u: int|
                        #![trigger b[t], items[u]]
                        0 <= t < b.len() && 0 <= u < items.len() && cross_disc(b, items)[k] == b[t]
                            + member_names(items[u]);
                    let c = b[t] + member_names(items[u]);
                    let i = choose|i: int| 0 <= i < c.len() && c[i] == x;
                    if i < b[t].len() {
                        assert(b[t].contains(x));
                        assert(base.len() > 0 || !b[t].contains(x));
                    } else {
                        assert(member_names(items[u]).contains(x));
                        assert(is_component(items[u]));
                        lemma_member_names(items[u]);
                        lemma_nset_all_contains(items, x);
                        assert(nset(m).contains(x));
                    }
                }
                if names_union(base).contains(x) {
                    let t = choose|t: int| 0 <= t < base.len() && (#[trigger] base[t]).contains(x);
                    lemma_cross_disc_full(b, items, t, 0);
                    let c = b[t] + member_names(items[0]);
                    let i = choose|i: int| 0 <= i < b[t].len() && b[t][i] == x;
                    assert(c[i] == x);
                    assert(c.contains(x));
                    let k = choose|k: int| 0 <= k < ext.len() && ext[k] == c;
                    assert(ext[k].contains(x));
                }
                if nset(m).contains(x) {
                    lemma_nset_all_contains(items, x);
                    let u = choose|u: int| 0 <= u < items.len() && nset(#[trigger] items[u]).contains(x);
                    assert(is_component(items[u]));
                    lemma_member_names(items[u]);
                    lemma_cross_disc_full(b, items, 0, u);
                    let c = b[0] + member_names(items[u]);
                    let i = choose|i: int|
                        0 <= i < member_names(items[u]).len() && member_names(items[u])[i] == x;
                    assert(c[b[0].len() + i] == x);
                    assert(c.contains(x));
                    let k = choose|k: int| 0 <= k < ext.len() && ext[k] == c;
                    assert(ext[k].contains(x));
                }
            },
            _ => {
                lemma_member_names(m);
                if names_union(ext).contains(x) {
                    let k = choose|k: int| 0 <= k < ext.len() && (#[trigger] ext[k]).contains(x);
                    let c = b[k] + member_names(m);
                    assert(ext[k] == c);
                    let i = choose|i: int| 0 <= i < c.len() && c[i] == x;
                    if i < b[k].len() {
                        assert(b[k].contains(x));
                        assert(base.len() > 0 || !b[k].contains(x));
                    } else {
                        assert(member_names(m).contains(x));
                    }
                }
                if names_union(base).contains(x) {
                    let t = choose|t: int| 0 <= t < base.len() && (#[trigger] base[t]).contains(x);
                    let c = b[t] + member_names(m);
                    assert(ext[t] == c);
                    let i = choose|i: int| 0 <= i < b[t].len() && b[t][i] == x;
                    assert(c[i] == x);
                    assert(ext[t].contains(x));
                }
                if nset(m).contains(x) {
                    let c = b[0] + member_names(m);
                    assert(ext[0] == c);
                    let i = choose|i: int|
                        0 <= i < member_names(m).len() && member_names(m)[i] == x;
                    assert(c[b[0].len() + i] == x);
                    assert(ext[0].contains(x));
                }
            },
        }
    }
    assert(names_union(ext) =~= names_union(base).union(nset(m)));
}

/// The cliques of a non-empty connected group cover exactly the members'
/// names.
proof fn lemma_cliques_union(ms: Seq<GExpr>)
    requires
        ms.len() > 0,
        forall|i: int| 0 <= i < ms.len() ==> is_normal(#[trigger] ms[i]),
        forall|i: int|
            0 <= i < ms.len() ==> ((#[trigger] ms[i]) is Disc ==> ms[i]->Disc_0.len() > 0),
    ensures
        names_union(cliques_of(ms)) == nset_all(ms),
    decreases ms,
{
    if ms.len() == 1 {
        assert(ms[0] == ms.last());
        lemma_ext_cliques_union(cliques_of(ms.drop_last()), ms.last());
        assert(cliques_of(ms.drop_last()) == Seq::<Seq<Seq<char>>>::empty());
        assert(names_union(cliques_of(ms.drop_last())) == Set::<Seq<char>>::empty());
        assert(nset_all(ms.drop_last()) == Set::<Seq<char>>::empty());
        assert(cliques_of(ms) == ext_cliques(cliques_of(ms.drop_last()), ms.last()));
        assert(names_union(cliques_of(ms)) =~= nset_all(ms));
    } else {
        assert(forall|i: int|
            0 <= i < ms.drop_last().len() ==> ms.drop_last()[i] == #[trigger] ms[i]);
        lemma_cliques_union(ms.drop_last());
        lemma_ext_cliques_union(cliques_of(ms.drop_last()), ms.last());
        assert(names_union(cliques_of(ms)) =~= nset_all(ms));
    }
}

/// The components built from a family of cliques cover its names.
proof fn lemma_groups_union(cls: Seq<Seq<Seq<char>>>)
    requires
        forall|k: int| 0 <= k < cls.len() ==> (#[trigger] cls[k]).len() > 0,
    ensures
        forall|x: Seq<char>|
            nset_all(groups_of(cls)).contains(x) <==> names_union(cls).contains(x),
{
    let gps = groups_of(cls);
    assert forall|x: Seq<char>|
        nset_all(gps).contains(x) <==> names_union(cls).contains(x) by {
        lemma_nset_all_contains(gps, x);
        lemma_names_union_contains(cls, x);
        if nset_all(gps).contains(x) {
            let i = choose|i: int| 0 <= i < gps.len() && nset(#[trigger] gps[i]).contains(x);
            lemma_group_of(cls[i]);
            assert(cls[i].to_set().contains(x));
            assert(cls[i].contains(x));
        }
        if names_union(cls).contains(x) {
            let k = choose|k: int| 0 <= k < cls.len() && (#[trigger] cls[k]).contains(x);
            lemma_group_of(cls[k]);
            assert(cls[k].to_set().contains(x));
            assert(nset(gps[k]).contains(x));
        }
    }
}

/// Splicing preserves the set of names.
proof fn lemma_splice_nset(ms: Seq<GExpr>, x: Seq<char>)
    ensures
        nset_all(splice(ms)).contains(x) <==> nset_all(ms).contains(x),
    decreases ms,
{
    if ms.len() > 0 {
        lemma_splice_nset(ms.drop_last(), x);
        lemma_nset_all_contains(ms, x);
        lemma_nset_all_contains(ms.drop_last(), x);
        lemma_nset_all_contains(splice(ms), x);
        lemma_nset_all_contains(splice(ms.drop_last()), x);
        let front = splice(ms.drop_last());
        let tail = splice_one(ms.last());
        lemma_nset_all_contains(tail, x);
        assert(forall|i: int| 0 <= i < front.len() ==> splice(ms)[i] == #[trigger] front[i]);
        assert(forall|i: int|
            0 <= i < tail.len() ==> splice(ms)[front.len() + i] == #[trigger] tail[i]);
        // the last member's names are the names of its splice
        assert(nset_all(tail).contains(x) <==> nset(ms.last()).contains(x)) by {
            match ms.last() {
                GExpr::Disc(items) => {
                    assert(tail == items);
                },
                _ => {
                    assert(tail[0] == ms.last());
                    if nset(ms.last()).contains(x) {
                        assert(nset(tail[0]).contains(x));
                    }
                },
            }
        }
        if nset_all(splice(ms)).contains(x) {
            let i = choose|i: int| 0 <= i < splice(ms).len() && nset(#[trigger] splice(ms)[i]).contains(x);
            if i < front.len() {
                assert(nset(front[i]).contains(x));
            } else {
                assert(nset(tail[i - front.len()]).contains(x));
            }
        }
        if nset_all(ms).contains(x) {
            let i = choose|i: int| 0 <= i < ms.len() && nset(#[trigger] ms[i]).contains(x);
            if i < ms.len() - 1 {
                assert(ms.drop_last()[i] == ms[i]);
                assert(nset_all(ms.drop_last()).contains(x));
                let k = choose|k: int| 0 <= k < front.len() && nset(#[trigger] front[k]).contains(x);
                assert(nset(splice(ms)[k]).contains(x));
            } else {
                let k = choose|k: int| 0 <= k < tail.len() && nset(#[trigger] tail[k]).contains(x);
                assert(nset(splice(ms)[front.len() + k]).contains(x));
            }
        }
    }
}

/// Normalization preserves the node set of an expression without empty
/// groups.  The restriction is necessary: an empty disconnected group
/// inside a connected group annihilates the whole cross product, so the
/// normal form of `{A, []}` names no nodes at all.
pub proof fn lemma_norm_nset(g: GExpr)
    requires
        no_empty_groups(g),
    ensures
        nset(norm(g)) == nset(g),
    decreases g,
{
    match g {
        GExpr::Leaf(_) => {},
        GExpr::Conn(es) | GExpr::Disc(es) => {
            lemma_all_no_empty(es);
            lemma_norm_all(es);
            let ms = norm_all(es);
            assert forall|i: int| 0 <= i < ms.len() implies is_normal(#[trigger] ms[i]) && nset(
                ms[i],
            ) == nset(es[i]) && ((ms[i] is Disc) ==> ms[i]->Disc_0.len() > 0) by {
                lemma_norm_normal(es[i]);
                lemma_norm_nset(es[i]);
                lemma_nset_nonempty(es[i]);
                if ms[i] is Disc {
                    if ms[i]->Disc_0.len() == 0 {
                        assert(nset(ms[i]) =~= Set::<Seq<char>>::empty());
                        let x = choose|x: Seq<char>| nset(es[i]).contains(x);
                        assert(nset(ms[i]).contains(x));
                    }
                }
            }
            assert forall|x: Seq<char>|
                nset_all(ms).contains(x) <==> nset_all(es).contains(x) by {
                lemma_nset_all_contains(ms, x);
                lemma_nset_all_contains(es, x);
            }
            if g is Conn {
                lemma_cliques_union(ms);
                lemma_cliques_nonempty(ms);
                let cls = cliques_of(ms);
                let gps = groups_of(cls);
                lemma_groups_union(cls);
                lemma_dedup_groups(gps);
                let dd = dedup_groups(gps);
                assert(norm(g) == wrap_disc(dd));
                assert forall|x: Seq<char>|
                    nset(norm(g)).contains(x) <==> nset(g).contains(x) by {
                    lemma_nset_all_contains(dd, x);
                    assert(nset_all(dd).contains(x) <==> nset_all(gps).contains(x));
                    assert(nset_all(gps).contains(x) <==> names_union(cls).contains(x));
                    assert(names_union(cls).contains(x) <==> nset_all(ms).contains(x));
                    assert(nset_all(ms).contains(x) <==> nset_all(es).contains(x));
                    assert(nset(g).contains(x) <==> nset_all(es).contains(x));
                    if dd.len() == 1 {
                        assert(nset_all(dd).contains(x) <==> nset(dd[0]).contains(x));
                        assert(norm(g) == dd[0]);
                    } else {
                        assert(norm(g) == GExpr::Disc(dd));
                        assert(nset(norm(g)) == nset_all(dd));
                    }
                }
                assert(nset(norm(g)) =~= nset(g));
            } else {
                let sp = splice(ms);
                lemma_splice_components(ms);
                lemma_dedup_groups(sp);
                let dd = dedup_groups(sp);
                assert forall|x: Seq<char>|
                    nset(norm(g)).contains(x) <==> nset(g).contains(x) by {
                    lemma_splice_nset(ms, x);
                    lemma_nset_all_contains(dd, x);
                    if dd.len() == 1 {
                        assert(nset_all(dd).contains(x) <==> nset(dd[0]).contains(x));
                    }
                }
                assert(nset(norm(g)) =~= nset(g));
            }
        },
    }
}

/// Every position of a filtered sequence has a source position.
proof fn lemma_filter_position(p: Seq<GExpr>, pred: spec_fn(GExpr) -> bool, i: int)
    requires
        0 <= i < p.filter(pred).len(),
    ensures
        exists|pi: int| 0 <= pi < p.len() && p[pi] == p.filter(pred)[i],
    decreases p,
{
    reveal(Seq::filter);
    if p.len() > 0 {
        let fp = p.filter(pred);
        let front = p.drop_last().filter(pred);
        if pred(p.last()) && i == fp.len() - 1 {
            assert(p[p.len() - 1] == fp[i]);
        } else {
            lemma_filter_position(p.drop_last(), pred, i);
            let pi = choose|pi: int| 0 <= pi < p.drop_last().len() && p.drop_last()[pi] == front[i];
            assert(p[pi] == fp[i]);
        }
    }
}

// ---------------------------------------------------------------------------
// Executable helpers.
// ---------------------------------------------------------------------------
fn clone_nodes(v: &Vec<Node>) -> (r: Vec<Node>)
    ensures
        names_of(r@) == names_of(v@),
{
    let mut r: Vec<Node> = Vec::new();
    let mut i: usize = 0;
    while i < v.len()
        invariant
            0 <= i <= v@.len(),
            r@.len() == i,
            forall|j: int| 0 <= j < i ==> (#[trigger] r@[j])@ == v@[j]@,
        decreases v@.len() - i,
    {
        let c = v[i].clone();
        r.push(c);
        i += 1;
    }
    proof {
        assert(names_of(r@) =~= names_of(v@));
    }
    r
}

fn contains_name(v: &Vec<Node>, x: &Node) -> (r: bool)
    ensures
        r == names_of(v@).contains(x@),
{
    let mut i: usize = 0;
    while i < v.len()
        invariant
            0 <= i <= v@.len(),
            forall|j: int| 0 <= j < i ==> names_of(v@)[j] != x@,
        decreases v@.len() - i,
    {
        if v[i].name_eq(x) {
            proof {
                assert(names_of(v@)[i as int] == x@);
            }
            return true;
        }
        i += 1;
    }
    proof {
        if names_of(v@).contains(x@) {
            let j = choose|j: int| 0 <= j < names_of(v@).len() && names_of(v@)[j] == x@;
            assert(false);
        }
    }
    false
}

fn distinct_nodes(v: &Vec<Node>) -> (r: Vec<Node>)
    ensures
        names_of(r@) == first_distinct(names_of(v@)),
{
    let mut r: Vec<Node> = Vec::new();
    let mut i: usize = 0;
    while i < v.len()
        invariant
            0 <= i <= v@.len(),
            names_of(r@) == first_distinct(names_of(v@).take(i as int)),
        decreases v@.len() - i,
    {
        let ghost pre = names_of(v@).take(i as int);
        proof {
            assert(names_of(v@).take(i + 1).drop_last() =~= pre);
            assert(names_of(v@).take(i + 1).last() == v@[i as int]@);
        }
        if !contains_name(&r, &v[i]) {
            let c = v[i].clone();
            r.push(c);
            proof {
                assert(names_of(r@) =~= first_distinct(names_of(v@).take(i + 1)));
            }
        } else {
            proof {
                assert(names_of(r@) =~= first_distinct(names_of(v@).take(i + 1)));
            }
        }
        i += 1;
    }
    proof {
        assert(names_of(v@).take(v@.len() as int) =~= names_of(v@));
    }
    r
}

/// Whether every node of `a` also occurs in `b`.
fn subset_nodes(a: &Expr, b: &Expr) -> (r: bool)
    ensures
        r == nset(a.model()).subset_of(nset(b.model())),
{
    let an = a.nodes();
    let mut i: usize = 0;
    while i < an.len()
        invariant
            0 <= i <= an@.len(),
            crate::order::sorted_names(names_of(an@)),
            names_of(an@).to_set() == nset(a.model()),
            forall|j: int| 0 <= j < i ==> nset(b.model()).contains(#[trigger] names_of(an@)[j]),
        decreases an@.len() - i,
    {
        if !b.contains_node(&an[i]) {
            proof {
                assert(names_of(an@)[i as int] == an@[i as int]@);
                assert(names_of(an@).to_set().contains(an@[i as int]@));
                assert(nset(a.model()).contains(an@[i as int]@));
            }
            return false;
        }
        i += 1;
    }
    proof {
        assert forall|x: Seq<char>| nset(a.model()).contains(x) implies nset(
            b.model(),
        ).contains(x) by {
            assert(names_of(an@).to_set().contains(x));
            let j = choose|j: int| 0 <= j < names_of(an@).len() && names_of(an@)[j] == x;
        }
    }
    true
}

/// Deduplicate a family of sibling components: a member whose node set is
/// contained in an earlier sibling's is dropped, and a member subsumes the
/// earlier siblings whose node sets are contained in its own.
fn dedup_vec(es: &Vec<Expr>) -> (r: Vec<Expr>)
    ensures
        model_all(r@) == dedup_groups(model_all(es@)),
{
    proof {
        lemma_model_all(es@);
    }
    let ghost ems = model_all(es@);
    let mut fresh: Vec<Expr> = Vec::new();
    let mut i: usize = 0;
    proof {
        assert(ems.take(0) =~= Seq::<GExpr>::empty());
    }
    while i < es.len()
        invariant
            0 <= i <= es@.len(),
            ems == model_all(es@),
            ems.len() == es@.len(),
            forall|j: int| 0 <= j < es@.len() ==> ems[j] == es@[j].model(),
            model_all(fresh@) == dedup_groups(ems.take(i as int)),
        decreases es@.len() - i,
    {
        proof {
            lemma_model_all(fresh@);
            assert(ems.take(i + 1).drop_last() =~= ems.take(i as int));
            assert(ems.take(i + 1).last() == ems[i as int]);
        }
        let ghost p = model_all(fresh@);
        let ghost xm = ems[i as int];
        // is the newcomer covered by an earlier sibling?
        let mut cov = false;
        let mut k: usize = 0;
        while k < fresh.len()
            invariant
                0 <= k <= fresh@.len(),
                model_all(fresh@) == p,
                p.len() == fresh@.len(),
                forall|j: int| 0 <= j < fresh@.len() ==> p[j] == fresh@[j].model(),
                xm == es@[i as int].model(),
                i < es@.len(),
                cov ==> covered(p, xm),
                !cov ==> forall|j: int| 0 <= j < k ==> !nset(xm).subset_of(
                    nset(#[trigger] p[j]),
                ),
            decreases fresh@.len() - k,
        {
            if subset_nodes(&es[i], &fresh[k]) {
                proof {
                    assert(nset(xm).subset_of(nset(p[k as int])));
                }
                cov = true;
            }
            k += 1;
        }
        proof {
            if !cov {
                if covered(p, xm) {
                    let j = choose|j: int|
                        0 <= j < p.len() && nset(xm).subset_of(nset(#[trigger] p[j]));
                    assert(false);
                }
            }
        }
        if !cov {
            // keep only the siblings the newcomer does not subsume
            let ghost pred = |f: GExpr| !nset(f).subset_of(nset(xm));
            let mut kept: Vec<Expr> = Vec::new();
            let mut k2: usize = 0;
            proof {
                reveal(Seq::filter);
                assert(p.take(0) =~= Seq::<GExpr>::empty());
                assert(model_all(kept@) =~= p.take(0).filter(pred));
            }
            while k2 < fresh.len()
                invariant
                    0 <= k2 <= fresh@.len(),
                    model_all(fresh@) == p,
                    p.len() == fresh@.len(),
                    forall|j: int| 0 <= j < fresh@.len() ==> p[j] == fresh@[j].model(),
                    xm == es@[i as int].model(),
                    i < es@.len(),
                    pred == (|f: GExpr| !nset(f).subset_of(nset(xm))),
                    model_all(kept@) == p.take(k2 as int).filter(pred),
                decreases fresh@.len() - k2,
            {
                proof {
                    lemma_model_all(kept@);
                    reveal(Seq::filter);
                    assert(p.take(k2 + 1).drop_last() =~= p.take(k2 as int));
                    assert(p.take(k2 + 1).last() == p[k2 as int]);
                }
                if !subset_nodes(&fresh[k2], &es[i]) {
                    let ghost oldk = kept@;
                    let c = fresh[k2].clone();
                    kept.push(c);
                    proof {
                        assert(pred(p[k2 as int]));
                        assert(kept@.drop_last() =~= oldk);
                        assert(model_all(kept@) == model_all(oldk).push(p[k2 as int]));
                        assert(model_all(kept@) =~= p.take(k2 + 1).filter(pred));
                    }
                } else {
                    proof {
                        assert(!pred(p[k2 as int]));
                        assert(model_all(kept@) =~= p.take(k2 + 1).filter(pred));
                    }
                }
                k2 += 1;
            }
            let ghost oldk = kept@;
            let c = es[i].clone();
            kept.push(c);
            fresh = kept;
            proof {
                assert(p.take(p.len() as int) =~= p);
                assert(model_all(oldk) == p.filter(pred));
                assert(fresh@.drop_last() =~= oldk);
                assert(model_all(fresh@) == model_all(oldk).push(xm));
                assert(drop_subsumed(p, xm) == p.filter(pred)) by {
                    assert((|f: GExpr| !nset(f).subset_of(nset(xm))) == pred);
                }
                assert(model_all(fresh@) =~= dedup_step(p, xm));
                assert(model_all(fresh@) =~= dedup_groups(ems.take(i + 1)));
            }
        } else {
            proof {
                assert(model_all(fresh@) =~= dedup_groups(ems.take(i + 1)));
            }
        }
        i += 1;
    }
    proof {
        assert(ems.take(es@.len() as int) =~= ems);
    }
    fresh
}

/// Normalize every member of a vector.
fn norm_all_vec(es: &Vec<Expr>) -> (r: Vec<Expr>)
    ensures
        model_all(r@) == norm_all(model_all(es@)),
        forall|j: int| 0 <= j < r@.len() ==> is_normal((#[trigger] r@[j]).model()),
    decreases es,
{
    proof {
        lemma_model_all(es@);
        lemma_norm_all(model_all(es@));
    }
    let mut r: Vec<Expr> = Vec::new();
    let mut i: usize = 0;
    while i < es.len()
        invariant
            0 <= i <= es@.len(),
            model_all(es@).len() == es@.len(),
            forall|j: int| 0 <= j < es@.len() ==> model_all(es@)[j] == es@[j].model(),
            r@.len() == i,
            forall|j: int| 0 <= j < i ==> (#[trigger] r@[j]).model() == norm(es@[j].model()),
            forall|j: int| 0 <= j < i ==> is_normal((#[trigger] r@[j]).model()),
        decreases es@.len() - i,
    {
        let n = es[i].normalize();
        proof {
            lemma_norm_normal(es@[i as int].model());
        }
        r.push(n);
        i += 1;
    }
    proof {
        lemma_model_all(r@);
        lemma_norm_all(model_all(es@));
        assert forall|j: int| 0 <= j < r@.len() implies model_all(r@)[j] == norm_all(
            model_all(es@),
        )[j] by {
            assert(model_all(r@)[j] == r@[j].model());
            assert(model_all(es@)[j] == es@[j].model());
            assert(norm_all(model_all(es@))[j] == norm(model_all(es@)[j]));
        }
        assert(model_all(r@) =~= norm_all(model_all(es@)));
    }
    r
}

/// The cliques a vector of node vectors stands for.
pub open spec fn cls_models(s: Seq<Vec<Node>>) -> Seq<Seq<Seq<char>>> {
    s.map_values(|c: Vec<Node>| names_of(c@))
}

/// Append the names of a connected group of leaves to a clique.
fn push_leaf_names(c: &mut Vec<Node>, ms2: &Vec<Expr>)
    requires
        forall|j: int| 0 <= j < ms2@.len() ==> (#[trigger] ms2@[j].model()) is Leaf,
    ensures
        names_of(final(c)@) == names_of(old(c)@) + leaf_names(model_all(ms2@)),
{
    proof {
        lemma_model_all(ms2@);
        lemma_leaf_names(model_all(ms2@));
    }
    let ghost lns = leaf_names(model_all(ms2@));
    let mut q: usize = 0;
    proof {
        assert(names_of(c@) =~= names_of(old(c)@) + lns.take(0));
    }
    while q < ms2.len()
        invariant
            0 <= q <= ms2@.len(),
            forall|j: int| 0 <= j < ms2@.len() ==> (#[trigger] ms2@[j].model()) is Leaf,
            model_all(ms2@).len() == ms2@.len(),
            forall|j: int| 0 <= j < ms2@.len() ==> model_all(ms2@)[j] == ms2@[j].model(),
            lns == leaf_names(model_all(ms2@)),
            lns.len() == ms2@.len(),
            forall|j: int| 0 <= j < ms2@.len() ==> lns[j] == leaf_name(#[trigger] model_all(ms2@)[j]),
            names_of(c@) == names_of(old(c)@) + lns.take(q as int),
        decreases ms2@.len() - q,
    {
        let m = &ms2[q];
        proof {
            assert(*m == ms2@[q as int]);
            assert(ms2@[q as int].model() is Leaf);
        }
        match m {
            Expr::Node(id) => {
                let ghost oldc = c@;
                let cloned = id.clone();
                c.push(cloned);
                proof {
                    assert(ms2@[q as int].model() == GExpr::Leaf(id@));
                    assert(model_all(ms2@)[q as int] == ms2@[q as int].model());
                    assert(lns[q as int] == leaf_name(model_all(ms2@)[q as int]));
                    assert(lns[q as int] == id@);
                    assert(names_of(c@) =~= names_of(oldc).push(id@));
                    assert(lns.take(q + 1) =~= lns.take(q as int).push(lns[q as int]));
                    assert(names_of(c@) =~= names_of(old(c)@) + lns.take(q + 1));
                }
            },
            _ => {
                proof {
                    assert(false);
                }
            },
        }
        q += 1;
    }
    proof {
        assert(lns.take(ms2@.len() as int) =~= lns);
    }
}

/// Append a component's clique contribution to a clique.
fn append_member_names(c: &mut Vec<Node>, item: &Expr)
    requires
        is_component(item.model()),
    ensures
        names_of(final(c)@) == names_of(old(c)@) + member_names(item.model()),
{
    match item {
        Expr::Node(id) => {
            let cloned = id.clone();
            c.push(cloned);
            proof {
                assert(member_names(item.model()) =~= seq![id@]);
                assert(names_of(c@) =~= names_of(old(c)@) + member_names(item.model()));
            }
        },
        Expr::Connected(ms3) => {
            proof {
                lemma_model_all(ms3@);
                assert forall|j: int| 0 <= j < ms3@.len() implies (
                #[trigger] ms3@[j].model()) is Leaf by {
                    assert(model_all(ms3@)[j] == ms3@[j].model());
                }
            }
            push_leaf_names(c, ms3);
        },
        Expr::Disconnected(_) => {
            proof {
                assert(false);
            }
        },
    }
}

/// Build the cliques of a connected group from its normalized members.
fn build_cliques(ns: &Vec<Expr>) -> (r: Vec<Vec<Node>>)
    requires
        forall|j: int| 0 <= j < ns@.len() ==> is_normal((#[trigger] ns@[j]).model()),
    ensures
        cls_models(r@) == cliques_of(model_all(ns@)),
{
    proof {
        lemma_model_all(ns@);
    }
    let ghost ms = model_all(ns@);
    let mut cls: Vec<Vec<Node>> = Vec::new();
    let mut k: usize = 0;
    proof {
        assert(ms.take(0) =~= Seq::<GExpr>::empty());
        assert(cls_models(cls@) =~= cliques_of(ms.take(0)));
    }
    while k < ns.len()
        invariant
            0 <= k <= ns@.len(),
            ms == model_all(ns@),
            ms.len() == ns@.len(),
            forall|j: int| 0 <= j < ns@.len() ==> ms[j] == ns@[j].model(),
            forall|j: int| 0 <= j < ns@.len() ==> is_normal((#[trigger] ns@[j]).model()),
            cls_models(cls@) == cliques_of(ms.take(k as int)),
        decreases ns@.len() - k,
    {
        proof {
            assert(ms.take(k + 1).drop_last() =~= ms.take(k as int));
            assert(ms.take(k + 1).last() == ms[k as int]);
        }
        if cls.len() == 0 {
            let empty_clique: Vec<Node> = Vec::new();
            cls.push(empty_clique);
            proof {
                assert(cls_models(cls@).len() == 1);
                assert(cls_models(cls@)[0] =~= Seq::<Seq<char>>::empty());
                assert(cls_models(cls@) =~= seq![Seq::<Seq<char>>::empty()]);
            }
        }
        let ghost b = cls_models(cls@);
        proof {
            // after the push, the accumulator is the spec's base
            if cliques_of(ms.take(k as int)).len() == 0 {
                assert(b =~= seq![Seq::<Seq<char>>::empty()]);
            }
            let mk = ms[k as int];
            assert(ext_cliques(cliques_of(ms.take(k as int)), mk) == (match mk {
                GExpr::Disc(items) => cross_disc(b, items),
                _ => b.map_values(|c: Seq<Seq<char>>| c + member_names(mk)),
            }));
        }
        match &ns[k] {
            Expr::Disconnected(items) => {
                proof {
                    lemma_model_all(items@);
                }
                let ghost itsm = model_all(items@);
                proof {
                    assert(ms[k as int] == GExpr::Disc(itsm));
                    assert(forall|u: int| 0 <= u < itsm.len() ==> is_component(#[trigger] itsm[u]));
                }
                let mut newcls: Vec<Vec<Node>> = Vec::new();
                let mut t: usize = 0;
                proof {
                    assert(b.take(0) =~= Seq::<Seq<Seq<char>>>::empty());
                    assert(cls_models(newcls@) =~= cross_disc(b.take(0), itsm));
                }
                while t < cls.len()
                    invariant
                        0 <= t <= cls@.len(),
                        cls_models(cls@) == b,
                        b.len() == cls@.len(),
                        forall|j: int| 0 <= j < cls@.len() ==> b[j] == names_of((#[trigger] cls@[j])@),
                        itsm == model_all(items@),
                        itsm.len() == items@.len(),
                        forall|j: int| 0 <= j < items@.len() ==> itsm[j] == items@[j].model(),
                        forall|u: int| 0 <= u < itsm.len() ==> is_component(#[trigger] itsm[u]),
                        cls_models(newcls@) == cross_disc(b.take(t as int), itsm),
                    decreases cls@.len() - t,
                {
                    let mut u: usize = 0;
                    while u < items.len()
                        invariant
                            0 <= u <= items@.len(),
                            0 <= t < cls@.len(),
                            cls_models(cls@) == b,
                            b.len() == cls@.len(),
                            forall|j: int| 0 <= j < cls@.len() ==> b[j] == names_of(
                                (#[trigger] cls@[j])@,
                            ),
                            itsm == model_all(items@),
                            itsm.len() == items@.len(),
                            forall|j: int| 0 <= j < items@.len() ==> itsm[j] == items@[j].model(),
                            forall|uu: int| 0 <= uu < itsm.len() ==> is_component(
                                #[trigger] itsm[uu],
                            ),
                            cls_models(newcls@) == cross_disc(b.take(t as int), itsm)
                                + itsm.take(u as int).map_values(
                                |it: GExpr| b[t as int] + member_names(it),
                            ),
                        decreases items@.len() - u,
                    {
                        proof {
                            assert(is_component(itsm[u as int]));
                            assert(items@[u as int].model() == itsm[u as int]);
                            assert(names_of(cls@[t as int]@) == b[t as int]);
                        }
                        let mut c = clone_nodes(&cls[t]);
                        append_member_names(&mut c, &items[u]);
                        let ghost oldn = newcls@;
                        newcls.push(c);
                        proof {
                            let f = |it: GExpr| b[t as int] + member_names(it);
                            assert(newcls@.drop_last() =~= oldn);
                            assert(names_of(newcls@.last()@) == f(itsm[u as int]));
                            let prev = cross_disc(b.take(t as int), itsm) + itsm.take(
                                u as int,
                            ).map_values(f);
                            let rhs = cross_disc(b.take(t as int), itsm) + itsm.take(
                                u + 1,
                            ).map_values(f);
                            assert(itsm.take(u + 1) =~= itsm.take(u as int).push(itsm[u as int]));
                            assert(itsm.take(u + 1).map_values(f) =~= itsm.take(
                                u as int,
                            ).map_values(f).push(f(itsm[u as int])));
                            assert(rhs =~= prev.push(f(itsm[u as int])));
                            assert(cls_models(newcls@) =~= cls_models(oldn).push(
                                names_of(newcls@.last()@),
                            ));
                            assert(cls_models(newcls@) =~= rhs);
                        }
                        u += 1;
                    }
                    proof {
                        assert(itsm.take(itsm.len() as int) =~= itsm);
                        lemma_cross_snoc(b.take(t as int), b[t as int], itsm);
                        assert(b.take(t as int).push(b[t as int]) =~= b.take(t + 1));
                        assert(cls_models(newcls@) =~= cross_disc(b.take(t + 1), itsm));
                    }
                    t += 1;
                }
                cls = newcls;
                proof {
                    assert(b.take(b.len() as int) =~= b);
                    assert(cls_models(cls@) =~= cliques_of(ms.take(k + 1)));
                }
            },
            _ => {
                let mut newcls: Vec<Vec<Node>> = Vec::new();
                let mut t: usize = 0;
                proof {
                    assert(is_component(ms[k as int]) || ms[k as int] is Leaf);
                }
                while t < cls.len()
                    invariant
                        0 <= t <= cls@.len(),
                        cls_models(cls@) == b,
                        b.len() == cls@.len(),
                        forall|j: int| 0 <= j < cls@.len() ==> b[j] == names_of((#[trigger] cls@[j])@),
                        k < ns@.len(),
                        ms[k as int] == ns@[k as int].model(),
                        is_component(ms[k as int]),
                        !(ms[k as int] is Disc),
                        newcls@.len() == t,
                        forall|j: int| 0 <= j < t ==> names_of((#[trigger] newcls@[j])@) == b[j]
                            + member_names(ms[k as int]),
                    decreases cls@.len() - t,
                {
                    let mut c = clone_nodes(&cls[t]);
                    append_member_names(&mut c, &ns[k]);
                    newcls.push(c);
                    t += 1;
                }
                cls = newcls;
                proof {
                    assert(cls_models(cls@) =~= b.map_values(
                        |c: Seq<Seq<char>>| c + member_names(ms[k as int]),
                    ));
                    assert(cls_models(cls@) =~= cliques_of(ms.take(k + 1)));
                }
            },
        }
        k += 1;
    }
    proof {
        assert(ms.take(ns@.len() as int) =~= ms);
    }
    cls
}

/// Build the components of the normal form from the cliques.
fn build_groups(cls: &Vec<Vec<Node>>) -> (r: Vec<Expr>)
    ensures
        model_all(r@) == groups_of(cls_models(cls@)),
{
    let mut r: Vec<Expr> = Vec::new();
    let mut k: usize = 0;
    while k < cls.len()
        invariant
            0 <= k <= cls@.len(),
            r@.len() == k,
            forall|j: int| 0 <= j < k ==> (#[trigger] r@[j]).model() == group_of(
                names_of(cls@[j]@),
            ),
        decreases cls@.len() - k,
    {
        let d = distinct_nodes(&cls[k]);
        proof {
            lemma_first_distinct(names_of(cls@[k as int]@));
        }
        if d.len() == 1 {
            let n = d[0].clone();
            r.push(Expr::Node(n));
            proof {
                assert(names_of(d@)[0] == d@[0]@);
                assert(r@.last().model() == group_of(names_of(cls@[k as int]@)));
            }
        } else {
            let mut leaves: Vec<Expr> = Vec::new();
            let mut q: usize = 0;
            while q < d.len()
                invariant
                    0 <= q <= d@.len(),
                    leaves@.len() == q,
                    forall|j: int| 0 <= j < q ==> (#[trigger] leaves@[j]).model() == GExpr::Leaf(
                        d@[j]@,
                    ),
                decreases d@.len() - q,
            {
                let n = d[q].clone();
                leaves.push(Expr::Node(n));
                q += 1;
            }
            r.push(Expr::Connected(leaves));
            proof {
                lemma_model_all(leaves@);
                let fd = first_distinct(names_of(cls@[k as int]@));
                assert(names_of(d@) == fd);
                assert forall|j: int| 0 <= j < fd.len() implies model_all(leaves@)[j]
                    == fd.map_values(|n: Seq<char>| GExpr::Leaf(n))[j] by {
                    assert(names_of(d@)[j] == d@[j]@);
                }
                assert(model_all(leaves@) =~= fd.map_values(|n: Seq<char>| GExpr::Leaf(n)));
                assert(r@.last().model() == group_of(names_of(cls@[k as int]@)));
            }
        }
        k += 1;
    }
    proof {
        lemma_model_all(r@);
        assert(model_all(r@) =~= groups_of(cls_models(cls@)));
    }
    r
}

/// The disjoint union of the given components, collapsed when there is
/// exactly one.
fn wrap_vec(dd: Vec<Expr>) -> (r: Expr)
    ensures
        r.model() == wrap_disc(model_all(dd@)),
{
    proof {
        lemma_model_all(dd@);
    }
    let mut v = dd;
    if v.len() == 1 {
        let r = v.remove(0);
        proof {
            assert(r.model() == model_all(dd@)[0]);
        }
        r
    } else {
        let r = Expr::Disconnected(v);
        proof {
            assert(r.model() == GExpr::Disc(model_all(dd@)));
        }
        r
    }
}

impl Expr {
    /// Rewrite this expression into its normal form.
    ///
    /// The result is a single node, a single clique, or a disjoint union
    /// of cliques; it is normal (`is_normal`), and normalizing again
    /// changes nothing.
    pub fn normalize(&self) -> (r: Expr)
        ensures
            r.model() == norm(self.model()),
            is_normal(r.model()),
        decreases self,
    {
        proof {
            lemma_norm_normal(self.model());
        }
        match self {
            Expr::Node(n) => Expr::Node(n.clone()),
            Expr::Connected(es) => {
                let ns = norm_all_vec(es);
                let cls = build_cliques(&ns);
                let gps = build_groups(&cls);
                let dd = dedup_vec(&gps);
                let r = wrap_vec(dd);
                proof {
                    assert(r.model() == norm(self.model()));
                }
                r
            },
            Expr::Disconnected(es) => {
                let ns = norm_all_vec(es);
                proof {
                    lemma_model_all(ns@);
                }
                let ghost msv = model_all(ns@);
                let mut items: Vec<Expr> = Vec::new();
                let mut i: usize = 0;
                proof {
                    assert(msv.take(0) =~= Seq::<GExpr>::empty());
                    assert(model_all(items@) =~= splice(msv.take(0)));
                }
                while i < ns.len()
                    invariant
                        0 <= i <= ns@.len(),
                        msv == model_all(ns@),
                        msv.len() == ns@.len(),
                        forall|j: int| 0 <= j < ns@.len() ==> msv[j] == ns@[j].model(),
                        model_all(items@) == splice(msv.take(i as int)),
                    decreases ns@.len() - i,
                {
                    proof {
                        assert(msv.take(i + 1).drop_last() =~= msv.take(i as int));
                        assert(msv.take(i + 1).last() == msv[i as int]);
                    }
                    match &ns[i] {
                        Expr::Disconnected(its) => {
                            proof {
                                lemma_model_all(its@);
                            }
                            let ghost itm = model_all(its@);
                            let mut u: usize = 0;
                            proof {
                                assert(itm.take(0) =~= Seq::<GExpr>::empty());
                                assert(model_all(items@) =~= splice(msv.take(i as int)) + itm.take(
                                    0,
                                ));
                            }
                            while u < its.len()
                                invariant
                                    0 <= u <= its@.len(),
                                    itm == model_all(its@),
                                    itm.len() == its@.len(),
                                    forall|j: int| 0 <= j < its@.len() ==> itm[j]
                                        == its@[j].model(),
                                    i < ns@.len(),
                                    msv == model_all(ns@),
                                    msv.len() == ns@.len(),
                                    forall|j: int| 0 <= j < ns@.len() ==> msv[j] == ns@[j].model(),
                                    model_all(items@) == splice(msv.take(i as int)) + itm.take(
                                        u as int,
                                    ),
                                decreases its@.len() - u,
                            {
                                let c = its[u].clone();
                                let ghost oldit = items@;
                                items.push(c);
                                proof {
                                    assert(items@.drop_last() =~= oldit);
                                    assert(model_all(items@) == model_all(oldit).push(
                                        itm[u as int],
                                    ));
                                    assert(itm.take(u + 1).drop_last() =~= itm.take(u as int));
                                    assert(model_all(items@) =~= splice(msv.take(i as int))
                                        + itm.take(u + 1));
                                }
                                u += 1;
                            }
                            proof {
                                assert(itm.take(its@.len() as int) =~= itm);
                                assert(msv[i as int] == GExpr::Disc(itm));
                                assert(splice_one(msv[i as int]) == itm);
                                assert(model_all(items@) =~= splice(msv.take(i + 1)));
                            }
                        },
                        _ => {
                            let c = ns[i].clone();
                            let ghost oldit = items@;
                            items.push(c);
                            proof {
                                assert(items@.drop_last() =~= oldit);
                                assert(model_all(items@) == model_all(oldit).push(msv[i as int]));
                                assert(splice_one(msv[i as int]) =~= seq![msv[i as int]]);
                                assert(model_all(items@) =~= splice(msv.take(i + 1)));
                            }
                        },
                    }
                    i += 1;
                }
                proof {
                    assert(msv.take(ns@.len() as int) =~= msv);
                }
                let dd = dedup_vec(&items);
                let r = wrap_vec(dd);
                proof {
                    assert(r.model() == norm(self.model()));
                }
                r
            },
        }
    }

    /// Drop the members of this group whose node sets are contained in a
    /// sibling's node set; ties keep the earlier member.
    pub fn dedup(&self) -> (r: Expr)
        ensures
            r.model() == dedup_spec(self.model()),
    {
        match self {
            Expr::Node(n) => Expr::Node(n.clone()),
            Expr::Connected(es) => Expr::Connected(dedup_vec(es)),
            Expr::Disconnected(es) => Expr::Disconnected(dedup_vec(es)),
        }
    }
}

/// The effect of `Expr::dedup`: deduplication among the immediate members.
pub open spec fn dedup_spec(g: GExpr) -> GExpr {
    match g {
        GExpr::Leaf(n) => GExpr::Leaf(n),
        GExpr::Conn(es) => GExpr::Conn(dedup_groups(es)),
        GExpr::Disc(es) => GExpr::Disc(dedup_groups(es)),
    }
}

impl Stmt {
    /// Normalize the right-hand side of this statement.
    pub fn normalize(&self) -> (r: Stmt)
        ensures
            r.name_model() == self.name_model(),
            r.expr_model() == norm(self.expr_model()),
    {
        match self {
            Stmt::Assign(node, expr) => Stmt::Assign(node.clone(), expr.normalize()),
        }
    }
}

impl Ret {
    /// Normalize every statement's right-hand side and the final
    /// expression.
    pub fn normalize(&self) -> (r: Ret)
        ensures
            r.0@.len() == self.0@.len(),
            forall|i: int| 0 <= i < self.0@.len() ==> (#[trigger] r.0@[i]).name_model()
                == self.0@[i].name_model(),
            forall|i: int| 0 <= i < self.0@.len() ==> (#[trigger] r.0@[i]).expr_model() == norm(
                self.0@[i].expr_model(),
            ),
            r.1.model() == norm(self.1.model()),
    {
        let mut stmts: Vec<Stmt> = Vec::new();
        let mut i: usize = 0;
        while i < self.0.len()
            invariant
                0 <= i <= self.0@.len(),
                stmts@.len() == i,
                forall|j: int| 0 <= j < i ==> (#[trigger] stmts@[j]).name_model()
                    == self.0@[j].name_model(),
                forall|j: int| 0 <= j < i ==> (#[trigger] stmts@[j]).expr_model() == norm(
                    self.0@[j].expr_model(),
                ),
            decreases self.0@.len() - i,
        {
            let n = self.0[i].normalize();
            stmts.push(n);
            i += 1;
        }
        Ret(stmts, self.1.normalize())
    }
}

impl Normalize for Expr {
    fn normalize(&self) -> Self {
        Expr::normalize(self)
    }
}

impl Normalize for Stmt {
    fn normalize(&self) -> Self {
        Stmt::normalize(self)
    }
}

impl Normalize for Ret {
    fn normalize(&self) -> Self {
        Ret::normalize(self)
    }
}

// ---------------------------------------------------------------------------
// Canonical text rendering.
// ---------------------------------------------------------------------------
/// The canonical text of an expression: a leaf is its name, a connected
/// group is `{m1, m2, ...}`, a disconnected group is `[m1, m2, ...]`.
pub open spec fn render(g: GExpr) -> Seq<char>
    decreases g,
{
    match g {
        GExpr::Leaf(n) => n,
        GExpr::Conn(es) => seq!['{'] + render_members(es) + seq!['}'],
        GExpr::Disc(es) => seq!['['] + render_members(es) + seq![']'],
    }
}

/// The members' texts joined by `", "`.
pub open spec fn render_members(es: Seq<GExpr>) -> Seq<char>
    decreases es,
{
    if es.len() == 0 {
        Seq::empty()
    } else if es.len() == 1 {
        render(es.last())
    } else {
        render_members(es.drop_last()) + seq![',', ' '] + render(es.last())
    }
}

fn render_expr(e: &Expr) -> (r: String)
    ensures
        r@ == render(e.model()),
    decreases e,
{
    match e {
        Expr::Node(n) => n.name().to_owned(),
        Expr::Connected(es) => {
            proof {
                lemma_model_all(es@);
                reveal_strlit("{");
                reveal_strlit("}");
            }
            let mut r = String::from_str("{");
            push_members(&mut r, es);
            r.append("}");
            proof {
                assert(r@ =~= render(e.model()));
            }
            r
        },
        Expr::Disconnected(es) => {
            proof {
                lemma_model_all(es@);
                reveal_strlit("[");
                reveal_strlit("]");
            }
            let mut r = String::from_str("[");
            push_members(&mut r, es);
            r.append("]");
            proof {
                assert(r@ =~= render(e.model()));
            }
            r
        },
    }
}

fn push_members(r: &mut String, es: &Vec<Expr>)
    ensures
        final(r)@ == old(r)@ + render_members(model_all(es@)),
    decreases es,
{
    proof {
        lemma_model_all(es@);
    }
    let ghost ms = model_all(es@);
    let mut i: usize = 0;
    proof {
        assert(r@ =~= old(r)@ + render_members(ms.take(0)));
    }
    while i < es.len()
        invariant
            0 <= i <= es@.len(),
            ms == model_all(es@),
            ms.len() == es@.len(),
            forall|j: int| 0 <= j < es@.len() ==> ms[j] == es@[j].model(),
            r@ == old(r)@ + render_members(ms.take(i as int)),
        decreases es@.len() - i,
    {
        proof {
            assert(ms.take(i + 1).drop_last() =~= ms.take(i as int));
            assert(ms.take(i + 1).last() == ms[i as int]);
        }
        if i > 0 {
            proof {
                reveal_strlit(", ");
            }
            r.append(", ");
        }
        let piece = render_expr(&es[i]);
        r.append(piece.as_str());
        proof {
            if i == 0 {
                assert(ms.take(1).len() == 1);
                assert(r@ =~= old(r)@ + render_members(ms.take(i + 1)));
            } else {
                assert(", "@ =~= seq![',', ' ']);
                assert(r@ =~= old(r)@ + render_members(ms.take(i + 1)));
            }
        }
        i += 1;
    }
    proof {
        assert(ms.take(es@.len() as int) =~= ms);
    }
}

/// The text a statement renders as: `name = expression`.
pub open spec fn render_stmt(nm: Seq<char>, g: GExpr) -> Seq<char> {
    nm + seq![' ', '=', ' '] + render(g)
}

/// The text a program renders as: each statement on its own line, then
/// the final expression.
pub open spec fn render_ret(ss: Seq<Stmt>, g: GExpr) -> Seq<char> {
    render_stmt_lines(ss) + seq!['\n'] + render(g)
}

/// The statements' normalized texts joined by line breaks.
pub open spec fn render_stmt_lines(ss: Seq<Stmt>) -> Seq<char>
    decreases ss,
{
    if ss.len() == 0 {
        Seq::empty()
    } else if ss.len() == 1 {
        render_stmt(ss.last().name_model(), norm(ss.last().expr_model()))
    } else {
        render_stmt_lines(ss.drop_last()) + seq!['\n'] + render_stmt(
            ss.last().name_model(),
            norm(ss.last().expr_model()),
        )
    }
}

impl Expr {
    /// The canonical text of this expression: the rendering of its
    /// normal form.
    pub fn to_text(&self) -> (r: String)
        ensures
            r@ == render(norm(self.model())),
    {
        let n = self.normalize();
        render_expr(&n)
    }
}

impl Stmt {
    /// The canonical text of this statement: its name, `=`, and the
    /// rendering of its normalized right-hand side.
    pub fn to_text(&self) -> (r: String)
        ensures
            r@ == render_stmt(self.name_model(), norm(self.expr_model())),
    {
        match self {
            Stmt::Assign(node, expr) => {
                let mut r = node.name().to_owned();
                proof {
                    reveal_strlit(" = ");
                }
                r.append(" = ");
                let e = expr.to_text();
                r.append(e.as_str());
                proof {
                    assert(" = "@ =~= seq![' ', '=', ' ']);
                    assert(r@ =~= render_stmt(self.name_model(), norm(self.expr_model())));
                }
                r
            },
        }
    }
}

impl Ret {
    /// The canonical text of this program: each statement normalized on
    /// its own line, then the normalized final expression.
    pub fn to_text(&self) -> (r: String)
        ensures
            r@ == render_ret(self.0@, norm(self.1.model())),
    {
        let ghost ss = self.0@;
        let mut r = String::new();
        let mut i: usize = 0;
        proof {
            assert(r@ =~= render_stmt_lines(ss.take(0)));
        }
        while i < self.0.len()
            invariant
                0 <= i <= self.0@.len(),
                ss == self.0@,
                r@ == render_stmt_lines(ss.take(i as int)),
            decreases self.0@.len() - i,
        {
            proof {
                reveal_strlit("\n");
                assert(ss.take(i + 1).drop_last() =~= ss.take(i as int));
                assert(ss.take(i + 1).last() == ss[i as int]);
            }
            if i > 0 {
                r.append("\n");
            }
            let line = self.0[i].to_text();
            r.append(line.as_str());
            proof {
                assert("\n"@ =~= seq!['\n']);
                if i == 0 {
                    assert(ss.take(1).len() == 1);
                }
                assert(r@ =~= render_stmt_lines(ss.take(i + 1)));
            }
            i += 1;
        }
        proof {
            assert(ss.take(self.0@.len() as int) =~= ss);
            reveal_strlit("\n");
        }
        r.append("\n");
        let e = self.1.to_text();
        r.append(e.as_str());
        proof {
            reveal_strlit("\n");
            assert("\n"@ =~= seq!['\n']);
            assert(r@ =~= render_ret(self.0@, norm(self.1.model())));
        }
        r
    }
}

} // verus!
