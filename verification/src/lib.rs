//! A small language of graphs built from nested set expressions.
//!
//! An expression describes a graph as nested *connected* groups (cliques,
//! written `{..}`) and *disconnected* groups (disjoint unions, written
//! `[..]`) over named nodes.  The crate canonicalizes such expressions into
//! a disjoint-union-of-cliques normal form, projects them onto their node
//! and edge sets, and resolves named bindings.

use vstd::prelude::*;

pub mod normal;
pub mod order;
pub mod parse;
pub mod resolve;

pub use resolve::Resolve;

verus! {

/// A node name: non-empty ASCII text, a letter followed by letters or
/// digits.  Used both as a graph-member label and as a binding name.
#[derive(Debug, PartialEq, Eq, Hash)]
pub struct Node(String);

/// The character sequences accepted as node names.
pub open spec fn valid_name(s: Seq<char>) -> bool {
    &&& s.len() > 0
    &&& ('a' <= s[0] && s[0] <= 'z') || ('A' <= s[0] && s[0] <= 'Z')
    &&& forall|i: int|
        1 <= i < s.len() ==> ('a' <= #[trigger] s[i] && s[i] <= 'z') || ('A' <= s[i] && s[i]
            <= 'Z') || ('0' <= s[i] && s[i] <= '9')
}

impl View for Node {
    type V = Seq<char>;

    closed spec fn view(&self) -> Seq<char> {
        self.0@
    }
}

impl Clone for Node {
    fn clone(&self) -> (r: Node)
        ensures
            r@ == self@,
    {
        Node(self.0.clone())
    }
}

impl Node {
    /// Make a node from its name; `None` when the text is not a valid name.
    pub fn new(name: String) -> (r: Option<Node>)
        ensures
            r is Some <==> valid_name(name@),
            r is Some ==> r->0@ == name@,
    {
        if check_name(name.as_str()) {
            Some(Node(name))
        } else {
            None
        }
    }

    /// The node's name.
    pub fn name(&self) -> (r: &str)
        ensures
            r@ == self@,
    {
        self.0.as_str()
    }
}

/// The mathematical shape of an expression: names at the leaves, with
/// connected and disconnected groupings as sequences.  Every contract in
/// the crate speaks of expressions through this model.
#[verifier::ext_equal]
pub enum GExpr {
    Leaf(Seq<char>),
    Conn(Seq<GExpr>),
    Disc(Seq<GExpr>),
}

/// Expressions describe a graph.
///
/// A `Node` leaf names a single graph node; a `Connected` group makes all
/// of its members pairwise adjacent (a clique); a `Disconnected` group is
/// the disjoint union of its members.
#[derive(Debug, PartialEq, Eq, Hash)]
pub enum Expr {
    Node(Node),
    Connected(Vec<Expr>),
    Disconnected(Vec<Expr>),
}

impl Expr {
    /// The model of this expression tree.
    pub open spec fn model(&self) -> GExpr
        decreases self,
    {
        match self {
            Expr::Node(n) => GExpr::Leaf(n@),
            Expr::Connected(es) => GExpr::Conn(model_all(es@)),
            Expr::Disconnected(es) => GExpr::Disc(model_all(es@)),
        }
    }
}

/// The models of a sequence of expressions, in order.
pub open spec fn model_all(es: Seq<Expr>) -> Seq<GExpr>
    decreases es,
{
    if es.len() == 0 {
        Seq::empty()
    } else {
        model_all(es.drop_last()).push(es.last().model())
    }
}

/// `model_all` is the element-wise model.
pub broadcast proof fn lemma_model_all(es: Seq<Expr>)
    ensures
        (#[trigger] model_all(es)).len() == es.len(),
        forall|i: int| 0 <= i < es.len() ==> model_all(es)[i] == es[i].model(),
    decreases es,
{
    if es.len() > 0 {
        lemma_model_all(es.drop_last());
    }
}

/// The set of node names occurring in an expression.
pub open spec fn nset(g: GExpr) -> Set<Seq<char>>
    decreases g,
{
    match g {
        GExpr::Leaf(n) => set![n],
        GExpr::Conn(es) => nset_all(es),
        GExpr::Disc(es) => nset_all(es),
    }
}

/// The union of the node names of a sequence of expressions.
pub open spec fn nset_all(es: Seq<GExpr>) -> Set<Seq<char>>
    decreases es,
{
    if es.len() == 0 {
        Set::empty()
    } else {
        nset_all(es.drop_last()).union(nset(es.last()))
    }
}

/// Membership in `nset_all` is membership in some member's node set.
pub broadcast proof fn lemma_nset_all_contains(es: Seq<GExpr>, x: Seq<char>)
    ensures
        #[trigger] nset_all(es).contains(x) <==> exists|i: int|
            0 <= i < es.len() && nset(#[trigger] es[i]).contains(x),
    decreases es,
{
    if es.len() > 0 {
        lemma_nset_all_contains(es.drop_last(), x);
        if nset_all(es).contains(x) {
            if nset_all(es.drop_last()).contains(x) {
                let i = choose|i: int|
                    0 <= i < es.drop_last().len() && nset(es.drop_last()[i]).contains(x);
                assert(es[i] == es.drop_last()[i]);
            } else {
                assert(nset(es[es.len() - 1]).contains(x));
            }
        }
        if exists|i: int| 0 <= i < es.len() && nset(#[trigger] es[i]).contains(x) {
            let i = choose|i: int| 0 <= i < es.len() && nset(#[trigger] es[i]).contains(x);
            if i < es.len() - 1 {
                assert(es.drop_last()[i] == es[i]);
            }
        }
    }
}

impl Clone for Expr {
    /// Clone an expression; the copy has the same model.
    fn clone(&self) -> (r: Expr)
        ensures
            r.model() == self.model(),
        decreases self,
    {
        match self {
            Expr::Node(n) => Expr::Node(n.clone()),
            Expr::Connected(es) => Expr::Connected(clone_all(es)),
            Expr::Disconnected(es) => Expr::Disconnected(clone_all(es)),
        }
    }
}

fn clone_all(es: &Vec<Expr>) -> (r: Vec<Expr>)
    ensures
        model_all(r@) == model_all(es@),
    decreases es,
{
    let mut r: Vec<Expr> = Vec::new();
    let mut i: usize = 0;
    while i < es.len()
        invariant
            0 <= i <= es@.len(),
            r@.len() == i,
            forall|j: int| 0 <= j < i ==> (#[trigger] r@[j]).model() == es@[j].model(),
        decreases es@.len() - i,
    {
        let c = es[i].clone();
        r.push(c);
        i += 1;
    }
    proof {
        lemma_model_all(r@);
        lemma_model_all(es@);
        assert(model_all(r@) =~= model_all(es@));
    }
    r
}

impl Expr {
    /// Whether the given node's name occurs anywhere in this expression.
    pub fn contains_node(&self, node: &Node) -> (r: bool)
        ensures
            r == nset(self.model()).contains(node@),
        decreases self,
    {
        match self {
            Expr::Node(n) => n.name_eq(node),
            Expr::Connected(es) | Expr::Disconnected(es) => contains_node_any(es, node),
        }
    }

    /// The sorted, duplicate-free list of node names occurring in this
    /// expression.
    pub fn nodes(&self) -> (r: Vec<Node>)
        ensures
            order::sorted_names(order::names_of(r@)),
            order::names_of(r@).to_set() == nset(self.model()),
    {
        let mut acc: Vec<Node> = Vec::new();
        self.collect_nodes(&mut acc);
        proof {
            assert(order::names_of(acc@).to_set() =~= nset(self.model()));
        }
        acc
    }

    fn collect_nodes(&self, acc: &mut Vec<Node>)
        requires
            order::sorted_names(order::names_of(old(acc)@)),
        ensures
            order::sorted_names(order::names_of(final(acc)@)),
            order::names_of(final(acc)@).to_set() == order::names_of(old(acc)@).to_set().union(
                nset(self.model()),
            ),
        decreases self,
    {
        match self {
            Expr::Node(n) => {
                order::insert_node(acc, n.clone());
                proof {
                    assert(order::names_of(acc@).to_set() =~= order::names_of(
                        old(acc)@,
                    ).to_set().union(nset(self.model())));
                }
            },
            Expr::Connected(es) | Expr::Disconnected(es) => {
                collect_nodes_all(es, acc);
            },
        }
    }
}

fn collect_nodes_all(es: &Vec<Expr>, acc: &mut Vec<Node>)
    requires
        order::sorted_names(order::names_of(old(acc)@)),
    ensures
        order::sorted_names(order::names_of(final(acc)@)),
        order::names_of(final(acc)@).to_set() == order::names_of(old(acc)@).to_set().union(
            nset_all(model_all(es@)),
        ),
    decreases es,
{
    let ghost start = order::names_of(acc@).to_set();
    let mut i: usize = 0;
    proof {
        lemma_model_all(es@);
        assert(model_all(es@).take(0) =~= Seq::<GExpr>::empty());
        assert(start.union(nset_all(model_all(es@).take(0))) =~= start);
    }
    while i < es.len()
        invariant
            0 <= i <= es@.len(),
            forall|j: int| 0 <= j < es@.len() ==> model_all(es@)[j] == es@[j].model(),
            model_all(es@).len() == es@.len(),
            order::sorted_names(order::names_of(acc@)),
            order::names_of(acc@).to_set() == start.union(nset_all(model_all(es@).take(i as int))),
        decreases es@.len() - i,
    {
        es[i].collect_nodes(acc);
        proof {
            let ms = model_all(es@);
            assert(ms.take(i + 1).drop_last() =~= ms.take(i as int));
            assert(ms.take(i + 1).last() == es@[i as int].model());
            assert(order::names_of(acc@).to_set() =~= start.union(nset_all(ms.take(i + 1))));
        }
        i += 1;
    }
    proof {
        let ms = model_all(es@);
        assert(ms.take(es@.len() as int) =~= ms);
        assert(nset_all(ms.take(es@.len() as int)) == nset_all(ms));
    }
}

impl Node {
    /// Whether two nodes carry the same name.
    pub fn name_eq(&self, other: &Node) -> (r: bool)
        ensures
            r == (self@ == other@),
    {
        self.0 == other.0
    }
}

fn contains_node_any(es: &Vec<Expr>, node: &Node) -> (r: bool)
    ensures
        r == nset_all(model_all(es@)).contains(node@),
    decreases es,
{
    let mut i: usize = 0;
    proof {
        lemma_model_all(es@);
        lemma_nset_all_contains(model_all(es@), node@);
    }
    while i < es.len()
        invariant
            0 <= i <= es@.len(),
            forall|j: int| 0 <= j < es@.len() ==> model_all(es@)[j] == es@[j].model(),
            model_all(es@).len() == es@.len(),
            nset_all(model_all(es@)).contains(node@) <==> exists|k: int|
                0 <= k < es@.len() && nset(#[trigger] model_all(es@)[k]).contains(node@),
            forall|j: int| 0 <= j < i ==> !nset(#[trigger] model_all(es@)[j]).contains(node@),
        decreases es@.len() - i,
    {
        if es[i].contains_node(node) {
            proof {
                assert(nset(model_all(es@)[i as int]).contains(node@));
            }
            return true;
        }
        i += 1;
    }
    false
}

/// A statement binds a name to a graph expression.
///
/// A sequence of statements is used to resolve names in later statements
/// and in a final expression.
#[derive(Debug, PartialEq, Eq)]
pub enum Stmt {
    Assign(Node, Expr),
}

impl Stmt {
    /// The bound name's model.
    pub open spec fn name_model(&self) -> Seq<char> {
        self->Assign_0@
    }

    /// The right-hand side's model.
    pub open spec fn expr_model(&self) -> GExpr {
        self->Assign_1.model()
    }
}

/// A program: a sequence of statements followed by one final graph
/// expression, the program's value.
#[derive(Debug, PartialEq, Eq)]
pub struct Ret(pub Vec<Stmt>, pub Expr);

/// Reduction to normal form.
pub trait Normalize: Sized {
    fn normalize(&self) -> Self;
}

/// The edge set of a normalized expression: a connected group makes all
/// ordered pairs of distinct nodes adjacent, a disjoint union contributes
/// its members' edges, a single node none.
pub open spec fn epairs(g: GExpr) -> Set<(Seq<char>, Seq<char>)>
    decreases g,
{
    match g {
        GExpr::Leaf(_) => Set::empty(),
        GExpr::Conn(_) => Set::new(
            |p: (Seq<char>, Seq<char>)|
                nset(g).contains(p.0) && nset(g).contains(p.1) && p.0 != p.1,
        ),
        GExpr::Disc(es) => epairs_all(es),
    }
}

/// The union of the edge sets of a sequence of expressions.
pub open spec fn epairs_all(es: Seq<GExpr>) -> Set<(Seq<char>, Seq<char>)>
    decreases es,
{
    if es.len() == 0 {
        Set::empty()
    } else {
        epairs_all(es.drop_last()).union(epairs(es.last()))
    }
}

/// Membership in `epairs_all` is membership in some member's edge set.
pub broadcast proof fn lemma_epairs_all_contains(es: Seq<GExpr>, x: (Seq<char>, Seq<char>))
    ensures
        #[trigger] epairs_all(es).contains(x) <==> exists|i: int|
            0 <= i < es.len() && epairs(#[trigger] es[i]).contains(x),
    decreases es,
{
    if es.len() > 0 {
        lemma_epairs_all_contains(es.drop_last(), x);
        if epairs_all(es).contains(x) {
            if epairs_all(es.drop_last()).contains(x) {
                let i = choose|i: int|
                    0 <= i < es.drop_last().len() && epairs(es.drop_last()[i]).contains(x);
                assert(es[i] == es.drop_last()[i]);
                assert(epairs(es[i]).contains(x));
            } else {
                assert(epairs(es[es.len() - 1]).contains(x));
            }
        }
        if exists|i: int| 0 <= i < es.len() && epairs(#[trigger] es[i]).contains(x) {
            let i = choose|i: int| 0 <= i < es.len() && epairs(#[trigger] es[i]).contains(x);
            if i < es.len() - 1 {
                assert(es.drop_last()[i] == es[i]);
            }
        }
    }
}

/// The ordered pairs of distinct positions already visited by the nested
/// scan, outer position `i`, inner position `j`.
spec fn pairs_upto(ns: Seq<Seq<char>>, i: int, j: int) -> Set<(Seq<char>, Seq<char>)> {
    Set::new(
        |p: (Seq<char>, Seq<char>)|
            exists|a: int, b: int|
                #![trigger ns[a], ns[b]]
                0 <= a < ns.len() && 0 <= b < ns.len() && a != b && (a < i || (a == i && b < j))
                    && p.0 == ns[a] && p.1 == ns[b],
    )
}

impl Expr {
    /// The sorted, duplicate-free list of edges of this expression's
    /// graph: the edges of its normal form, as ordered pairs both ways.
    pub fn edges(&self) -> (r: Vec<(Node, Node)>)
        ensures
            order::sorted_pairs(order::pair_names(r@)),
            order::pair_names(r@).to_set() == epairs(normal::norm(self.model())),
    {
        let n = self.normalize();
        let mut acc: Vec<(Node, Node)> = Vec::new();
        collect_edges(&n, &mut acc);
        proof {
            assert(order::pair_names(acc@).to_set() =~= epairs(normal::norm(self.model())));
        }
        acc
    }
}

fn collect_edges(n: &Expr, acc: &mut Vec<(Node, Node)>)
    requires
        order::sorted_pairs(order::pair_names(old(acc)@)),
    ensures
        order::sorted_pairs(order::pair_names(final(acc)@)),
        order::pair_names(final(acc)@).to_set() == order::pair_names(old(acc)@).to_set().union(
            epairs(n.model()),
        ),
    decreases n,
{
    match n {
        Expr::Node(_) => {
            proof {
                assert(order::pair_names(acc@).to_set() =~= order::pair_names(
                    old(acc)@,
                ).to_set().union(epairs(n.model())));
            }
        },
        Expr::Connected(_) => {
            let ns = n.nodes();
            let ghost names = order::names_of(ns@);
            let ghost start = order::pair_names(acc@).to_set();
            let mut i: usize = 0;
            proof {
                assert(start.union(pairs_upto(names, 0, 0)) =~= start);
            }
            while i < ns.len()
                invariant
                    0 <= i <= ns@.len(),
                    names == order::names_of(ns@),
                    names.len() == ns@.len(),
                    order::sorted_names(names),
                    names.to_set() == nset(n.model()),
                    n.model() is Conn,
                    order::sorted_pairs(order::pair_names(acc@)),
                    order::pair_names(acc@).to_set() == start.union(
                        pairs_upto(names, i as int, 0),
                    ),
                decreases ns@.len() - i,
            {
                let mut j: usize = 0;
                while j < ns.len()
                    invariant
                        0 <= i < ns@.len(),
                        0 <= j <= ns@.len(),
                        names == order::names_of(ns@),
                        names.len() == ns@.len(),
                        order::sorted_names(names),
                        names.to_set() == nset(n.model()),
                        n.model() is Conn,
                        order::sorted_pairs(order::pair_names(acc@)),
                        order::pair_names(acc@).to_set() == start.union(
                            pairs_upto(names, i as int, j as int),
                        ),
                    decreases ns@.len() - j,
                {
                    if j != i {
                        let a = ns[i].clone();
                        let b = ns[j].clone();
                        let ghost before = order::pair_names(acc@).to_set();
                        order::insert_pair(acc, (a, b));
                        proof {
                            assert(order::pair_view((a, b)) == (names[i as int], names[j as int]));
                            assert(order::pair_names(acc@).to_set() =~= start.union(
                                pairs_upto(names, i as int, j + 1),
                            )) by {
                                assert forall|p: (Seq<char>, Seq<char>)|
                                    pairs_upto(names, i as int, j + 1).contains(p) implies before
                                    .union(
                                    Set::empty().insert((names[i as int], names[j as int])),
                                ).contains(p) by {
                                    let (av, bv) = choose|av: int, bv: int|
                                        #![trigger names[av], names[bv]]
                                        0 <= av < names.len() && 0 <= bv < names.len() && av != bv
                                            && (av < i as int || (av == i as int && bv < j + 1))
                                            && p.0 == names[av] && p.1 == names[bv];
                                    if av == i as int && bv == j as int {
                                    } else {
                                        assert(pairs_upto(names, i as int, j as int).contains(p));
                                    }
                                }
                                assert forall|p: (Seq<char>, Seq<char>)|
                                    pairs_upto(names, i as int, j as int).contains(p) implies
                                    pairs_upto(names, i as int, j + 1).contains(p) by {
                                }
                                assert(pairs_upto(names, i as int, j + 1).contains(
                                    (names[i as int], names[j as int]),
                                ));
                            }
                        }
                    } else {
                        proof {
                            assert(pairs_upto(names, i as int, j + 1) =~= pairs_upto(
                                names,
                                i as int,
                                j as int,
                            )) by {
                                assert forall|p: (Seq<char>, Seq<char>)|
                                    pairs_upto(names, i as int, j + 1).contains(p) implies
                                    pairs_upto(names, i as int, j as int).contains(p) by {
                                    let (av, bv) = choose|av: int, bv: int|
                                        #![trigger names[av], names[bv]]
                                        0 <= av < names.len() && 0 <= bv < names.len() && av != bv
                                            && (av < i as int || (av == i as int && bv < j + 1))
                                            && p.0 == names[av] && p.1 == names[bv];
                                    assert(av != bv);
                                }
                            }
                        }
                    }
                    j += 1;
                }
                proof {
                    assert(pairs_upto(names, i as int, names.len() as int) =~= pairs_upto(
                        names,
                        i + 1,
                        0,
                    )) by {
                        assert forall|p: (Seq<char>, Seq<char>)|
                            pairs_upto(names, i as int, names.len() as int).contains(p) implies
                            pairs_upto(names, i + 1, 0).contains(p) by {
                        }
                        assert forall|p: (Seq<char>, Seq<char>)|
                            pairs_upto(names, i + 1, 0).contains(p) implies pairs_upto(
                            names,
                            i as int,
                            names.len() as int,
                        ).contains(p) by {
                        }
                    }
                }
                i += 1;
            }
            proof {
                assert(pairs_upto(names, names.len() as int, 0) =~= epairs(n.model())) by {
                    assert forall|p: (Seq<char>, Seq<char>)|
                        pairs_upto(names, names.len() as int, 0).contains(p) implies epairs(
                        n.model(),
                    ).contains(p) by {
                        let (av, bv) = choose|av: int, bv: int|
                            #![trigger names[av], names[bv]]
                            0 <= av < names.len() && 0 <= bv < names.len() && av != bv && (av
                                < names.len() as int || (av == names.len() as int && bv < 0))
                                && p.0 == names[av] && p.1 == names[bv];
                        assert(names.to_set().contains(names[av]));
                        assert(names.to_set().contains(names[bv]));
                        assert(names[av] != names[bv]) by {
                            if av < bv {
                                order::lemma_name_lt_irrefl(names[av]);
                            } else {
                                order::lemma_name_lt_irrefl(names[bv]);
                            }
                        }
                    }
                    assert forall|p: (Seq<char>, Seq<char>)| epairs(n.model()).contains(p) implies
                        pairs_upto(names, names.len() as int, 0).contains(p) by {
                        assert(names.to_set().contains(p.0));
                        assert(names.to_set().contains(p.1));
                        let av = choose|av: int| 0 <= av < names.len() && names[av] == p.0;
                        let bv = choose|bv: int| 0 <= bv < names.len() && names[bv] == p.1;
                        assert(av != bv);
                    }
                }
            }
        },
        Expr::Disconnected(es) => {
            collect_edges_all(es, acc);
            proof {
                lemma_model_all(es@);
                assert(order::pair_names(acc@).to_set() =~= order::pair_names(
                    old(acc)@,
                ).to_set().union(epairs(n.model())));
            }
        },
    }
}

fn collect_edges_all(es: &Vec<Expr>, acc: &mut Vec<(Node, Node)>)
    requires
        order::sorted_pairs(order::pair_names(old(acc)@)),
    ensures
        order::sorted_pairs(order::pair_names(final(acc)@)),
        order::pair_names(final(acc)@).to_set() == order::pair_names(old(acc)@).to_set().union(
            epairs_all(model_all(es@)),
        ),
    decreases es,
{
    let ghost start = order::pair_names(acc@).to_set();
    let mut i: usize = 0;
    proof {
        lemma_model_all(es@);
        assert(model_all(es@).take(0) =~= Seq::<GExpr>::empty());
        assert(start.union(epairs_all(model_all(es@).take(0))) =~= start);
    }
    while i < es.len()
        invariant
            0 <= i <= es@.len(),
            forall|j: int| 0 <= j < es@.len() ==> model_all(es@)[j] == es@[j].model(),
            model_all(es@).len() == es@.len(),
            order::sorted_pairs(order::pair_names(acc@)),
            order::pair_names(acc@).to_set() == start.union(
                epairs_all(model_all(es@).take(i as int)),
            ),
        decreases es@.len() - i,
    {
        collect_edges(&es[i], acc);
        proof {
            let ms = model_all(es@);
            assert(ms.take(i + 1).drop_last() =~= ms.take(i as int));
            assert(ms.take(i + 1).last() == es@[i as int].model());
            assert(order::pair_names(acc@).to_set() =~= start.union(epairs_all(ms.take(i + 1))));
        }
        i += 1;
    }
    proof {
        let ms = model_all(es@);
        assert(ms.take(es@.len() as int) =~= ms);
    }
}

spec fn name_char_ok(c: char, first: bool) -> bool {
    ('a' <= c && c <= 'z') || ('A' <= c && c <= 'Z') || (!first && '0' <= c && c <= '9')
}

fn check_name(s: &str) -> (r: bool)
    ensures
        r == valid_name(s@),
{
    let n = s.unicode_len();
    if n == 0 {
        return false;
    }
    let mut i: usize = 0;
    while i < n
        invariant
            0 < n == s@.len(),
            0 <= i <= n,
            forall|j: int| 0 <= j < i ==> name_char_ok(#[trigger] s@[j], j == 0),
        decreases n - i,
    {
        let c = s.get_char(i);
        let alpha = ('a' <= c && c <= 'z') || ('A' <= c && c <= 'Z');
        let digit = '0' <= c && c <= '9';
        if !(alpha || (i > 0 && digit)) {
            assert(!name_char_ok(s@[i as int], i == 0));
            return false;
        }
        i += 1;
    }
    true
}

} // verus!
