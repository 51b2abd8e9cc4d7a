//! Resolution of named graphs.
//!
//! An environment binds names to expressions.  Resolving an expression
//! replaces every bound name with its expression; resolving a statement
//! resolves its right-hand side and then binds it, subject to the
//! environment's policy on shadowing and recursion.
//!
//! ```text
//! G = [A, B]
//! {X, G}
//! =>
//! {X, [A, B]}
//! ```

use vstd::prelude::*;

use crate::{nset, Expr, GExpr, Node, Ret, Stmt};

verus! {

/// Resolution policy: whether a bound name may be rebound, and whether a
/// binding may mention its own name.
#[derive(Debug, PartialEq, Eq)]
pub struct Config {
    shadowing: bool,
    recursion: bool,
}

impl Config {
    /// Whether rebinding an already bound name is allowed.
    pub closed spec fn allows_shadowing(&self) -> bool {
        self.shadowing
    }

    /// Whether a binding may mention the name being bound.
    pub closed spec fn allows_recursion(&self) -> bool {
        self.recursion
    }

    /// Allow redefinition of nodes in assignment.
    ///
    /// ```text
    /// G = A
    /// G = B
    /// G => B
    /// ```
    pub fn with_shadowing(self) -> (r: Self)
        ensures
            r.allows_shadowing(),
            r.allows_recursion() == self.allows_recursion(),
    {
        Config { shadowing: true, ..self }
    }

    /// Allow a binding to mention its own name.  Reserved: resolution of
    /// such a binding is not given a meaning here.
    pub fn with_recursion(self) -> (r: Self)
        ensures
            r.allows_recursion(),
            r.allows_shadowing() == self.allows_shadowing(),
    {
        Config { recursion: true, ..self }
    }
}

impl Default for Config {
    /// The default policy forbids both shadowing and recursion.
    fn default() -> (r: Self)
        ensures
            !r.allows_shadowing(),
            !r.allows_recursion(),
    {
        Config { shadowing: false, recursion: false }
    }
}

/// Errors that can occur during resolution.
#[derive(Debug, PartialEq, Eq)]
pub enum Error {
    /// A bound name was bound again under a policy that forbids it:
    /// ```text
    /// G = A
    /// G = B
    /// ```
    Shadowing,
    /// A binding mentioned its own name under a policy that forbids it:
    /// ```text
    /// G = {G, B}
    /// ```
    Recursion,
}

/// The mapping a sequence of bindings stands for; a later binding for the
/// same name wins.
pub open spec fn map_of(s: Seq<(Node, Expr)>) -> Map<Seq<char>, GExpr>
    decreases s,
{
    if s.len() == 0 {
        Map::empty()
    } else {
        map_of(s.drop_last()).insert(s.last().0@, s.last().1.model())
    }
}

/// No two bindings carry the same name.
pub open spec fn keys_distinct(s: Seq<(Node, Expr)>) -> bool {
    forall|i: int, j: int| 0 <= i < j < s.len() ==> (#[trigger] s[i]).0@ != (#[trigger] s[j]).0@
}

/// What the binding sequence's mapping holds, entry by entry.
proof fn lemma_map_of(s: Seq<(Node, Expr)>)
    requires
        keys_distinct(s),
    ensures
        forall|k: Seq<char>|
            #[trigger] map_of(s).dom().contains(k) <==> exists|i: int|
                0 <= i < s.len() && (#[trigger] s[i]).0@ == k,
        forall|i: int|
            0 <= i < s.len() ==> map_of(s)[(#[trigger] s[i]).0@] == s[i].1.model(),
    decreases s,
{
    if s.len() > 0 {
        assert(forall|i: int|
            0 <= i < s.drop_last().len() ==> #[trigger] s.drop_last()[i] == s[i]);
        lemma_map_of(s.drop_last());
        assert forall|k: Seq<char>|
            #[trigger] map_of(s).dom().contains(k) <==> exists|i: int|
                0 <= i < s.len() && (#[trigger] s[i]).0@ == k by {
            if map_of(s).dom().contains(k) {
                if k != s.last().0@ {
                    let i = choose|i: int|
                        0 <= i < s.drop_last().len() && (#[trigger] s.drop_last()[i]).0@ == k;
                    assert(s[i].0@ == k);
                }
            }
            if exists|i: int| 0 <= i < s.len() && (#[trigger] s[i]).0@ == k {
                let i = choose|i: int| 0 <= i < s.len() && (#[trigger] s[i]).0@ == k;
                if i < s.len() - 1 {
                    assert(s.drop_last()[i].0@ == k);
                    assert(map_of(s.drop_last()).dom().contains(k));
                }
            }
        }
        assert forall|i: int|
            0 <= i < s.len() implies map_of(s)[(#[trigger] s[i]).0@] == s[i].1.model() by {
            if i < s.len() - 1 {
                assert(s[i].0@ != s[s.len() - 1].0@);
                assert(s.drop_last()[i] == s[i]);
            }
        }
    }
}

/// Running resolution environment: the bindings made so far and the
/// active policy.
#[derive(Debug)]
pub struct Env<'cfg> {
    map: Vec<(Node, Expr)>,
    config: &'cfg Config,
}

impl<'cfg> Env<'cfg> {
    /// One name is bound at most once in the backing vector.
    #[verifier::type_invariant]
    spec fn inv(&self) -> bool {
        keys_distinct(self.map@)
    }

    /// The mapping from names to the models of their bound expressions.
    pub closed spec fn bindings(&self) -> Map<Seq<char>, GExpr> {
        map_of(self.map@)
    }

    /// The active policy.
    pub closed spec fn conf(&self) -> Config {
        *self.config
    }

    /// Create a new empty resolution environment.
    pub fn new(config: &'cfg Config) -> (r: Self)
        ensures
            r.bindings() == Map::<Seq<char>, GExpr>::empty(),
            r.conf() == *config,
    {
        Env { map: Vec::new(), config }
    }

    /// The position of the binding for the given node, if any.
    fn find_index(&self, node: &Node) -> (r: Option<usize>)
        ensures
            match r {
                Some(i) => i < self.map@.len() && self.map@[i as int].0@ == node@,
                None => forall|i: int| 0 <= i < self.map@.len() ==> (#[trigger] self.map@[i]).0@
                    != node@,
            },
    {
        let mut i: usize = 0;
        while i < self.map.len()
            invariant
                0 <= i <= self.map@.len(),
                forall|j: int| 0 <= j < i ==> (#[trigger] self.map@[j]).0@ != node@,
            decreases self.map@.len() - i,
        {
            let entry = &self.map[i];
            if entry.0.name_eq(node) {
                return Some(i);
            }
            i += 1;
        }
        None
    }

    /// Returns the expression bound to the given node in this
    /// environment, or the node itself when it is unbound.
    pub fn lookup(&self, node: &Node) -> (r: Expr)
        ensures
            self.bindings().dom().contains(node@) ==> r.model() == self.bindings()[node@],
            !self.bindings().dom().contains(node@) ==> r.model() == GExpr::Leaf(node@),
    {
        proof {
            use_type_invariant(self);
            lemma_map_of(self.map@);
        }
        match self.find_index(node) {
            Some(i) => {
                let entry = &self.map[i];
                let r = entry.1.clone();
                proof {
                    assert(self.bindings().dom().contains(node@));
                    let e = self.map@[i as int];
                    assert(self.bindings()[e.0@] == e.1.model());
                }
                r
            },
            None => {
                proof {
                    if self.bindings().dom().contains(node@) {
                        let i = choose|i: int|
                            0 <= i < self.map@.len() && (#[trigger] self.map@[i]).0@ == node@;
                        assert(false);
                    }
                }
                Expr::Node(node.clone())
            },
        }
    }

    /// Inserts the given node's expression into this environment.
    ///
    /// Fails with [`Error::Shadowing`] when the node is already bound and
    /// the policy forbids rebinding, and with [`Error::Recursion`] when
    /// the expression mentions the node and the policy forbids that; on
    /// success the binding replaces any earlier one for the node.
    pub fn insert(&mut self, node: Node, expr: Expr) -> (r: Result<(), Error>)
        ensures
            final(self).conf() == old(self).conf(),
            (r == Err::<(), Error>(Error::Shadowing) <==> !old(self).conf().allows_shadowing()
                && old(self).bindings().dom().contains(node@)),
            (r == Err::<(), Error>(Error::Recursion) <==> (old(self).conf().allows_shadowing()
                || !old(self).bindings().dom().contains(node@)) && !old(
                self,
            ).conf().allows_recursion() && nset(expr.model()).contains(node@)),
            r is Ok <==> !(r is Err),
            r is Err ==> final(self).bindings() == old(self).bindings(),
            r is Ok ==> final(self).bindings() == old(self).bindings().insert(
                node@,
                expr.model(),
            ),
    {
        let check = expr.clone();
        self.insert_checked(node, expr, &check)
    }

    /// Inserts the given node's expression, applying the recursion policy
    /// to a separate expression: the right-hand side as it was written,
    /// rather than its resolved form.
    #[verifier::rlimit(50)]
    pub(crate) fn insert_checked(&mut self, node: Node, expr: Expr, check: &Expr) -> (r: Result<
        (),
        Error,
    >)
        ensures
            final(self).conf() == old(self).conf(),
            (r == Err::<(), Error>(Error::Shadowing) <==> !old(self).conf().allows_shadowing()
                && old(self).bindings().dom().contains(node@)),
            (r == Err::<(), Error>(Error::Recursion) <==> (old(self).conf().allows_shadowing()
                || !old(self).bindings().dom().contains(node@)) && !old(
                self,
            ).conf().allows_recursion() && nset(check.model()).contains(node@)),
            r is Ok <==> !(r is Err),
            r is Err ==> final(self).bindings() == old(self).bindings(),
            r is Ok ==> final(self).bindings() == old(self).bindings().insert(
                node@,
                expr.model(),
            ),
    {
        proof {
            use_type_invariant(&*self);
            lemma_map_of(self.map@);
        }
        let found = self.find_index(&node);
        proof {
            if found is Some {
                assert(self.bindings().dom().contains(node@));
            } else {
                if self.bindings().dom().contains(node@) {
                    let i = choose|i: int|
                        0 <= i < self.map@.len() && (#[trigger] self.map@[i]).0@ == node@;
                    assert(false);
                }
            }
        }
        if !self.config.shadowing && found.is_some() {
            return Err(Error::Shadowing);
        }
        if !self.config.recursion && check.contains_node(&node) {
            return Err(Error::Recursion);
        }
        let ghost olds = self.map@;
        let ghost em = expr.model();
        let mut newmap: Vec<(Node, Expr)> = Vec::new();
        let mut i: usize = 0;
        while i < self.map.len()
            invariant
                0 <= i <= self.map@.len(),
                self.map@ == olds,
                keys_distinct(olds),
                keys_distinct(newmap@),
                forall|j: int| 0 <= j < newmap@.len() ==> (#[trigger] newmap@[j]).0@ != node@,
                forall|j: int|
                    0 <= j < newmap@.len() ==> exists|oj: int|
                        0 <= oj < i && (#[trigger] olds[oj]).0@ == (#[trigger] newmap@[j]).0@
                            && olds[oj].1.model() == newmap@[j].1.model(),
                forall|oj: int|
                    0 <= oj < i && (#[trigger] olds[oj]).0@ != node@ ==> exists|j: int|
                        0 <= j < newmap@.len() && (#[trigger] newmap@[j]).0@ == olds[oj].0@
                            && newmap@[j].1.model() == olds[oj].1.model(),
            decreases self.map@.len() - i,
        {
            let entry = &self.map[i];
            if !entry.0.name_eq(&node) {
                let cn = entry.0.clone();
                let ce = entry.1.clone();
                let ghost oldn = newmap@;
                newmap.push((cn, ce));
                proof {
                    let last = newmap@.len() - 1;
                    assert(forall|j: int| 0 <= j < oldn.len() ==> newmap@[j] == #[trigger] oldn[j]);
                    assert(newmap@[last].0@ == olds[i as int].0@);
                    assert(newmap@[last].1.model() == olds[i as int].1.model());
                    assert forall|p: int, q: int|
                        0 <= p < q < newmap@.len() implies (#[trigger] newmap@[p]).0@ != (
                    #[trigger] newmap@[q]).0@ by {
                        if q == last {
                            let oj = choose|oj: int|
                                0 <= oj < i && (#[trigger] olds[oj]).0@ == oldn[p].0@
                                    && olds[oj].1.model() == oldn[p].1.model();
                            assert(olds[oj].0@ != olds[i as int].0@);
                        }
                    }
                    assert forall|oj: int|
                        0 <= oj < i + 1 && (#[trigger] olds[oj]).0@ != node@ implies exists|j: int|
                        0 <= j < newmap@.len() && (#[trigger] newmap@[j]).0@ == olds[oj].0@
                            && newmap@[j].1.model() == olds[oj].1.model() by {
                        if oj == i {
                            assert(newmap@[last].0@ == olds[oj].0@ && newmap@[last].1.model()
                                == olds[oj].1.model());
                        } else {
                            let j = choose|j: int|
                                0 <= j < oldn.len() && (#[trigger] oldn[j]).0@ == olds[oj].0@
                                    && oldn[j].1.model() == olds[oj].1.model();
                            assert(newmap@[j].0@ == olds[oj].0@ && newmap@[j].1.model() == olds[
                                oj
                            ].1.model());
                        }
                    }
                }
            } else {
                proof {
                    assert(olds[i as int].0@ == node@);
                }
            }
            i += 1;
        }
        // the new binding replaces any earlier one for the node
        let ghost mid = newmap@;
        newmap.push((node, expr));
        self.map = newmap;
        proof {
            assert(self.map@.drop_last() =~= mid);
            assert(keys_distinct(self.map@)) by {
                assert forall|p: int, q: int|
                    0 <= p < q < self.map@.len() implies (#[trigger] self.map@[p]).0@ != (
                #[trigger] self.map@[q]).0@ by {
                    if q < self.map@.len() - 1 {
                        assert(self.map@[p] == mid[p] && self.map@[q] == mid[q]);
                    } else {
                        assert(self.map@[p] == mid[p]);
                    }
                }
            }
            lemma_map_of(self.map@);
            lemma_map_of(mid);
            lemma_map_of(olds);
            assert(map_of(self.map@) == map_of(mid).insert(node@, em));
            assert forall|k: Seq<char>| k != node@ implies (map_of(mid).dom().contains(k)
                <==> map_of(olds).dom().contains(k)) && (map_of(mid).dom().contains(k)
                ==> map_of(mid)[k] == map_of(olds)[k]) by {
                if map_of(mid).dom().contains(k) {
                    let j = choose|j: int| 0 <= j < mid.len() && (#[trigger] mid[j]).0@ == k;
                    let oj = choose|oj: int|
                        0 <= oj < olds.len() && (#[trigger] olds[oj]).0@ == (#[trigger] mid[j]).0@
                            && olds[oj].1.model() == mid[j].1.model();
                    assert(olds[oj].0@ == k);
                    assert(map_of(olds)[olds[oj].0@] == olds[oj].1.model());
                    assert(map_of(mid)[mid[j].0@] == mid[j].1.model());
                }
                if map_of(olds).dom().contains(k) {
                    let oj = choose|oj: int| 0 <= oj < olds.len() && (#[trigger] olds[oj]).0@ == k;
                    let j = choose|j: int|
                        0 <= j < mid.len() && (#[trigger] mid[j]).0@ == olds[oj].0@
                            && mid[j].1.model() == olds[oj].1.model();
                    assert(mid[j].0@ == k);
                    assert(map_of(mid).dom().contains(k));
                }
            }
            assert(map_of(self.map@) =~= map_of(olds).insert(node@, em));
        }
        Ok(())
    }
}

// ---------------------------------------------------------------------------
// Substitution.
// ---------------------------------------------------------------------------
/// Replace every bound leaf by its binding; unbound leaves stay.  Only
/// one level: names inside a substituted expression are not looked up
/// again.
pub open spec fn subst(g: GExpr, m: Map<Seq<char>, GExpr>) -> GExpr
    decreases g,
{
    match g {
        GExpr::Leaf(n) => if m.dom().contains(n) {
            m[n]
        } else {
            GExpr::Leaf(n)
        },
        GExpr::Conn(es) => GExpr::Conn(subst_all(es, m)),
        GExpr::Disc(es) => GExpr::Disc(subst_all(es, m)),
    }
}

/// Substitution applied to every member, in order.
pub open spec fn subst_all(es: Seq<GExpr>, m: Map<Seq<char>, GExpr>) -> Seq<GExpr>
    decreases es,
{
    if es.len() == 0 {
        Seq::empty()
    } else {
        subst_all(es.drop_last(), m).push(subst(es.last(), m))
    }
}

/// `subst_all` is the element-wise substitution.
pub broadcast proof fn lemma_subst_all(es: Seq<GExpr>, m: Map<Seq<char>, GExpr>)
    ensures
        (#[trigger] subst_all(es, m)).len() == es.len(),
        forall|i: int| 0 <= i < es.len() ==> subst_all(es, m)[i] == subst(#[trigger] es[i], m),
    decreases es,
{
    if es.len() > 0 {
        lemma_subst_all(es.drop_last(), m);
        assert forall|i: int| 0 <= i < es.len() implies subst_all(es, m)[i] == subst(
            #[trigger] es[i],
            m,
        ) by {
            if i < es.len() - 1 {
                assert(es.drop_last()[i] == es[i]);
            }
        }
    }
}

impl Expr {
    /// Substitute the environment's bindings into this expression.
    fn resolve_core(&self, env: &Env<'_>) -> (r: Expr)
        ensures
            r.model() == subst(self.model(), env.bindings()),
        decreases self,
    {
        match self {
            Expr::Node(n) => env.lookup(n),
            Expr::Connected(es) => Expr::Connected(resolve_vec(es, env)),
            Expr::Disconnected(es) => Expr::Disconnected(resolve_vec(es, env)),
        }
    }

    /// Replace every name bound in the environment by its bound
    /// expression; unbound names denote atomic nodes and stay unchanged.
    /// Never fails, and leaves the environment unchanged.
    pub fn resolve(&self, env: &mut Env<'_>) -> (r: Result<Expr, Error>)
        ensures
            *final(env) == *old(env),
            r is Ok,
            r->Ok_0.model() == subst(self.model(), old(env).bindings()),
    {
        Ok(self.resolve_core(env))
    }
}

fn resolve_vec(es: &Vec<Expr>, env: &Env<'_>) -> (r: Vec<Expr>)
    ensures
        crate::model_all(r@) == subst_all(crate::model_all(es@), env.bindings()),
    decreases es,
{
    proof {
        crate::lemma_model_all(es@);
        lemma_subst_all(crate::model_all(es@), env.bindings());
    }
    let mut r: Vec<Expr> = Vec::new();
    let mut i: usize = 0;
    while i < es.len()
        invariant
            0 <= i <= es@.len(),
            crate::model_all(es@).len() == es@.len(),
            forall|j: int| 0 <= j < es@.len() ==> crate::model_all(es@)[j] == es@[j].model(),
            r@.len() == i,
            forall|j: int| 0 <= j < i ==> (#[trigger] r@[j]).model() == subst(
                es@[j].model(),
                env.bindings(),
            ),
        decreases es@.len() - i,
    {
        let e = es[i].resolve_core(env);
        r.push(e);
        i += 1;
    }
    proof {
        crate::lemma_model_all(r@);
        lemma_subst_all(crate::model_all(es@), env.bindings());
        assert forall|j: int| 0 <= j < r@.len() implies crate::model_all(r@)[j] == subst_all(
            crate::model_all(es@),
            env.bindings(),
        )[j] by {
            assert(crate::model_all(r@)[j] == r@[j].model());
            assert(crate::model_all(es@)[j] == es@[j].model());
        }
        assert(crate::model_all(r@) =~= subst_all(crate::model_all(es@), env.bindings()));
    }
    r
}

impl Stmt {
    /// Resolve the right-hand side against the environment, then bind the
    /// name to the result.  Fails exactly as [`Env::insert`] does; on
    /// failure the environment is unchanged.
    pub fn resolve(&self, env: &mut Env<'_>) -> (r: Result<Stmt, Error>)
        ensures
            final(env).conf() == old(env).conf(),
            ({
                let v = subst(self.expr_model(), old(env).bindings());
                let sh = old(env).conf().allows_shadowing();
                let rc = old(env).conf().allows_recursion();
                let bound = old(env).bindings().dom().contains(self.name_model());
                &&& (r == Err::<Stmt, Error>(Error::Shadowing) <==> !sh && bound)
                &&& (r == Err::<Stmt, Error>(Error::Recursion) <==> (sh || !bound) && !rc && nset(
                    self.expr_model(),
                ).contains(self.name_model()))
                &&& (r is Ok <==> !(r is Err))
                &&& (r is Err ==> final(env).bindings() == old(env).bindings())
                &&& (r is Ok ==> final(env).bindings() == old(env).bindings().insert(
                    self.name_model(),
                    v,
                ) && r->Ok_0.name_model() == self.name_model() && r->Ok_0.expr_model() == v)
            }),
    {
        match self {
            Stmt::Assign(node, rhs) => {
                // the recursion policy looks at the statement as written:
                // a self-reference introduced by substitution alone is not
                // a violation
                let resolved = rhs.resolve_core(env);
                let kept = resolved.clone();
                match env.insert_checked(node.clone(), resolved, rhs) {
                    Ok(()) => Ok(Stmt::Assign(node.clone(), kept)),
                    Err(e) => Err(e),
                }
            },
        }
    }
}

// ---------------------------------------------------------------------------
// Resolving statement sequences and whole programs.
// ---------------------------------------------------------------------------
/// What resolving a sequence of statements comes to: the resolved
/// statements and the final bindings, or the first failure together with
/// the bindings made before it.
#[verifier::ext_equal]
pub enum Outcome {
    Done(Seq<(Seq<char>, GExpr)>, Map<Seq<char>, GExpr>),
    Shadow(Map<Seq<char>, GExpr>),
    Recur(Map<Seq<char>, GExpr>),
}

/// Resolving one statement: substitute, then bind, under the policy.
/// The recursion check looks at the right-hand side as written, so a
/// self-reference that only arises through substitution is legal.
pub open spec fn run_step(nm: Seq<char>, rhs: GExpr, m: Map<Seq<char>, GExpr>, sh: bool, rc: bool) -> Outcome {
    let v = subst(rhs, m);
    if !sh && m.dom().contains(nm) {
        Outcome::Shadow(m)
    } else if !rc && nset(rhs).contains(nm) {
        Outcome::Recur(m)
    } else {
        Outcome::Done(seq![(nm, v)], m.insert(nm, v))
    }
}

/// Resolving a sequence of statements in order, stopping at the first
/// failure.
pub open spec fn run_stmts(
    ss: Seq<(Seq<char>, GExpr)>,
    m: Map<Seq<char>, GExpr>,
    sh: bool,
    rc: bool,
) -> Outcome
    decreases ss,
{
    if ss.len() == 0 {
        Outcome::Done(Seq::empty(), m)
    } else {
        match run_stmts(ss.drop_last(), m, sh, rc) {
            Outcome::Done(out, m2) => match run_step(ss.last().0, ss.last().1, m2, sh, rc) {
                Outcome::Done(one, m3) => Outcome::Done(out + one, m3),
                fail => fail,
            },
            fail => fail,
        }
    }
}

/// A failure while resolving a prefix is the result of the whole
/// sequence.
proof fn lemma_run_fail_persists(
    ss: Seq<(Seq<char>, GExpr)>,
    i: int,
    m: Map<Seq<char>, GExpr>,
    sh: bool,
    rc: bool,
)
    requires
        0 <= i <= ss.len(),
        !(run_stmts(ss.take(i), m, sh, rc) is Done),
    ensures
        run_stmts(ss, m, sh, rc) == run_stmts(ss.take(i), m, sh, rc),
    decreases ss.len() - i,
{
    if i == ss.len() {
        assert(ss.take(i) =~= ss);
    } else {
        assert(ss.take(i + 1).drop_last() =~= ss.take(i));
        assert(run_stmts(ss.take(i + 1), m, sh, rc) == run_stmts(ss.take(i), m, sh, rc));
        lemma_run_fail_persists(ss, i + 1, m, sh, rc);
    }
}

/// The models of a sequence of statements: each bound name with its
/// right-hand side's model.
pub open spec fn smodel_all(ss: Seq<Stmt>) -> Seq<(Seq<char>, GExpr)>
    decreases ss,
{
    if ss.len() == 0 {
        Seq::empty()
    } else {
        smodel_all(ss.drop_last()).push((ss.last().name_model(), ss.last().expr_model()))
    }
}

/// `smodel_all` is the element-wise model.
pub broadcast proof fn lemma_smodel_all(ss: Seq<Stmt>)
    ensures
        (#[trigger] smodel_all(ss)).len() == ss.len(),
        forall|i: int|
            0 <= i < ss.len() ==> smodel_all(ss)[i] == ((#[trigger] ss[i]).name_model(),
            ss[i].expr_model()),
    decreases ss,
{
    if ss.len() > 0 {
        lemma_smodel_all(ss.drop_last());
        assert forall|i: int| 0 <= i < ss.len() implies smodel_all(ss)[i] == ((
        #[trigger] ss[i]).name_model(), ss[i].expr_model()) by {
            if i < ss.len() - 1 {
                assert(ss.drop_last()[i] == ss[i]);
            }
        }
    }
}

/// Resolve a sequence of statements in order against the environment,
/// stopping at the first failure; the bindings made before a failure
/// remain.
pub fn resolve_stmts(stmts: &Vec<Stmt>, env: &mut Env<'_>) -> (r: Result<Vec<Stmt>, Error>)
    ensures
        final(env).conf() == old(env).conf(),
        ({
            let o = run_stmts(
                smodel_all(stmts@),
                old(env).bindings(),
                old(env).conf().allows_shadowing(),
                old(env).conf().allows_recursion(),
            );
            &&& (r is Ok <==> o is Done)
            &&& (r == Err::<Vec<Stmt>, Error>(Error::Shadowing) <==> o is Shadow)
            &&& (r == Err::<Vec<Stmt>, Error>(Error::Recursion) <==> o is Recur)
            &&& (o is Done ==> smodel_all(r->Ok_0@) == o->Done_0 && final(env).bindings()
                == o->Done_1)
            &&& (o is Shadow ==> final(env).bindings() == o->Shadow_0)
            &&& (o is Recur ==> final(env).bindings() == o->Recur_0)
        }),
{
    proof {
        lemma_smodel_all(stmts@);
    }
    let ghost ss = smodel_all(stmts@);
    let ghost m0 = env.bindings();
    let ghost sh = env.conf().allows_shadowing();
    let ghost rc = env.conf().allows_recursion();
    let mut out: Vec<Stmt> = Vec::new();
    let mut i: usize = 0;
    proof {
        assert(ss.take(0) =~= Seq::<(Seq<char>, GExpr)>::empty());
        assert(smodel_all(out@) =~= Seq::<(Seq<char>, GExpr)>::empty());
    }
    while i < stmts.len()
        invariant
            0 <= i <= stmts@.len(),
            ss == smodel_all(stmts@),
            ss.len() == stmts@.len(),
            forall|j: int| 0 <= j < stmts@.len() ==> ss[j] == ((#[trigger] stmts@[j]).name_model(),
            stmts@[j].expr_model()),
            env.conf().allows_shadowing() == sh,
            env.conf().allows_recursion() == rc,
            env.conf() == old(env).conf(),
            m0 == old(env).bindings(),
            run_stmts(ss.take(i as int), m0, sh, rc) == Outcome::Done(
                smodel_all(out@),
                env.bindings(),
            ),
        decreases stmts@.len() - i,
    {
        proof {
            assert(ss.take(i + 1).drop_last() =~= ss.take(i as int));
            assert(ss.take(i + 1).last() == ss[i as int]);
        }
        let ghost mcur = env.bindings();
        match stmts[i].resolve(env) {
            Ok(st) => {
                let ghost oldout = out@;
                out.push(st);
                proof {
                    lemma_smodel_all(out@);
                    lemma_smodel_all(oldout);
                    assert(out@.drop_last() =~= oldout);
                    assert(smodel_all(out@) == smodel_all(oldout).push(
                        (out@.last().name_model(), out@.last().expr_model()),
                    ));
                    let v = subst(ss[i as int].1, mcur);
                    assert(run_step(ss[i as int].0, ss[i as int].1, mcur, sh, rc)
                        == Outcome::Done(seq![(ss[i as int].0, v)], mcur.insert(
                        ss[i as int].0,
                        v,
                    )));
                    assert(smodel_all(out@) =~= smodel_all(oldout) + seq![(ss[i as int].0, v)]);
                    assert(run_stmts(ss.take(i + 1), m0, sh, rc) == Outcome::Done(
                        smodel_all(out@),
                        env.bindings(),
                    ));
                }
                i += 1;
            },
            Err(e) => {
                proof {
                    assert(!(run_stmts(ss.take(i + 1), m0, sh, rc) is Done));
                    lemma_run_fail_persists(ss, i + 1, m0, sh, rc);
                    assert(run_stmts(ss, m0, sh, rc) == run_stmts(ss.take(i + 1), m0, sh, rc));
                }
                return Err(e);
            },
        }
    }
    proof {
        assert(ss.take(stmts@.len() as int) =~= ss);
    }
    Ok(out)
}

impl Ret {
    /// Resolve each statement in order, then the final expression against
    /// the resulting environment; the program's value is the resolved
    /// final expression.
    pub fn resolve(&self, env: &mut Env<'_>) -> (r: Result<Expr, Error>)
        ensures
            final(env).conf() == old(env).conf(),
            ({
                let o = run_stmts(
                    smodel_all(self.0@),
                    old(env).bindings(),
                    old(env).conf().allows_shadowing(),
                    old(env).conf().allows_recursion(),
                );
                &&& (r is Ok <==> o is Done)
                &&& (r == Err::<Expr, Error>(Error::Shadowing) <==> o is Shadow)
                &&& (r == Err::<Expr, Error>(Error::Recursion) <==> o is Recur)
                &&& (o is Done ==> r->Ok_0.model() == subst(self.1.model(), o->Done_1)
                    && final(env).bindings() == o->Done_1)
                &&& (o is Shadow ==> final(env).bindings() == o->Shadow_0)
                &&& (o is Recur ==> final(env).bindings() == o->Recur_0)
            }),
    {
        match resolve_stmts(&self.0, env) {
            Ok(_) => {
                let e = self.1.resolve_core(env);
                Ok(e)
            },
            Err(e) => Err(e),
        }
    }
}

impl<'cfg> Env<'cfg> {
    /// The current bindings, rendered as assignment statements: one per
    /// bound name, carrying its bound expression.
    pub fn entries(&self) -> (r: Vec<Stmt>)
        ensures
            forall|i: int|
                0 <= i < r@.len() ==> self.bindings().dom().contains(
                    (#[trigger] r@[i]).name_model(),
                ) && self.bindings()[r@[i].name_model()] == r@[i].expr_model(),
            forall|k: Seq<char>|
                #[trigger] self.bindings().dom().contains(k) ==> exists|i: int|
                    0 <= i < r@.len() && (#[trigger] r@[i]).name_model() == k,
    {
        proof {
            use_type_invariant(self);
            lemma_map_of(self.map@);
        }
        let mut r: Vec<Stmt> = Vec::new();
        let mut i: usize = 0;
        while i < self.map.len()
            invariant
                0 <= i <= self.map@.len(),
                keys_distinct(self.map@),
                forall|k: Seq<char>|
                    #[trigger] map_of(self.map@).dom().contains(k) <==> exists|q: int|
                        0 <= q < self.map@.len() && (#[trigger] self.map@[q]).0@ == k,
                forall|q: int|
                    0 <= q < self.map@.len() ==> map_of(self.map@)[(#[trigger] self.map@[q]).0@]
                        == self.map@[q].1.model(),
                forall|j: int|
                    0 <= j < r@.len() ==> self.bindings().dom().contains(
                        (#[trigger] r@[j]).name_model(),
                    ) && self.bindings()[r@[j].name_model()] == r@[j].expr_model(),
                r@.len() == i,
                forall|q: int|
                    0 <= q < i ==> (#[trigger] r@[q]).name_model() == self.map@[q].0@,
            decreases self.map@.len() - i,
        {
            let entry = &self.map[i];
            let node = entry.0.clone();
            let expr = entry.1.clone();
            r.push(Stmt::Assign(node, expr));
            proof {
                let last = r@[r@.len() - 1];
                assert(last.name_model() == self.map@[i as int].0@);
                assert(last.expr_model() == self.map@[i as int].1.model());
            }
            i += 1;
        }
        proof {
            assert forall|k: Seq<char>|
                #[trigger] self.bindings().dom().contains(k) implies exists|q: int|
                0 <= q < r@.len() && (#[trigger] r@[q]).name_model() == k by {
                let q = choose|q: int|
                    0 <= q < self.map@.len() && (#[trigger] self.map@[q]).0@ == k;
                assert(r@[q].name_model() == k);
            }
        }
        r
    }
}

/// Resolution of named graphs: substituting bound names, statement by
/// statement.
pub trait Resolve: Sized {
    type Output;

    fn resolve<'cfg>(&self, env: &mut Env<'cfg>) -> Result<Self::Output, Error>;
}

impl Resolve for Expr {
    type Output = Expr;

    fn resolve<'cfg>(&self, env: &mut Env<'cfg>) -> Result<Expr, Error> {
        Expr::resolve(self, env)
    }
}

impl Resolve for Stmt {
    type Output = Stmt;

    fn resolve<'cfg>(&self, env: &mut Env<'cfg>) -> Result<Stmt, Error> {
        Stmt::resolve(self, env)
    }
}

impl Resolve for Vec<Stmt> {
    type Output = Vec<Stmt>;

    fn resolve<'cfg>(&self, env: &mut Env<'cfg>) -> Result<Vec<Stmt>, Error> {
        resolve_stmts(self, env)
    }
}

impl Resolve for Ret {
    type Output = Expr;

    fn resolve<'cfg>(&self, env: &mut Env<'cfg>) -> Result<Expr, Error> {
        Ret::resolve(self, env)
    }
}

} // verus!
