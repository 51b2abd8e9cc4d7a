//! Parsing of the textual grammar.
//!
//! ```text
//! identifier  := ASCII letter, then ASCII letters/digits
//! expression  := identifier
//!              | '{' sequence '}'      // connected
//!              | '[' sequence ']'      // disconnected
//! sequence    := (expression (',' expression)* ','?)?
//! assignment  := identifier '=' expression
//! program     := assignment*  expression
//! ```
//!
//! Tokens may be surrounded by whitespace.  The specification functions
//! define the grammar as a recursive descent over the character sequence;
//! each executable parser is proved to compute exactly what they describe.

use vstd::prelude::*;

use crate::{Expr, GExpr, Node, Ret, Stmt};

verus! {

/// Whitespace between tokens.
pub open spec fn is_space(c: char) -> bool {
    c == ' ' || c == '\n' || c == '\t' || c == '\r'
}

/// An ASCII letter.
pub open spec fn is_alpha(c: char) -> bool {
    ('a' <= c && c <= 'z') || ('A' <= c && c <= 'Z')
}

/// An ASCII letter or digit: the characters a name continues with.
pub open spec fn is_word_char(c: char) -> bool {
    is_alpha(c) || ('0' <= c && c <= '9')
}

/// The first position at or after `i` that does not hold whitespace.
pub open spec fn skip_spaces(s: Seq<char>, i: int) -> int
    decreases s.len() - i,
{
    if 0 <= i < s.len() && is_space(s[i]) {
        skip_spaces(s, i + 1)
    } else {
        i
    }
}

/// The position where the name starting at `i` ends.
pub open spec fn word_end(s: Seq<char>, i: int) -> int
    decreases s.len() - i,
{
    if 0 <= i < s.len() && is_word_char(s[i]) {
        word_end(s, i + 1)
    } else {
        i
    }
}

proof fn lemma_skip_spaces(s: Seq<char>, i: int)
    requires
        0 <= i <= s.len(),
    ensures
        i <= skip_spaces(s, i) <= s.len(),
    decreases s.len() - i,
{
    if i < s.len() && is_space(s[i]) {
        lemma_skip_spaces(s, i + 1);
    }
}

proof fn lemma_word_end(s: Seq<char>, i: int)
    requires
        0 <= i <= s.len(),
    ensures
        i <= word_end(s, i) <= s.len(),
    decreases s.len() - i,
{
    if i < s.len() && is_word_char(s[i]) {
        lemma_word_end(s, i + 1);
    }
}

/// A name with its surrounding whitespace, or nothing if no name starts
/// here.  The result holds the name and the position after its trailing
/// whitespace.
pub open spec fn parse_name_at(s: Seq<char>, i: int) -> Option<(Seq<char>, int)> {
    let j = skip_spaces(s, i);
    if j < s.len() && is_alpha(s[j]) {
        let k = word_end(s, j);
        Some((s.subrange(j, k), skip_spaces(s, k)))
    } else {
        None
    }
}

/// An expression with its surrounding whitespace, or nothing if no
/// expression starts here.
pub open spec fn parse_expr_at(s: Seq<char>, i: int) -> Option<(GExpr, int)>
    decreases s.len() - i, 0int,
{
    let j0 = skip_spaces(s, i);
    let j = if i <= j0 && j0 <= s.len() {
        j0
    } else {
        i
    };
    if j < s.len() && s[j] == '{' {
        match parse_members_at(s, j + 1, '}') {
            Some((ms, k)) => if k < s.len() && s[k] == '}' {
                Some((GExpr::Conn(ms), skip_spaces(s, k + 1)))
            } else {
                None
            },
            None => None,
        }
    } else if j < s.len() && s[j] == '[' {
        match parse_members_at(s, j + 1, ']') {
            Some((ms, k)) => if k < s.len() && s[k] == ']' {
                Some((GExpr::Disc(ms), skip_spaces(s, k + 1)))
            } else {
                None
            },
            None => None,
        }
    } else {
        match parse_name_at(s, i) {
            Some((nm, k)) => Some((GExpr::Leaf(nm), k)),
            None => None,
        }
    }
}

/// A possibly empty comma-separated member list, ending in front of the
/// closing bracket; a trailing comma is allowed.  An expression never
/// ends before a position it began at, so the measure may assume one
/// character of progress.
pub open spec fn parse_members_at(s: Seq<char>, i: int, close: char) -> Option<
    (Seq<GExpr>, int),
>
    decreases s.len() - i, 1int,
{
    let j0 = skip_spaces(s, i);
    let j = if i <= j0 && j0 <= s.len() {
        j0
    } else {
        i
    };
    if j < s.len() && s[j] == close {
        Some((Seq::empty(), j))
    } else {
        match parse_expr_at(s, j) {
            Some((e, k0)) => {
                let k = if j < k0 && k0 <= s.len() {
                    k0
                } else {
                    j + 1
                };
                if k < s.len() && s[k] == ',' {
                    match parse_members_at(s, k + 1, close) {
                        Some((rest, m)) => Some((seq![e] + rest, m)),
                        None => None,
                    }
                } else {
                    Some((seq![e], k))
                }
            },
            None => None,
        }
    }
}

/// An assignment `name = expression`, or nothing.
pub open spec fn parse_stmt_at(s: Seq<char>, i: int) -> Option<((Seq<char>, GExpr), int)> {
    match parse_name_at(s, i) {
        Some((nm, j)) => if j < s.len() && s[j] == '=' {
            match parse_expr_at(s, j + 1) {
                Some((e, k)) => Some((((nm, e)), k)),
                None => None,
            }
        } else {
            None
        },
        None => None,
    }
}

/// As many assignments as can be read, and the position after them.
pub open spec fn parse_stmts_at(s: Seq<char>, i: int) -> (Seq<(Seq<char>, GExpr)>, int)
    decreases s.len() - i,
{
    match parse_stmt_at(s, i) {
        Some((st, k0)) => {
            let k = if i < k0 && k0 <= s.len() {
                k0
            } else {
                i + 1
            };
            let (rest, m) = parse_stmts_at(s, k);
            (seq![st] + rest, m)
        },
        None => (Seq::empty(), i),
    }
}

/// A whole input holding one expression.
pub open spec fn expr_of_text(s: Seq<char>) -> Option<GExpr> {
    match parse_expr_at(s, 0) {
        Some((e, k)) => if k == s.len() {
            Some(e)
        } else {
            None
        },
        None => None,
    }
}

/// A whole input holding one name.
pub open spec fn name_of_text(s: Seq<char>) -> Option<Seq<char>> {
    match parse_name_at(s, 0) {
        Some((nm, k)) => if k == s.len() {
            Some(nm)
        } else {
            None
        },
        None => None,
    }
}

/// A whole input holding one assignment.
pub open spec fn stmt_of_text(s: Seq<char>) -> Option<(Seq<char>, GExpr)> {
    match parse_stmt_at(s, 0) {
        Some((st, k)) => if k == s.len() {
            Some(st)
        } else {
            None
        },
        None => None,
    }
}

/// A whole input holding a sequence of assignments.
pub open spec fn stmts_of_text(s: Seq<char>) -> Option<Seq<(Seq<char>, GExpr)>> {
    let (ss, k) = parse_stmts_at(s, 0);
    if k == s.len() {
        Some(ss)
    } else {
        None
    }
}

/// A whole input holding a program: assignments, then one expression.
pub open spec fn ret_of_text(s: Seq<char>) -> Option<(Seq<(Seq<char>, GExpr)>, GExpr)> {
    let (ss, k) = parse_stmts_at(s, 0);
    match parse_expr_at(s, k) {
        Some((e, m)) => if m == s.len() {
            Some((ss, e))
        } else {
            None
        },
        None => None,
    }
}

// ---------------------------------------------------------------------------
// Executable parsers.
// ---------------------------------------------------------------------------
fn skip_spaces_x(s: &str, i: usize) -> (r: usize)
    requires
        i <= s@.len(),
    ensures
        r as int == skip_spaces(s@, i as int),
        i <= r <= s@.len(),
{
    proof {
        lemma_skip_spaces(s@, i as int);
    }
    let n = s.unicode_len();
    let mut r = i;
    while r < n && space_at(s, r)
        invariant
            i <= r <= n == s@.len(),
            skip_spaces(s@, i as int) == skip_spaces(s@, r as int),
        decreases n - r,
    {
        r += 1;
    }
    proof {
        assert(skip_spaces(s@, r as int) == r as int);
    }
    r
}

fn space_at(s: &str, r: usize) -> (b: bool)
    requires
        r < s@.len(),
    ensures
        b == is_space(s@[r as int]),
{
    let c = s.get_char(r);
    c == ' ' || c == '\n' || c == '\t' || c == '\r'
}

proof fn lemma_word_end_chars(s: Seq<char>, i: int)
    requires
        0 <= i <= s.len(),
    ensures
        i <= word_end(s, i) <= s.len(),
        forall|p: int| i <= p < word_end(s, i) ==> is_word_char(#[trigger] s[p]),
    decreases s.len() - i,
{
    if i < s.len() && is_word_char(s[i]) {
        lemma_word_end_chars(s, i + 1);
    }
}

fn word_end_x(s: &str, i: usize) -> (r: usize)
    requires
        i <= s@.len(),
    ensures
        r as int == word_end(s@, i as int),
        i <= r <= s@.len(),
{
    proof {
        lemma_word_end(s@, i as int);
    }
    let n = s.unicode_len();
    let mut r = i;
    while r < n && word_char_at(s, r)
        invariant
            i <= r <= n == s@.len(),
            word_end(s@, i as int) == word_end(s@, r as int),
        decreases n - r,
    {
        r += 1;
    }
    proof {
        assert(word_end(s@, r as int) == r as int);
    }
    r
}

fn word_char_at(s: &str, r: usize) -> (b: bool)
    requires
        r < s@.len(),
    ensures
        b == is_word_char(s@[r as int]),
{
    let c = s.get_char(r);
    ('a' <= c && c <= 'z') || ('A' <= c && c <= 'Z') || ('0' <= c && c <= '9')
}

fn parse_name_x(s: &str, i: usize) -> (r: Option<(Node, usize)>)
    requires
        i <= s@.len(),
    ensures
        match r {
            Some(p) => parse_name_at(s@, i as int) == Some((p.0@, p.1 as int)) && i < p.1
                <= s@.len(),
            None => parse_name_at(s@, i as int) is None,
        },
{
    let n = s.unicode_len();
    let j = skip_spaces_x(s, i);
    if j < n {
        let c = s.get_char(j);
        if ('a' <= c && c <= 'z') || ('A' <= c && c <= 'Z') {
            let k = word_end_x(s, j);
            proof {
                lemma_word_end_chars(s@, j as int);
                assert(is_word_char(s@[j as int]));
                assert(word_end(s@, j as int) == word_end(s@, j + 1));
                lemma_word_end(s@, j + 1);
                assert(k > j);
            }
            let text = s.substring_char(j, k).to_owned();
            proof {
                assert(text@ == s@.subrange(j as int, k as int));
                assert(crate::valid_name(text@)) by {
                    assert(text@[0] == s@[j as int]);
                    assert forall|q: int| 1 <= q < text@.len() implies is_word_char(
                        #[trigger] text@[q],
                    ) by {
                        assert(text@[q] == s@[j + q]);
                    }
                }
            }
            let node = Node::new(text).unwrap();
            let m = skip_spaces_x(s, k);
            Some((node, m))
        } else {
            None
        }
    } else {
        None
    }
}

fn parse_expr_x(s: &str, i: usize) -> (r: Option<(Expr, usize)>)
    requires
        i <= s@.len(),
    ensures
        match r {
            Some(p) => parse_expr_at(s@, i as int) == Some((p.0.model(), p.1 as int)) && i < p.1
                <= s@.len(),
            None => parse_expr_at(s@, i as int) is None,
        },
    decreases s@.len() - i, 0int,
{
    let n = s.unicode_len();
    let j = skip_spaces_x(s, i);
    if j < n && s.get_char(j) == '{' {
        match parse_members_x(s, j + 1, '}') {
            Some((ms, k)) => {
                if k < n && s.get_char(k) == '}' {
                    let m = skip_spaces_x(s, k + 1);
                    Some((Expr::Connected(ms), m))
                } else {
                    None
                }
            },
            None => None,
        }
    } else if j < n && s.get_char(j) == '[' {
        match parse_members_x(s, j + 1, ']') {
            Some((ms, k)) => {
                if k < n && s.get_char(k) == ']' {
                    let m = skip_spaces_x(s, k + 1);
                    Some((Expr::Disconnected(ms), m))
                } else {
                    None
                }
            },
            None => None,
        }
    } else {
        match parse_name_x(s, i) {
            Some((node, k)) => Some((Expr::Node(node), k)),
            None => None,
        }
    }
}

fn parse_members_x(s: &str, i: usize, close: char) -> (r: Option<(Vec<Expr>, usize)>)
    requires
        i <= s@.len(),
    ensures
        match r {
            Some(p) => parse_members_at(s@, i as int, close) == Some(
                (crate::model_all(p.0@), p.1 as int),
            ) && i <= p.1 <= s@.len(),
            None => parse_members_at(s@, i as int, close) is None,
        },
    decreases s@.len() - i, 1int,
{
    let n = s.unicode_len();
    let j = skip_spaces_x(s, i);
    if j < n && s.get_char(j) == close {
        let empty: Vec<Expr> = Vec::new();
        proof {
            assert(crate::model_all(empty@) =~= Seq::<GExpr>::empty());
        }
        Some((empty, j))
    } else {
        match parse_expr_x(s, j) {
            Some((e, k)) => {
                proof {
                    assert(k as int == (if (j as int) < (k as int) && k as int <= s@.len() {
                        k as int
                    } else {
                        j + 1
                    }));
                }
                if k < n && s.get_char(k) == ',' {
                    match parse_members_x(s, k + 1, close) {
                        Some((rest, m)) => {
                            let mut v: Vec<Expr> = Vec::new();
                            v.push(e);
                            let mut rest = rest;
                            let ghost erest = rest@;
                            let ghost efirst = v@;
                            v.append(&mut rest);
                            proof {
                                crate::lemma_model_all(v@);
                                crate::lemma_model_all(erest);
                                crate::lemma_model_all(efirst);
                                assert(v@ =~= efirst + erest);
                                assert(crate::model_all(v@) =~= seq![efirst[0].model()]
                                    + crate::model_all(erest));
                            }
                            Some((v, m))
                        },
                        None => None,
                    }
                } else {
                    let mut v: Vec<Expr> = Vec::new();
                    v.push(e);
                    proof {
                        crate::lemma_model_all(v@);
                        assert(crate::model_all(v@) =~= seq![v@[0].model()]);
                    }
                    Some((v, k))
                }
            },
            None => None,
        }
    }
}

fn parse_stmt_x(s: &str, i: usize) -> (r: Option<(Stmt, usize)>)
    requires
        i <= s@.len(),
    ensures
        match r {
            Some(p) => parse_stmt_at(s@, i as int) == Some(
                ((p.0.name_model(), p.0.expr_model()), p.1 as int),
            ) && i < p.1 <= s@.len(),
            None => parse_stmt_at(s@, i as int) is None,
        },
{
    let n = s.unicode_len();
    match parse_name_x(s, i) {
        Some((node, j)) => {
            if j < n && s.get_char(j) == '=' {
                match parse_expr_x(s, j + 1) {
                    Some((e, k)) => Some((Stmt::Assign(node, e), k)),
                    None => None,
                }
            } else {
                None
            }
        },
        None => None,
    }
}

fn parse_stmts_x(s: &str, i: usize) -> (r: (Vec<Stmt>, usize))
    requires
        i <= s@.len(),
    ensures
        parse_stmts_at(s@, i as int) == (crate::resolve::smodel_all(r.0@), r.1 as int),
        i <= r.1 <= s@.len(),
    decreases s@.len() - i,
{
    match parse_stmt_x(s, i) {
        Some((st, k)) => {
            proof {
                assert(k as int == (if (i as int) < (k as int) && k as int <= s@.len() {
                    k as int
                } else {
                    i + 1
                }));
            }
            let (rest, m) = parse_stmts_x(s, k);
            let mut v: Vec<Stmt> = Vec::new();
            v.push(st);
            let mut rest = rest;
            let ghost erest = rest@;
            let ghost efirst = v@;
            v.append(&mut rest);
            proof {
                crate::resolve::lemma_smodel_all(v@);
                crate::resolve::lemma_smodel_all(erest);
                crate::resolve::lemma_smodel_all(efirst);
                assert(v@ =~= efirst + erest);
                let lhs = crate::resolve::smodel_all(v@);
                let rhs = seq![(efirst[0].name_model(), efirst[0].expr_model())]
                    + crate::resolve::smodel_all(erest);
                assert forall|q: int| 0 <= q < lhs.len() implies lhs[q] == rhs[q] by {
                    assert(lhs[q] == (v@[q].name_model(), v@[q].expr_model()));
                    if q == 0 {
                        assert(v@[0] == efirst[0]);
                    } else {
                        assert(v@[q] == erest[q - 1]);
                        assert(crate::resolve::smodel_all(erest)[q - 1] == (erest[q
                            - 1].name_model(), erest[q - 1].expr_model()));
                    }
                }
                assert(lhs =~= rhs);
            }
            (v, m)
        },
        None => {
            let v: Vec<Stmt> = Vec::new();
            proof {
                assert(crate::resolve::smodel_all(v@) =~= Seq::<(Seq<char>, GExpr)>::empty());
            }
            (v, i)
        },
    }
}

/// Parsing for syntax elements.
pub trait Parse: Sized {
    fn parse(input: &str) -> Option<Self>;
}

impl Node {
    /// Parse a node name; the whole input must be one name with optional
    /// surrounding whitespace.
    pub fn parse(input: &str) -> (r: Option<Node>)
        ensures
            match r {
                Some(n) => name_of_text(input@) == Some(n@),
                None => name_of_text(input@) is None,
            },
    {
        match parse_name_x(input, 0) {
            Some((node, k)) => {
                if k == input.unicode_len() {
                    Some(node)
                } else {
                    None
                }
            },
            None => None,
        }
    }
}

impl Expr {
    /// Parse an expression; the whole input must be one expression with
    /// optional surrounding whitespace.
    pub fn parse(input: &str) -> (r: Option<Expr>)
        ensures
            match r {
                Some(e) => expr_of_text(input@) == Some(e.model()),
                None => expr_of_text(input@) is None,
            },
    {
        match parse_expr_x(input, 0) {
            Some((e, k)) => {
                if k == input.unicode_len() {
                    Some(e)
                } else {
                    None
                }
            },
            None => None,
        }
    }
}

impl Stmt {
    /// Parse an assignment; the whole input must be one assignment.
    pub fn parse(input: &str) -> (r: Option<Stmt>)
        ensures
            match r {
                Some(st) => stmt_of_text(input@) == Some((st.name_model(), st.expr_model())),
                None => stmt_of_text(input@) is None,
            },
    {
        match parse_stmt_x(input, 0) {
            Some((st, k)) => {
                if k == input.unicode_len() {
                    Some(st)
                } else {
                    None
                }
            },
            None => None,
        }
    }
}

/// Parse a sequence of assignments; the whole input must consist of
/// assignments.
pub fn parse_stmt_seq(input: &str) -> (r: Option<Vec<Stmt>>)
    ensures
        match r {
            Some(v) => stmts_of_text(input@) == Some(crate::resolve::smodel_all(v@)),
            None => stmts_of_text(input@) is None,
        },
{
    let (v, k) = parse_stmts_x(input, 0);
    if k == input.unicode_len() {
        Some(v)
    } else {
        None
    }
}

impl Ret {
    /// Parse a program: assignments followed by a final expression.
    pub fn parse(input: &str) -> (r: Option<Ret>)
        ensures
            match r {
                Some(ret) => ret_of_text(input@) == Some(
                    (crate::resolve::smodel_all(ret.0@), ret.1.model()),
                ),
                None => ret_of_text(input@) is None,
            },
    {
        let (v, k) = parse_stmts_x(input, 0);
        match parse_expr_x(input, k) {
            Some((e, m)) => {
                if m == input.unicode_len() {
                    Some(Ret(v, e))
                } else {
                    None
                }
            },
            None => None,
        }
    }
}

impl Parse for Node {
    fn parse(input: &str) -> Option<Node> {
        Node::parse(input)
    }
}

impl Parse for Expr {
    fn parse(input: &str) -> Option<Expr> {
        Expr::parse(input)
    }
}

impl Parse for Stmt {
    fn parse(input: &str) -> Option<Stmt> {
        Stmt::parse(input)
    }
}

impl Parse for Vec<Stmt> {
    fn parse(input: &str) -> Option<Vec<Stmt>> {
        parse_stmt_seq(input)
    }
}

impl Parse for Ret {
    fn parse(input: &str) -> Option<Ret> {
        Ret::parse(input)
    }
}

} // verus!
