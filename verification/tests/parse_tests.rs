//! Parsing of the textual grammar.

use grapl::parse::{parse_stmt_seq, Parse};
use grapl::{Expr, Node, Ret, Stmt};

fn n(name: &str) -> Node {
    Node::new(name.to_string()).unwrap()
}

fn leaf(name: &str) -> Expr {
    Expr::Node(n(name))
}

fn conn(members: Vec<Expr>) -> Expr {
    Expr::Connected(members)
}

fn disc(members: Vec<Expr>) -> Expr {
    Expr::Disconnected(members)
}

#[test]
fn parse_node() {
    assert!(Node::parse("").is_none());
    assert!(Node::parse("1").is_none());
    assert_eq!(Node::parse("A"), Some(n("A")));
}

#[test]
fn display_node() {
    assert_eq!(Node::parse("A").unwrap().name(), "A");
    assert_eq!(Node::parse("  G ").unwrap().name(), "G");
}

#[test]
fn parse_expr() {
    assert_eq!(Expr::parse("{}"), Some(conn(vec![])));
    assert_eq!(Expr::parse("[]"), Some(disc(vec![])));
    assert_eq!(Expr::parse("{  A }"), Some(conn(vec![leaf("A")])));
    assert_eq!(
        Expr::parse("[A,  B,  ]"),
        Some(disc(vec![leaf("A"), leaf("B")]))
    );
    assert_eq!(
        Expr::parse(
            r#"
                        {A, [B, C]}
                "#
        ),
        Some(conn(vec![leaf("A"), disc(vec![leaf("B"), leaf("C")])]))
    );
    assert_eq!(
        Expr::parse("[{A,B},[C, D]]"),
        Some(disc(vec![
            conn(vec![leaf("A"), leaf("B")]),
            disc(vec![leaf("C"), leaf("D")]),
        ]))
    );
    assert_eq!(
        Expr::parse("{{A, B}, [C, D]}"),
        Some(conn(vec![
            conn(vec![leaf("A"), leaf("B")]),
            disc(vec![leaf("C"), leaf("D")]),
        ]))
    );
}

#[test]
fn parse_rejects_malformed() {
    assert!(Expr::parse("{A").is_none());
    assert!(Expr::parse("A}").is_none());
    assert!(Expr::parse("{A,, B}").is_none());
    assert!(Expr::parse("[A] B").is_none());
    assert!(Expr::parse("").is_none());
}

#[test]
fn parse_stmt() {
    assert!(Stmt::parse("").is_none());
    assert_eq!(parse_stmt_seq(""), Some(vec![]));
    assert_eq!(
        Stmt::parse("G = {A, B}"),
        Some(Stmt::Assign(n("G"), conn(vec![leaf("A"), leaf("B")])))
    );
    assert_eq!(
        parse_stmt_seq("G = {A, B}H = [C, D]"),
        Some(vec![
            Stmt::Assign(n("G"), conn(vec![leaf("A"), leaf("B")])),
            Stmt::Assign(n("H"), disc(vec![leaf("C"), leaf("D")])),
        ])
    );
    assert_eq!(
        parse_stmt_seq(
            r#"
                        G1 = {A, B}

                        G2 = {[G1, C], D}
                "#
        ),
        Some(vec![
            Stmt::Assign(n("G1"), conn(vec![leaf("A"), leaf("B")])),
            Stmt::Assign(
                n("G2"),
                conn(vec![disc(vec![leaf("G1"), leaf("C")]), leaf("D")]),
            ),
        ])
    );
}

#[test]
fn display_stmt() {
    assert_eq!(
        Stmt::parse("  G={A,[B,C]}").unwrap().to_text(),
        "G = [{A, B}, {A, C}]"
    );
}

#[test]
fn parse_ret() {
    assert_eq!(
        Ret::parse("{A, [C, D]}"),
        Some(Ret(
            vec![],
            conn(vec![leaf("A"), disc(vec![leaf("C"), leaf("D")])]),
        ))
    );
    assert_eq!(
        Ret::parse("G = {A, [C, D]} {G, B}"),
        Some(Ret(
            vec![Stmt::Assign(
                n("G"),
                conn(vec![leaf("A"), disc(vec![leaf("C"), leaf("D")])]),
            )],
            conn(vec![leaf("G"), leaf("B")]),
        ))
    );
    assert_eq!(
        Ret::parse(
            r#"
                        G = {A, B}

                        {G, [C, D]}
                "#
        ),
        Some(Ret(
            vec![Stmt::Assign(n("G"), conn(vec![leaf("A"), leaf("B")]))],
            conn(vec![leaf("G"), disc(vec![leaf("C"), leaf("D")])]),
        ))
    );
}

#[test]
fn display_ret() {
    assert_eq!(Ret::parse("  G=A B").unwrap().to_text(), "G = A\nB");
}
