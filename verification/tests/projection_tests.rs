//! Node and edge projection, and canonical text rendering.

use grapl::{Expr, Node, Ret, Stmt};

fn n(name: &str) -> Node {
    Node::new(name.to_string()).unwrap()
}

fn leaf(name: &str) -> Expr {
    Expr::Node(n(name))
}

fn conn(members: Vec<Expr>) -> Expr {
    Expr::Connected(members)
}

fn disc(members: Vec<Expr>) -> Expr {
    Expr::Disconnected(members)
}

#[test]
fn nodes_expr() {
    assert_eq!(
        conn(vec![leaf("A"), disc(vec![leaf("B"), leaf("C")]), leaf("D")]).nodes(),
        vec![n("A"), n("B"), n("C"), n("D")]
    );
    assert_eq!(
        disc(vec![
            conn(vec![leaf("A"), leaf("B")]),
            conn(vec![leaf("B"), leaf("C")]),
            conn(vec![leaf("C"), leaf("D")]),
            conn(vec![leaf("D"), leaf("A")]),
        ])
        .nodes(),
        vec![n("A"), n("B"), n("C"), n("D")]
    );
}

#[test]
fn edges_expr() {
    assert_eq!(
        conn(vec![leaf("A"), disc(vec![leaf("B"), leaf("C")]), leaf("D")]).edges(),
        vec![
            (n("A"), n("B")),
            (n("A"), n("C")),
            (n("A"), n("D")),
            (n("B"), n("A")),
            (n("B"), n("D")),
            (n("C"), n("A")),
            (n("C"), n("D")),
            (n("D"), n("A")),
            (n("D"), n("B")),
            (n("D"), n("C")),
        ]
    );
}

#[test]
fn contains_node_expr() {
    assert!(
        conn(vec![
            leaf("A"),
            conn(vec![leaf("B"), disc(vec![leaf("C"), leaf("D")])]),
            conn(vec![leaf("E"), leaf("F")]),
        ])
        .contains_node(&n("C"))
    );
}

#[test]
fn edges_of_leaf_is_empty() {
    assert_eq!(leaf("A").edges(), vec![]);
    assert_eq!(disc(vec![]).edges(), vec![]);
}

#[test]
fn nodes_edges_normalize_invariant() {
    let e = conn(vec![
        leaf("A"),
        disc(vec![conn(vec![leaf("B"), leaf("C")]), leaf("D")]),
        leaf("E"),
    ]);
    let normalized = e.normalize();
    assert_eq!(e.nodes(), normalized.nodes());
    assert_eq!(e.edges(), normalized.edges());
}

#[test]
fn node_names_validated() {
    assert!(Node::new(String::new()).is_none());
    assert!(Node::new("1".to_string()).is_none());
    assert!(Node::new("a b".to_string()).is_none());
    assert!(Node::new("G1".to_string()).is_some());
    assert_eq!(n("A").name(), "A");
}

#[test]
fn display_expr() {
    assert_eq!(
        conn(vec![
            leaf("A"),
            conn(vec![leaf("B"), disc(vec![leaf("C"), leaf("D")])]),
        ])
        .to_text(),
        "[{A, B, C}, {A, B, D}]"
    );
}


#[test]
fn display_empty_groups() {
    assert_eq!(conn(vec![]).to_text(), "[]");
    assert_eq!(disc(vec![]).to_text(), "[]");
}
