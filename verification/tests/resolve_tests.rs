//! Resolution of named graphs under the shadowing and recursion policies.

use grapl::resolve::{Config, Env, Error};
use grapl::{Expr, Node, Resolve, Ret, Stmt};

fn n(name: &str) -> Node {
    Node::new(name.to_string()).unwrap()
}

fn leaf(name: &str) -> Expr {
    Expr::Node(n(name))
}

fn conn(members: Vec<Expr>) -> Expr {
    Expr::Connected(members)
}

fn disc(members: Vec<Expr>) -> Expr {
    Expr::Disconnected(members)
}

#[test]
fn resolve_expr() {
    let config = Config::default();
    let mut env = Env::new(&config);
    env.insert(n("A"), leaf("B")).unwrap();

    assert_eq!(leaf("A").resolve(&mut env).unwrap(), leaf("B"));
}

#[test]
fn resolve_stmts() {
    let config = Config::default();
    let mut env = Env::new(&config);

    let stmts = vec![
        Stmt::Assign(n("G1"), disc(vec![leaf("A"), leaf("B")])),
        Stmt::Assign(n("G2"), conn(vec![leaf("X"), leaf("G1")])),
    ];
    assert_eq!(
        stmts.resolve(&mut env).unwrap(),
        vec![
            Stmt::Assign(n("G1"), disc(vec![leaf("A"), leaf("B")])),
            Stmt::Assign(
                n("G2"),
                conn(vec![leaf("X"), disc(vec![leaf("A"), leaf("B")])]),
            ),
        ]
    );
}

#[test]
fn resolve_ret() {
    let config = Config::default();
    let mut env = Env::new(&config);

    let ret = Ret(vec![Stmt::Assign(n("G"), leaf("A"))], leaf("A"));
    assert_eq!(ret.resolve(&mut env).unwrap(), leaf("A"));
}

#[test]
fn resolve_shadowing() {
    let config = Config::default().with_shadowing();
    let mut env = Env::new(&config);

    let stmts = vec![
        Stmt::Assign(n("G1"), leaf("A")),
        Stmt::Assign(n("G1"), leaf("B")),
        Stmt::Assign(n("G2"), leaf("G1")),
    ];
    assert_eq!(
        stmts.resolve(&mut env).unwrap(),
        vec![
            Stmt::Assign(n("G1"), leaf("A")),
            Stmt::Assign(n("G1"), leaf("B")),
            Stmt::Assign(n("G2"), leaf("B")),
        ]
    );
}

#[test]
fn resolve_apparent_recursion_shadowing() {
    let config = Config::default().with_shadowing();
    let mut env = Env::new(&config);

    let stmts = vec![
        Stmt::Assign(n("G1"), leaf("G2")),
        Stmt::Assign(n("G2"), leaf("G1")),
    ];
    assert_eq!(
        stmts.resolve(&mut env).unwrap(),
        vec![
            Stmt::Assign(n("G1"), leaf("G2")),
            Stmt::Assign(n("G2"), leaf("G2")),
        ]
    );
}

#[test]
fn shadowing_violation() {
    let config = Config::default();
    let mut env = Env::new(&config);

    let stmts = vec![
        Stmt::Assign(n("G1"), leaf("A")),
        Stmt::Assign(n("G1"), leaf("B")),
    ];
    assert_eq!(stmts.resolve(&mut env), Err(Error::Shadowing));
}

#[test]
fn recursion_violation() {
    let config = Config::default();
    let mut env = Env::new(&config);

    let stmt = Stmt::Assign(n("G"), conn(vec![leaf("G"), leaf("X")]));
    assert_eq!(stmt.resolve(&mut env), Err(Error::Recursion));
}

#[test]
fn failure_keeps_earlier_bindings() {
    let config = Config::default();
    let mut env = Env::new(&config);

    let stmts = vec![
        Stmt::Assign(n("G1"), leaf("A")),
        Stmt::Assign(n("G1"), leaf("B")),
    ];
    assert_eq!(stmts.resolve(&mut env), Err(Error::Shadowing));
    // the first binding survives the failed second statement
    assert_eq!(leaf("G1").resolve(&mut env).unwrap(), leaf("A"));
}

#[test]
fn lookup_unbound_is_identity() {
    let config = Config::default();
    let env = Env::new(&config);
    assert_eq!(env.lookup(&n("Z")), leaf("Z"));
}

#[test]
fn substitution_then_normalization() {
    let config = Config::default();
    let mut env = Env::new(&config);

    let ret = Ret(
        vec![Stmt::Assign(n("G1"), disc(vec![leaf("A"), leaf("B")]))],
        conn(vec![leaf("X"), leaf("G1")]),
    );
    let resolved = ret.resolve(&mut env).unwrap();
    assert_eq!(
        resolved,
        conn(vec![leaf("X"), disc(vec![leaf("A"), leaf("B")])])
    );
    assert_eq!(
        resolved.normalize(),
        disc(vec![
            conn(vec![leaf("X"), leaf("A")]),
            conn(vec![leaf("X"), leaf("B")]),
        ])
    );
}
