//! Normalization behaviour on concrete expressions.

use grapl::{Expr, Node, Ret, Stmt};

fn n(name: &str) -> Node {
    Node::new(name.to_string()).unwrap()
}

fn leaf(name: &str) -> Expr {
    Expr::Node(n(name))
}

fn conn(members: Vec<Expr>) -> Expr {
    Expr::Connected(members)
}

fn disc(members: Vec<Expr>) -> Expr {
    Expr::Disconnected(members)
}

#[test]
fn normalize_node() {
    assert_eq!(leaf("A").normalize(), leaf("A"));
    assert_eq!(leaf("A").normalize(), leaf("A"));
}

#[test]
fn normalize_empty_expr() {
    assert_eq!(disc(vec![]).normalize(), disc(vec![]));
    assert_eq!(conn(vec![]).normalize(), disc(vec![]));
}

#[test]
fn dedup_expr() {
    assert_eq!(leaf("A").dedup(), leaf("A"));
    assert_eq!(disc(vec![]).dedup(), disc(vec![]));
    assert_eq!(conn(vec![]).dedup(), conn(vec![]));
    assert_eq!(conn(vec![leaf("A"), leaf("A")]).dedup(), conn(vec![leaf("A")]));
    assert_eq!(
        conn(vec![leaf("A"), leaf("A"), leaf("B")]).dedup(),
        conn(vec![leaf("A"), leaf("B")])
    );
    assert_eq!(
        conn(vec![conn(vec![leaf("A")]), conn(vec![leaf("A")])]).dedup(),
        conn(vec![conn(vec![leaf("A")])])
    );
    assert_eq!(
        conn(vec![
            conn(vec![leaf("A"), leaf("B")]),
            conn(vec![leaf("A"), leaf("B")]),
        ])
        .dedup(),
        conn(vec![conn(vec![leaf("A"), leaf("B")])])
    );
    assert_eq!(
        conn(vec![
            conn(vec![leaf("A"), leaf("B")]),
            conn(vec![leaf("A"), leaf("B"), leaf("C")]),
        ])
        .dedup(),
        conn(vec![conn(vec![leaf("A"), leaf("B"), leaf("C")])])
    );
    assert_eq!(
        conn(vec![
            conn(vec![leaf("A"), leaf("B")]),
            conn(vec![leaf("A"), leaf("B"), leaf("C")]),
            leaf("A"),
            conn(vec![leaf("C"), leaf("D")]),
            conn(vec![leaf("C"), leaf("D"), leaf("E")]),
        ])
        .dedup(),
        conn(vec![
            conn(vec![leaf("A"), leaf("B"), leaf("C")]),
            conn(vec![leaf("C"), leaf("D"), leaf("E")]),
        ])
    );
    assert_eq!(
        disc(vec![leaf("A"), conn(vec![leaf("A"), leaf("B")])]).dedup(),
        disc(vec![conn(vec![leaf("A"), leaf("B")])])
    );
    assert_eq!(
        disc(vec![
            conn(vec![leaf("A"), leaf("B")]),
            conn(vec![leaf("A"), leaf("B"), leaf("C")]),
            leaf("A"),
            conn(vec![leaf("C"), leaf("D")]),
            conn(vec![leaf("C"), leaf("D"), leaf("E")]),
        ])
        .dedup(),
        disc(vec![
            conn(vec![leaf("A"), leaf("B"), leaf("C")]),
            conn(vec![leaf("C"), leaf("D"), leaf("E")]),
        ])
    );
}

#[test]
fn normalize_nested_expr() {
    assert_eq!(conn(vec![leaf("A")]).normalize(), leaf("A"));
    assert_eq!(conn(vec![conn(vec![leaf("A")])]).normalize(), leaf("A"));
    assert_eq!(disc(vec![leaf("A")]).normalize(), leaf("A"));
    assert_eq!(disc(vec![disc(vec![leaf("A")])]).normalize(), leaf("A"));
    assert_eq!(conn(vec![disc(vec![leaf("A")])]).normalize(), leaf("A"));
    assert_eq!(
        disc(vec![
            leaf("A"),
            disc(vec![conn(vec![leaf("B"), leaf("C")])]),
            leaf("D"),
        ])
        .normalize(),
        disc(vec![leaf("A"), conn(vec![leaf("B"), leaf("C")]), leaf("D")])
    );
    assert_eq!(
        disc(vec![leaf("A"), disc(vec![leaf("B"), leaf("C")]), leaf("D")]).normalize(),
        disc(vec![leaf("A"), leaf("B"), leaf("C"), leaf("D")])
    );
}

#[test]
fn normalize_expr() {
    assert_eq!(
        conn(vec![leaf("A"), disc(vec![leaf("B")])]).normalize(),
        conn(vec![leaf("A"), leaf("B")])
    );
    assert_eq!(
        disc(vec![leaf("A"), conn(vec![leaf("B")])]).normalize(),
        disc(vec![leaf("A"), leaf("B")])
    );
    assert_eq!(
        conn(vec![leaf("A"), disc(vec![leaf("B"), leaf("C")])]).normalize(),
        disc(vec![
            conn(vec![leaf("A"), leaf("B")]),
            conn(vec![leaf("A"), leaf("C")]),
        ])
    );
    assert_eq!(
        conn(vec![
            conn(vec![leaf("A"), leaf("B")]),
            disc(vec![leaf("C"), leaf("D")]),
        ])
        .normalize(),
        disc(vec![
            conn(vec![leaf("A"), leaf("B"), leaf("C")]),
            conn(vec![leaf("A"), leaf("B"), leaf("D")]),
        ])
    );
    assert_eq!(
        conn(vec![
            disc(vec![leaf("A"), leaf("B")]),
            disc(vec![leaf("C"), leaf("D")]),
        ])
        .normalize(),
        disc(vec![
            conn(vec![leaf("A"), leaf("C")]),
            conn(vec![leaf("A"), leaf("D")]),
            conn(vec![leaf("B"), leaf("C")]),
            conn(vec![leaf("B"), leaf("D")]),
        ])
    );
    assert_eq!(
        conn(vec![
            leaf("A"),
            conn(vec![leaf("B"), disc(vec![leaf("C"), leaf("D")])]),
        ])
        .normalize(),
        disc(vec![
            conn(vec![leaf("A"), leaf("B"), leaf("C")]),
            conn(vec![leaf("A"), leaf("B"), leaf("D")]),
        ])
    );
    assert_eq!(
        conn(vec![leaf("A"), disc(vec![leaf("B"), leaf("C")]), leaf("D")]).normalize(),
        disc(vec![
            conn(vec![leaf("A"), leaf("B"), leaf("D")]),
            conn(vec![leaf("A"), leaf("C"), leaf("D")]),
        ])
    );
    assert_eq!(
        disc(vec![leaf("A"), conn(vec![leaf("B"), leaf("C")]), leaf("D")]).normalize(),
        disc(vec![leaf("A"), conn(vec![leaf("B"), leaf("C")]), leaf("D")])
    );
    assert_eq!(
        conn(vec![
            leaf("A"),
            disc(vec![conn(vec![leaf("B"), leaf("C")]), leaf("D")]),
            leaf("E"),
        ])
        .normalize(),
        disc(vec![
            conn(vec![leaf("A"), leaf("B"), leaf("C"), leaf("E")]),
            conn(vec![leaf("A"), leaf("D"), leaf("E")]),
        ])
    );
    assert_eq!(
        conn(vec![
            leaf("A"),
            disc(vec![conn(vec![leaf("B"), leaf("C")]), leaf("D")]),
            leaf("E"),
            disc(vec![leaf("F"), leaf("G")]),
        ])
        .normalize(),
        disc(vec![
            conn(vec![leaf("A"), leaf("B"), leaf("C"), leaf("E"), leaf("F")]),
            conn(vec![leaf("A"), leaf("B"), leaf("C"), leaf("E"), leaf("G")]),
            conn(vec![leaf("A"), leaf("D"), leaf("E"), leaf("F")]),
            conn(vec![leaf("A"), leaf("D"), leaf("E"), leaf("G")]),
        ])
    );
    assert_eq!(
        disc(vec![
            leaf("A"),
            conn(vec![leaf("A"), leaf("B")]),
            disc(vec![leaf("A")]),
        ])
        .normalize(),
        conn(vec![leaf("A"), leaf("B")])
    );
    assert_eq!(
        conn(vec![
            conn(vec![leaf("A"), leaf("B")]),
            conn(vec![leaf("A"), leaf("B"), leaf("C")]),
            leaf("A"),
            conn(vec![leaf("C"), leaf("D")]),
            conn(vec![leaf("C"), leaf("D"), leaf("E")]),
        ])
        .normalize(),
        conn(vec![leaf("A"), leaf("B"), leaf("C"), leaf("D"), leaf("E")])
    );
}

#[test]
fn disconnected_dups() {
    // a component whose node set is contained in a sibling's is dropped
    // during normalization
    assert_eq!(
        disc(vec![
            leaf("N"),
            disc(vec![
                leaf("I"),
                conn(vec![leaf("N"), disc(vec![leaf("J")])]),
            ]),
        ])
        .normalize(),
        disc(vec![leaf("I"), conn(vec![leaf("N"), leaf("J")])])
    );
    assert_eq!(
        disc(vec![leaf("N"), leaf("I"), conn(vec![leaf("N"), leaf("J")])]).dedup(),
        disc(vec![leaf("I"), conn(vec![leaf("N"), leaf("J")])])
    );
}

#[test]
fn normalize_stmts() {
    let stmts = vec![
        Stmt::Assign(
            n("G1"),
            conn(vec![leaf("A"), disc(vec![leaf("B"), leaf("C")])]),
        ),
        Stmt::Assign(
            n("G2"),
            disc(vec![disc(vec![conn(vec![conn(vec![leaf("D")])])])]),
        ),
    ];
    let normalized: Vec<Stmt> = stmts.iter().map(|s| s.normalize()).collect();
    assert_eq!(
        normalized,
        vec![
            Stmt::Assign(
                n("G1"),
                disc(vec![
                    conn(vec![leaf("A"), leaf("B")]),
                    conn(vec![leaf("A"), leaf("C")]),
                ]),
            ),
            Stmt::Assign(n("G2"), leaf("D")),
        ]
    );
}

#[test]
fn normalize_ret() {
    let ret = Ret(
        vec![Stmt::Assign(
            n("G1"),
            conn(vec![leaf("A"), disc(vec![leaf("B"), leaf("C")])]),
        )],
        disc(vec![disc(vec![conn(vec![conn(vec![leaf("D")])])])]),
    );
    assert_eq!(
        ret.normalize(),
        Ret(
            vec![Stmt::Assign(
                n("G1"),
                disc(vec![
                    conn(vec![leaf("A"), leaf("B")]),
                    conn(vec![leaf("A"), leaf("C")]),
                ]),
            )],
            leaf("D"),
        )
    );
}

#[test]
fn normalize_idempotent_cases() {
    let samples = vec![
        leaf("A"),
        conn(vec![]),
        disc(vec![]),
        conn(vec![leaf("A"), disc(vec![leaf("B"), leaf("C")]), leaf("D")]),
        conn(vec![
            leaf("A"),
            disc(vec![conn(vec![leaf("B"), leaf("C")]), leaf("D")]),
            leaf("E"),
        ]),
        disc(vec![leaf("N"), disc(vec![leaf("I"), conn(vec![leaf("N"), leaf("J")])])]),
    ];
    for e in samples {
        let once = e.normalize();
        let twice = once.normalize();
        assert_eq!(twice, once);
    }
}

#[test]
fn normalize_empty_member_annihilates() {
    // a disconnected group with no members admits no combination: the
    // cross product of a connected group containing one is empty
    assert_eq!(
        conn(vec![leaf("A"), disc(vec![])]).normalize(),
        disc(vec![])
    );
    assert_eq!(
        conn(vec![leaf("A"), conn(vec![])]).normalize(),
        disc(vec![])
    );
    // an empty disconnected member seen before anything else leaves the
    // accumulation to restart with the remaining members
    assert_eq!(conn(vec![disc(vec![]), leaf("A")]).normalize(), leaf("A"));
}
