//! Randomized checks of the projection invariants.

use grapl::{Expr, Node};

const ITERATIONS: usize = 100;

fn generate_node(max_len: usize) -> Node {
    let alphabet: Vec<char> = ('a'..='z').chain('A'..='Z').chain('0'..='9').collect();
    let len: usize = rand::random_range(0..=max_len);
    let mut name = String::from("N");
    for _ in 0..len {
        name.push(alphabet[rand::random_range(0..alphabet.len())]);
    }
    Node::new(name).expect("invalid node generated")
}

fn generate_delim_expr(
    connected: bool,
    node_max_len: usize,
    depth: usize,
    cweight: usize,
    dweight: usize,
) -> Expr {
    let len: usize = rand::random_range(0..=2);
    let mut members = vec![Expr::Node(generate_node(node_max_len))];
    for _ in 0..len {
        let inner = if depth == 0 {
            Expr::Node(generate_node(node_max_len))
        } else {
            generate_expr(node_max_len, depth - 1, cweight, dweight)
        };
        members.push(inner);
    }
    if connected {
        Expr::Connected(members)
    } else {
        Expr::Disconnected(members)
    }
}

fn generate_expr(node_max_len: usize, depth: usize, cweight: usize, dweight: usize) -> Expr {
    let total: usize = 1 + cweight + dweight;
    let choice: usize = rand::random_range(0..total);
    if choice < 1 {
        Expr::Node(generate_node(node_max_len))
    } else if choice < 1 + cweight {
        generate_delim_expr(true, node_max_len, depth, cweight, dweight)
    } else {
        generate_delim_expr(false, node_max_len, depth, cweight, dweight)
    }
}

#[test]
fn random_nodes_and_edges() {
    for _ in 0..ITERATIONS {
        let depth: usize = rand::random_range(0..5);
        let expr = generate_expr(25, depth, 10, 10);
        let normalized = expr.normalize();
        assert_eq!(expr.nodes(), normalized.nodes());
        assert_eq!(expr.edges(), normalized.edges());
    }
}

#[test]
fn random_normalize_idempotent() {
    for _ in 0..ITERATIONS {
        let depth: usize = rand::random_range(0..5);
        let expr = generate_expr(25, depth, 10, 10);
        let once = expr.normalize();
        let twice = once.normalize();
        assert_eq!(once, twice);
        assert_eq!(once.to_text(), expr.to_text());
    }
}
