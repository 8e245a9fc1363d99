use vstd::prelude::*;

use crate::amount::Fl;
use crate::graph::{Edge, Graph, Node};

verus! {

/// The character of decimal digit `d`.
pub open spec fn digit(d: int) -> char {
    if d == 0 {
        '0'
    } else if d == 1 {
        '1'
    } else if d == 2 {
        '2'
    } else if d == 3 {
        '3'
    } else if d == 4 {
        '4'
    } else if d == 5 {
        '5'
    } else if d == 6 {
        '6'
    } else if d == 7 {
        '7'
    } else if d == 8 {
        '8'
    } else {
        '9'
    }
}

/// The decimal writing of `n`.
pub open spec fn decimal(n: nat) -> Seq<char>
    decreases n,
{
    if n < 10 {
        seq![digit(n as int)]
    } else {
        decimal(n / 10).push(digit((n % 10) as int))
    }
}

/// The digits of a fraction of ten-thousandths `f` (below 10000), without
/// trailing zeros.
pub open spec fn fraction_digits(f: nat, width: nat) -> Seq<char>
    decreases width,
{
    if width == 0 || f == 0 {
        Seq::empty()
    } else {
        let p = pow10((width - 1) as nat);
        seq![digit((f / p) as int)] + fraction_digits(f % p, (width - 1) as nat)
    }
}

pub open spec fn pow10(e: nat) -> nat
    decreases e,
{
    if e == 0 {
        1
    } else {
        10 * pow10((e - 1) as nat)
    }
}

/// The magnitude of an amount's stored value.
pub open spec fn magnitude(x: Fl) -> nat {
    if x.0 < 0 {
        (-(x.0 as int)) as nat
    } else {
        x.0 as nat
    }
}

/// The sign written before an amount.
pub open spec fn sign(x: Fl) -> Seq<char> {
    if x.0 < 0 {
        seq!['-']
    } else {
        Seq::empty()
    }
}

/// An amount written out in full: its whole part, then its fraction without
/// trailing zeros, if any.
pub open spec fn amount_text(x: Fl) -> Seq<char> {
    let m = magnitude(x);
    let whole = sign(x) + decimal(m / 10000);
    if m % 10000 == 0 {
        whole
    } else {
        whole.push('.') + fraction_digits(m % 10000, 4)
    }
}

/// An amount rounded to tenths (halves away from zero) and written with one
/// decimal.
pub open spec fn tenths_text(x: Fl) -> Seq<char> {
    let t = (magnitude(x) + 500) / 1000;
    sign(x) + decimal(t / 10) + seq!['.', digit((t % 10) as int)]
}

/// The label word of a node.
pub open spec fn kind_word(n: Node) -> Seq<char> {
    match n {
        Node::Input { .. } => "Input"@,
        Node::Output { .. } => "Output"@,
        Node::Excess { .. } => "Output"@,
        Node::Recipe { .. } => "Recipe"@,
    }
}

/// How a node's identifier is written.
pub open spec fn id_text(n: Node) -> Seq<char> {
    match n {
        Node::Recipe { rid, .. } => "RecipeId("@ + decimal(rid.0 as nat) + ")"@,
        Node::Input { iid, .. } => "ItemId("@ + decimal(iid.0 as nat) + ")"@,
        Node::Output { iid, .. } => "ItemId("@ + decimal(iid.0 as nat) + ")"@,
        Node::Excess { iid, .. } => "ItemId("@ + decimal(iid.0 as nat) + ")"@,
    }
}

pub open spec fn node_amount(n: Node) -> Fl {
    match n {
        Node::Recipe { amount, .. } => amount,
        Node::Input { amount, .. } => amount,
        Node::Output { amount, .. } => amount,
        Node::Excess { amount, .. } => amount,
    }
}

/// The line describing node `n`, of index `i`.
pub open spec fn node_line(i: nat, n: Node) -> Seq<char> {
    "  "@ + decimal(i) + " [label=\""@ + kind_word(n) + " "@ + id_text(n) + " x"@ + amount_text(
        node_amount(n),
    ) + "\"];\n"@
}

/// The line describing edge `e`.
pub open spec fn edge_line(e: Edge) -> Seq<char> {
    "  "@ + decimal(e.from as nat) + " -> "@ + decimal(e.to as nat) + " [label=\"ItemId("@ + decimal(
        e.iid.0 as nat,
    ) + ") "@ + tenths_text(e.amount) + "/min\"];\n"@
}

/// The lines of the first `k` nodes.
pub open spec fn node_lines(nodes: Seq<Node>, k: nat) -> Seq<char>
    decreases k,
{
    if k == 0 {
        Seq::empty()
    } else {
        node_lines(nodes, (k - 1) as nat) + node_line((k - 1) as nat, nodes[k - 1])
    }
}

/// The lines of the first `k` edges.
pub open spec fn edge_lines(edges: Seq<Edge>, k: nat) -> Seq<char>
    decreases k,
{
    if k == 0 {
        Seq::empty()
    } else {
        edge_lines(edges, (k - 1) as nat) + edge_line(edges[k - 1])
    }
}

/// The graph in the DOT language of Graphviz.
pub open spec fn dot_text(nodes: Seq<Node>, edges: Seq<Edge>) -> Seq<char> {
    "digraph G {\n"@ + node_lines(nodes, nodes.len()) + edge_lines(edges, edges.len()) + "}\n"@
}

/// Calls `String::push` (std), which adds `c` at the end of `s`.
#[verifier::external_body]
fn push_char(s: &mut String, c: char)
    ensures
        final(s)@ == old(s)@.push(c),
{
    s.push(c);
}

fn digit_of(d: u64) -> (c: char)
    requires
        d < 10,
    ensures
        c == digit(d as int),
{
    if d == 0 {
        '0'
    } else if d == 1 {
        '1'
    } else if d == 2 {
        '2'
    } else if d == 3 {
        '3'
    } else if d == 4 {
        '4'
    } else if d == 5 {
        '5'
    } else if d == 6 {
        '6'
    } else if d == 7 {
        '7'
    } else if d == 8 {
        '8'
    } else {
        '9'
    }
}

/// Writes `n` in decimal at the end of `s`.
fn push_decimal(s: &mut String, n: u64)
    ensures
        final(s)@ == old(s)@ + decimal(n as nat),
    decreases n,
{
    if n >= 10 {
        push_decimal(s, n / 10);
    }
    push_char(s, digit_of(n % 10));
    proof {
        if n < 10 {
            assert(old(s)@ + decimal(n as nat) =~= old(s)@.push(digit(n as int)));
        } else {
            assert(old(s)@ + decimal(n as nat) =~= (old(s)@ + decimal((n / 10) as nat)).push(
                digit((n % 10) as int),
            ));
        }
    }
}

/// Writes the `width` leading digits of the fraction `f` at the end of `s`,
/// without trailing zeros.
fn push_fraction(s: &mut String, f: u64, width: u64)
    requires
        width <= 4,
        f < pow10(width as nat),
    ensures
        final(s)@ == old(s)@ + fraction_digits(f as nat, width as nat),
    decreases width,
{
    if width == 0 || f == 0 {
        assert(old(s)@ + fraction_digits(f as nat, width as nat) =~= old(s)@);
        return;
    }
    let p: u64 = if width == 4 {
        1000
    } else if width == 3 {
        100
    } else if width == 2 {
        10
    } else {
        1
    };
    assert(p == pow10((width - 1) as nat)) by {
        reveal_with_fuel(pow10, 5);
    }
    assert(f / p < 10) by (nonlinear_arith)
        requires
            f < 10 * p,
            p > 0,
    ;
    assert(f % p < pow10((width - 1) as nat));
    let ghost s0 = s@;
    push_char(s, digit_of(f / p));
    push_fraction(s, f % p, width - 1);
    assert(s@ =~= s0 + fraction_digits(f as nat, width as nat));
}

/// The stored value of `x` without its sign.
fn magnitude_of(x: Fl) -> (m: u64)
    ensures
        m == magnitude(x),
{
    if x.0 < 0 {
        let w: i128 = -(x.0 as i128);
        w as u64
    } else {
        x.0 as u64
    }
}

/// Writes `x` in full at the end of `s` (see `amount_text`).
fn push_amount(s: &mut String, x: Fl)
    ensures
        final(s)@ == old(s)@ + amount_text(x),
{
    let ghost s0 = s@;
    if x.0 < 0 {
        push_char(s, '-');
    }
    assert(s@ == s0 + sign(x));
    let m = magnitude_of(x);
    push_decimal(s, m / 10000);
    let f = m % 10000;
    if f != 0 {
        push_char(s, '.');
        assert(pow10(4) == 10000) by {
            reveal_with_fuel(pow10, 5);
        }
        push_fraction(s, f, 4);
    }
    assert(s@ =~= s0 + amount_text(x));
}

/// Writes `x` rounded to tenths at the end of `s` (see `tenths_text`).
fn push_tenths(s: &mut String, x: Fl)
    ensures
        final(s)@ == old(s)@ + tenths_text(x),
{
    let ghost s0 = s@;
    if x.0 < 0 {
        push_char(s, '-');
    }
    let m = magnitude_of(x);
    let t = (m + 500) / 1000;
    push_decimal(s, t / 10);
    push_char(s, '.');
    push_char(s, digit_of(t % 10));
    assert(s@ =~= s0 + tenths_text(x));
}

/// Writes the line of node `n`, of index `i`, at the end of `s`.
fn push_node_line(s: &mut String, i: usize, n: Node)
    ensures
        final(s)@ == old(s)@ + node_line(i as nat, n),
{
    let ghost s0 = s@;
    s.append("  ");
    push_decimal(s, i as u64);
    s.append(" [label=\"");
    let ghost s1 = s@;
    match n {
        Node::Input { .. } => s.append("Input"),
        Node::Output { .. } => s.append("Output"),
        Node::Excess { .. } => s.append("Output"),
        Node::Recipe { .. } => s.append("Recipe"),
    }
    assert(s@ == s1 + kind_word(n));
    s.append(" ");
    let ghost s2 = s@;
    let amount = match n {
        Node::Recipe { rid, amount } => {
            s.append("RecipeId(");
            push_decimal(s, rid.0 as u64);
            s.append(")");
            amount
        },
        Node::Input { iid, amount } => {
            s.append("ItemId(");
            push_decimal(s, iid.0 as u64);
            s.append(")");
            amount
        },
        Node::Output { iid, amount } => {
            s.append("ItemId(");
            push_decimal(s, iid.0 as u64);
            s.append(")");
            amount
        },
        Node::Excess { iid, amount } => {
            s.append("ItemId(");
            push_decimal(s, iid.0 as u64);
            s.append(")");
            amount
        },
    };
    assert(s@ =~= s2 + id_text(n));
    assert(amount == node_amount(n));
    s.append(" x");
    push_amount(s, amount);
    s.append("\"];\n");
    assert(s@ =~= s0 + node_line(i as nat, n));
}

/// Writes the line of edge `e` at the end of `s`.
fn push_edge_line(s: &mut String, e: Edge)
    ensures
        final(s)@ == old(s)@ + edge_line(e),
{
    let ghost s0 = s@;
    s.append("  ");
    push_decimal(s, e.from as u64);
    s.append(" -> ");
    push_decimal(s, e.to as u64);
    s.append(" [label=\"ItemId(");
    push_decimal(s, e.iid.0 as u64);
    s.append(") ");
    push_tenths(s, e.amount);
    s.append("/min\"];\n");
    assert(s@ =~= s0 + edge_line(e));
}

/// The graph of `nodes` and `edges` in the DOT language of Graphviz: one
/// labelled line per node, then one per edge.
pub fn to_dot(nodes: &[Node], edges: &[Edge]) -> (res: String)
    ensures
        res@ == dot_text(nodes@, edges@),
{
    let mut s = String::new();
    s.append("digraph G {\n");
    let ghost head = s@;
    let mut i: usize = 0;
    while i < nodes.len()
        invariant
            0 <= i <= nodes.len(),
            s@ == head + node_lines(nodes@, i as nat),
        decreases nodes.len() - i,
    {
        push_node_line(&mut s, i, nodes[i]);
        proof {
            assert(s@ =~= head + node_lines(nodes@, (i + 1) as nat));
        }
        i += 1;
    }
    let ghost mid = s@;
    let mut j: usize = 0;
    while j < edges.len()
        invariant
            0 <= j <= edges.len(),
            s@ == mid + edge_lines(edges@, j as nat),
        decreases edges.len() - j,
    {
        push_edge_line(&mut s, edges[j]);
        proof {
            assert(s@ =~= mid + edge_lines(edges@, (j + 1) as nat));
        }
        j += 1;
    }
    s.append("}\n");
    assert(s@ =~= dot_text(nodes@, edges@));
    s
}

impl Graph {
    /// The graph in the DOT language of Graphviz (see `dot_text`).
    pub fn to_dot(&self) -> (res: String)
        ensures
            res@ == dot_text(self.node_seq(), self.edge_seq()),
    {
        to_dot(self.nodes(), self.edges())
    }
}

} // verus!
