//! The graphviz dot text of a list of edges.
use vstd::prelude::*;
use crate::g6::push_char;
use crate::graph::Graph;

verus! {

/// The decimal digit `d`.
pub open spec fn digit(d: nat) -> char {
    ((d + 48) as u8) as char
}

/// The decimal writing of `x`, without leading zeros.
pub open spec fn decimal(x: nat) -> Seq<char>
    decreases x,
{
    if x < 10 {
        seq![digit(x)]
    } else {
        decimal(x / 10).push(digit(x % 10))
    }
}

/// The line `v -- w` of an edge.
pub open spec fn dot_line(e: (u8, u8)) -> Seq<char> {
    decimal(e.0 as nat) + seq![' ', '-', '-', ' '] + decimal(e.1 as nat) + seq!['\n']
}

/// The lines of the first `k` edges.
pub open spec fn dot_lines(edges: Seq<(u8, u8)>, k: int) -> Seq<char>
    decreases k,
{
    if k <= 0 {
        Seq::empty()
    } else {
        dot_lines(edges, k - 1) + dot_line(edges[k - 1])
    }
}

/// The dot text of an undirected graph with the given edges.
pub open spec fn dot_text(edges: Seq<(u8, u8)>) -> Seq<char> {
    seq!['g', 'r', 'a', 'p', 'h', ' ', '{', '\n'] + dot_lines(edges, edges.len() as int) + seq!['}']
}

/// Append the decimal writing of `x`.
fn push_decimal(s: &mut String, x: u8)
    ensures
        final(s)@ == old(s)@ + decimal(x as nat),
{
    if x >= 100 {
        push_char(s, (x / 100 + 48) as char);
        push_char(s, (x / 10 % 10 + 48) as char);
        push_char(s, (x % 10 + 48) as char);
        proof {
            assert(decimal((x / 100) as nat) == seq![digit((x / 100) as nat)]);
            assert(decimal((x / 10) as nat) == decimal((x / 100) as nat).push(digit((x / 10 % 10) as nat)));
            assert(final(s)@ =~= old(s)@ + decimal(x as nat));
        }
    } else if x >= 10 {
        push_char(s, (x / 10 + 48) as char);
        push_char(s, (x % 10 + 48) as char);
        proof {
            assert(decimal((x / 10) as nat) == seq![digit((x / 10) as nat)]);
            assert(final(s)@ =~= old(s)@ + decimal(x as nat));
        }
    } else {
        push_char(s, (x + 48) as char);
        proof {
            assert(final(s)@ =~= old(s)@ + decimal(x as nat));
        }
    }
}

/// Output the edges in the graphviz dot format: `graph {`, a line `v -- w` for
/// each edge, and `}`.
pub fn edges_to_dot(edges: &[(u8, u8)]) -> (s: String)
    ensures
        s@ == dot_text(edges@),
{
    let mut s = String::new();
    let ghost header = seq!['g', 'r', 'a', 'p', 'h', ' ', '{', '\n'];
    push_char(&mut s, 'g');
    push_char(&mut s, 'r');
    push_char(&mut s, 'a');
    push_char(&mut s, 'p');
    push_char(&mut s, 'h');
    push_char(&mut s, ' ');
    push_char(&mut s, '{');
    push_char(&mut s, '\n');
    assert(s@ =~= header);
    let mut k: usize = 0;
    while k < edges.len()
        invariant
            k <= edges@.len(),
            s@ == header + dot_lines(edges@, k as int),
        decreases edges@.len() - k,
    {
        let (v, w) = edges[k];
        let ghost before = s@;
        push_decimal(&mut s, v);
        push_char(&mut s, ' ');
        push_char(&mut s, '-');
        push_char(&mut s, '-');
        push_char(&mut s, ' ');
        push_decimal(&mut s, w);
        push_char(&mut s, '\n');
        assert(s@ =~= header + dot_lines(edges@, k as int + 1));
        k = k + 1;
    }
    push_char(&mut s, '}');
    assert(s@ =~= dot_text(edges@));
    s
}

impl Graph {
    /// Output the graph in the graphviz dot format.
    pub fn to_dot(&self) -> (s: String)
        ensures
            s@ == dot_text(self.edges@),
    {
        edges_to_dot(self.edges.as_slice())
    }
}

} // verus!
