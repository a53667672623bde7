//! The graph6 text format: the order of the graph in one byte, then the upper
//! triangle of the adjacency matrix, column by column, six bits to a byte.
use vstd::prelude::*;
use vstd::string::*;
use crate::bits::{bit, lemma_bits_all};
use crate::graph::{Graph, GraphView, adjacent_in, edge_joins, normalized};
use crate::perm::edges_within;

verus! {

/// The pairs `(i, j)` with `i < j < n`, column by column:
/// `(0, 1), (0, 2), (1, 2), (0, 3), ...`.
pub open spec fn upper_pairs(n: int) -> Seq<(int, int)>
    decreases n,
{
    if n <= 1 {
        Seq::empty()
    } else {
        upper_pairs(n - 1) + Seq::new((n - 1) as nat, |i: int| (i, n - 1))
    }
}

/// The adjacency bits of the upper triangle.
pub open spec fn graph_bits(g: GraphView) -> Seq<bool> {
    upper_pairs(g.n as int).map_values(|p: (int, int)| g.adjacent(p.0, p.1))
}

/// The bits padded with zeros to a multiple of six.
pub open spec fn padded(bits: Seq<bool>) -> Seq<bool> {
    bits + Seq::new(((6 - bits.len() % 6) % 6) as nat, |i: int| false)
}

/// Bit `t` of a sextet, the first bit being the highest.
pub open spec fn sextet_bit(b: bool, t: u8) -> u8 {
    if b {
        (32u8 >> t) as u8
    } else {
        0u8
    }
}

/// The value of the first `t` of the six bits starting at `6 * c`.
pub open spec fn sextet_upto(bits: Seq<bool>, c: int, t: int) -> u8
    decreases t,
{
    if t <= 0 {
        0u8
    } else {
        sextet_upto(bits, c, t - 1) | sextet_bit(bits[6 * c + t - 1], (t - 1) as u8)
    }
}

/// The value of the six bits starting at `6 * c`, the first being the highest.
pub open spec fn sextet(bits: Seq<bool>, c: int) -> u8 {
    sextet_upto(bits, c, 6)
}

/// The graph6 bytes of a graph.
pub open spec fn g6_bytes(g: GraphView) -> Seq<u8> {
    let p = padded(graph_bits(g));
    seq![(g.n + 63) as u8] + Seq::new(p.len() / 6, |c: int| (sextet(p, c) + 63) as u8)
}

/// The order written in graph6 bytes.
pub open spec fn g6_order(b: Seq<u8>) -> int {
    b[0] - 63
}

/// The number of adjacency bits of a graph of order `n`.
pub open spec fn num_bits(n: int) -> int {
    n * (n - 1) / 2
}

/// Bit `k` of the adjacency data.
pub open spec fn g6_bit(b: Seq<u8>, k: int) -> bool {
    ((((b[1 + k / 6] - 63) as u8) >> ((5 - k % 6) as u8)) & 1u8) == 1u8
}

/// Bytes that the decoder accepts: an order from 0 to 62 in one byte, then
/// enough data bytes, none below 63 (bytes after those are ignored).
pub open spec fn valid_g6(b: Seq<u8>) -> bool {
    &&& b.len() >= 1
    &&& 63 <= b[0] <= 125
    &&& b.len() >= 1 + (num_bits(g6_order(b)) + 5) / 6
    &&& forall|i: int| 1 <= i <= (num_bits(g6_order(b)) + 5) / 6 ==> #[trigger] b[i] >= 63
}

/// The edges whose bits are set, among the first `k` pairs.
pub open spec fn decoded_edges(b: Seq<u8>, pairs: Seq<(int, int)>, k: int) -> Seq<(u8, u8)>
    decreases k,
{
    if k <= 0 {
        Seq::empty()
    } else if g6_bit(b, k - 1) {
        decoded_edges(b, pairs, k - 1).push((pairs[k - 1].0 as u8, pairs[k - 1].1 as u8))
    } else {
        decoded_edges(b, pairs, k - 1)
    }
}

/// The edges encoded in graph6 bytes, in the order of their bits.
pub open spec fn g6_edges(b: Seq<u8>) -> Seq<(u8, u8)> {
    let pairs = upper_pairs(g6_order(b));
    decoded_edges(b, pairs, pairs.len() as int)
}

/// The number of pairs `i < j < n`, counted column by column.
pub open spec fn triangle(n: int) -> int
    decreases n,
{
    if n <= 1 {
        0
    } else {
        triangle(n - 1) + (n - 1)
    }
}

/// The triangle number is `n (n - 1) / 2`.
pub proof fn lemma_triangle(n: int)
    requires
        n >= 0,
    ensures
        triangle(n) == num_bits(n),
        triangle(n) >= 0,
{
    lemma_triangle_double(n);
    assert(num_bits(n) == triangle(n)) by (nonlinear_arith)
        requires
            2 * triangle(n) == n * (n - 1),
    ;
}

proof fn lemma_triangle_double(n: int)
    requires
        n >= 0,
    ensures
        2 * triangle(n) == n * (n - 1),
        triangle(n) >= 0,
    decreases n,
{
    if n >= 2 {
        lemma_triangle_double(n - 1);
        assert(2 * triangle(n) == n * (n - 1)) by (nonlinear_arith)
            requires
                2 * triangle(n - 1) == (n - 1) * (n - 2),
                triangle(n) == triangle(n - 1) + (n - 1),
        ;
    } else {
        assert(n * (n - 1) == 0) by (nonlinear_arith)
            requires
                0 <= n <= 1,
        ;
    }
}

/// The upper triangle has `triangle(n)` pairs, each `(i, j)` with `i < j < n`,
/// and a shorter triangle is a prefix of a longer one.
pub proof fn lemma_upper_pairs(n: int)
    requires
        n >= 0,
    ensures
        upper_pairs(n).len() == triangle(n),
        forall|k: int| 0 <= k < upper_pairs(n).len() ==> 0 <= #[trigger] upper_pairs(n)[k].0 < upper_pairs(n)[k].1 < n,
        forall|m: int| 0 <= m <= n ==> #[trigger] upper_pairs(m).len() <= upper_pairs(n).len(),
        forall|m: int, k: int| 0 <= m <= n && 0 <= k < upper_pairs(m).len() ==> upper_pairs(n)[k] == #[trigger] upper_pairs(m)[k],
    decreases n,
{
    if n >= 2 {
        lemma_upper_pairs(n - 1);
        assert forall|m: int, k: int| 0 <= m <= n && 0 <= k < upper_pairs(m).len() implies upper_pairs(n)[k] == #[trigger] upper_pairs(m)[k] by {
            if m < n {
                assert(upper_pairs(m).len() <= upper_pairs(n - 1).len());
                assert(upper_pairs(n)[k] == upper_pairs(n - 1)[k]);
            }
        }
        assert forall|m: int| 0 <= m <= n implies #[trigger] upper_pairs(m).len() <= upper_pairs(n).len() by {
            if m < n {
                assert(upper_pairs(m).len() <= upper_pairs(n - 1).len());
            }
        }
    } else {
        assert forall|m: int| 0 <= m <= n implies #[trigger] upper_pairs(m).len() <= upper_pairs(n).len() by {
            assert(upper_pairs(m).len() == 0);
        }
    }
}

/// The position of `(i, j)` in the triangle.
pub proof fn lemma_pair_position(n: int, i: int, j: int)
    requires
        0 <= i < j < n,
    ensures
        upper_pairs(j).len() + i < upper_pairs(n).len(),
        upper_pairs(n)[upper_pairs(j).len() + i] == (i, j),
{
    lemma_upper_pairs(n);
    lemma_upper_pairs(j + 1);
    lemma_upper_pairs(j);
    assert(upper_pairs(j + 1).len() == upper_pairs(j).len() + j);
    assert(upper_pairs(j + 1)[upper_pairs(j).len() + i] == (i, j));
    assert(upper_pairs(j + 1).len() <= upper_pairs(n).len());
}

/// Every pair `i < j < n` occurs in the triangle.
proof fn lemma_pairs_cover(n: int, i: int, j: int)
    requires
        0 <= i < j < n,
    ensures
        exists|k: int| 0 <= k < upper_pairs(n).len() && upper_pairs(n)[k] == (i, j),
{
    lemma_pair_position(n, i, j);
}


/// Appending a character: the trusted wrapper of `String::push`.
#[verifier::external_body]
pub(crate) fn push_char(s: &mut String, c: char)
    ensures
        final(s)@ == old(s)@.push(c),
{
    s.push(c);
}

/// Decoding a sextet gives back its bits.
proof fn lemma_sextet_bits(bits: Seq<bool>, c: int)
    requires
        0 <= c,
        6 * c + 6 <= bits.len(),
    ensures
        sextet(bits, c) < 64,
        forall|t: int| 0 <= t < 6 ==> ((sextet(bits, c) >> ((5 - t) as u8)) & 1u8 == 1u8) == #[trigger] bits[6 * c + t],
{
    let b0 = bits[6 * c];
    let b1 = bits[6 * c + 1];
    let b2 = bits[6 * c + 2];
    let b3 = bits[6 * c + 3];
    let b4 = bits[6 * c + 4];
    let b5 = bits[6 * c + 5];
    let x0 = sextet_bit(b0, 0);
    let x1 = sextet_bit(b1, 1);
    let x2 = sextet_bit(b2, 2);
    let x3 = sextet_bit(b3, 3);
    let x4 = sextet_bit(b4, 4);
    let x5 = sextet_bit(b5, 5);
    assert((32u8 >> 0u8) == 32u8) by (bit_vector);
    assert(x0 == 32u8 || x0 == 0u8);
    assert((32u8 >> 1u8) == 16u8) by (bit_vector);
    assert(x1 == 16u8 || x1 == 0u8);
    assert((32u8 >> 2u8) == 8u8) by (bit_vector);
    assert(x2 == 8u8 || x2 == 0u8);
    assert((32u8 >> 3u8) == 4u8) by (bit_vector);
    assert(x3 == 4u8 || x3 == 0u8);
    assert((32u8 >> 4u8) == 2u8) by (bit_vector);
    assert(x4 == 2u8 || x4 == 0u8);
    assert((32u8 >> 5u8) == 1u8) by (bit_vector);
    assert(x5 == 1u8 || x5 == 0u8);
    assert((32u8 >> 0u8) == 32u8) by (bit_vector);
    reveal_with_fuel(sextet_upto, 7);
    assert(sextet(bits, c) == 0u8 | x0 | x1 | x2 | x3 | x4 | x5);
    assert((x0 == 32u8 || x0 == 0u8) && (x1 == 16u8 || x1 == 0u8) && (x2 == 8u8 || x2 == 0u8) && (x3 == 4u8 || x3 == 0u8)
        && (x4 == 2u8 || x4 == 0u8) && (x5 == 1u8 || x5 == 0u8) ==> {
        let v = 0u8 | x0 | x1 | x2 | x3 | x4 | x5;
        &&& v < 64
        &&& ((v >> 5u8) & 1u8 == 1u8) == (x0 == 32u8)
        &&& ((v >> 4u8) & 1u8 == 1u8) == (x1 == 16u8)
        &&& ((v >> 3u8) & 1u8 == 1u8) == (x2 == 8u8)
        &&& ((v >> 2u8) & 1u8 == 1u8) == (x3 == 4u8)
        &&& ((v >> 1u8) & 1u8 == 1u8) == (x4 == 2u8)
        &&& ((v >> 0u8) & 1u8 == 1u8) == (x5 == 1u8)
    }) by (bit_vector);
    assert(x0 == 32u8 <==> b0);
    assert(x1 == 16u8 <==> b1);
    assert(x2 == 8u8 <==> b2);
    assert(x3 == 4u8 <==> b3);
    assert(x4 == 2u8 <==> b4);
    assert(x5 == 1u8 <==> b5);
    assert forall|t: int| 0 <= t < 6 implies ((sextet(bits, c) >> ((5 - t) as u8)) & 1u8 == 1u8) == #[trigger] bits[6 * c + t] by {
        if t == 0 {
            assert(bits[6 * c + t] == b0);
        } else if t == 1 {
            assert(bits[6 * c + t] == b1);
        } else if t == 2 {
            assert(bits[6 * c + t] == b2);
        } else if t == 3 {
            assert(bits[6 * c + t] == b3);
        } else if t == 4 {
            assert(bits[6 * c + t] == b4);
        } else {
            assert(bits[6 * c + t] == b5);
        }
    }
}

impl Graph {
    /// The graph in the graph6 format (at most 62 vertices; a loop is not
    /// written).
    pub fn to_g6(&self) -> (res: String)
        requires
            self.wf(),
            self.num_vertices <= 62,
        ensures
            res@ == g6_bytes(self@).map_values(|b: u8| b as char),
    {
        let n = self.num_vertices;
        let ghost g = self@;
        let mut result = String::new();
        push_char(&mut result, (n + 63) as char);
        proof {
            lemma_upper_pairs(n as int);
        }
        let mut bitvec: Vec<bool> = Vec::new();
        let mut j: u8 = 1;
        while j < n
            invariant
                self.wf(),
                g == self@,
                n == self.num_vertices,
                n <= 62,
                1 <= j <= n || (n == 0 && j == 1),
                bitvec@ == graph_bits(g).take(upper_pairs(j as int).len() as int),
            decreases n - j,
        {
            let mut i: u8 = 0;
            while i < j
                invariant
                    self.wf(),
                    g == self@,
                    n == self.num_vertices,
                    n <= 62,
                    i <= j < n,
                    bitvec@ == graph_bits(g).take(upper_pairs(j as int).len() + i),
                decreases j - i,
            {
                proof {
                    lemma_pair_position(n as int, i as int, j as int);
                    lemma_upper_pairs(n as int);
                    assert(bit(self.adj@[i as int], j as int) <==> g.adjacent(i as int, j as int));
                }
                let b = self.adj[i as usize] & (1u64 << j) != 0;
                proof {
                    lemma_bits_all();
                    crate::bits::lemma_bit_single(j as u64);
                    crate::bits::lemma_bit_zero();
                    if b {
                        if !bit(self.adj@[i as int], j as int) {
                            assert forall|x: int| 0 <= x < 64 implies (bit(self.adj@[i as int] & (1u64 << j), x) <==> bit(0u64, x)) by {}
                            crate::bits::lemma_bits_ext(self.adj@[i as int] & (1u64 << j), 0);
                        }
                    } else {
                        assert(!bit(0u64, j as int));
                    }
                    assert(b == g.adjacent(i as int, j as int));
                    let k = upper_pairs(j as int).len() + i;
                    assert(graph_bits(g)[k] == g.adjacent(upper_pairs(n as int)[k].0, upper_pairs(n as int)[k].1));
                    assert(graph_bits(g).take(k + 1) =~= graph_bits(g).take(k).push(b));
                }
                bitvec.push(b);
                i = i + 1;
            }
            proof {
                lemma_upper_pairs(j as int + 1);
                assert(upper_pairs(j as int + 1).len() == upper_pairs(j as int).len() + j);
            }
            j = j + 1;
        }
        proof {
            if n >= 1 {
                assert(j == n);
            } else {
                assert(upper_pairs(1).len() == 0);
                assert(upper_pairs(0).len() == 0);
            }
            assert(graph_bits(g).take(graph_bits(g).len() as int) =~= graph_bits(g));
        }
        let ghost bits = graph_bits(g);
        while bitvec.len() % 6 != 0
            invariant
                bits.len() <= bitvec@.len() < bits.len() + 6,
                bitvec@ == bits + Seq::new((bitvec@.len() - bits.len()) as nat, |i: int| false),
                bitvec@.len() % 6 != 0 ==> bitvec@.len() - bits.len() < (6 - bits.len() % 6) % 6,
                bitvec@.len() % 6 == 0 ==> bitvec@.len() - bits.len() == (6 - bits.len() % 6) % 6,
            decreases 6 - (bitvec@.len() - bits.len()),
        {
            bitvec.push(false);
            assert(bitvec@ =~= bits + Seq::new((bitvec@.len() - bits.len()) as nat, |i: int| false));
        }
        let ghost p = padded(bits);
        assert(bitvec@ =~= p);
        let ghost prefix = result@;
        let mut c: usize = 0;
        let mut base: usize = 0;
        while c < bitvec.len() / 6
            invariant
                bitvec@ == p,
                p.len() % 6 == 0,
                n <= 62,
                base == 6 * c,
                prefix == seq![(n + 63) as u8 as char],
                c <= p.len() / 6,
                result@ == prefix + Seq::new(c as nat, |k: int| (sextet(p, k) + 63) as u8 as char),
            decreases p.len() / 6 - c,
        {
            proof {
                assert(base + 6 <= p.len()) by (nonlinear_arith)
                    requires
                        c < p.len() / 6,
                        p.len() % 6 == 0,
                        base == 6 * c,
                ;
            }
            let mut value: u8 = 0;
            let mut t: u8 = 0;
            while t < 6
                invariant
                    bitvec@ == p,
                    base == 6 * c,
                    base + 6 <= p.len(),
                    base + 6 <= bitvec.len(),
                    t <= 6,
                    value == sextet_upto(p, c as int, t as int),
                decreases 6 - t,
            {
                let bit_t: u8 = if bitvec[base + t as usize] { 32u8 >> t } else { 0 };
                value = value | bit_t;
                t = t + 1;
            }
            proof {
                lemma_sextet_bits(p, c as int);
            }
            push_char(&mut result, (value + 63) as char);
            proof {
                assert(result@ =~= prefix + Seq::new((c + 1) as nat, |k: int| (sextet(p, k) + 63) as u8 as char));
            }
            c = c + 1;
            base = base + 6;
        }
        proof {
            assert(result@ =~= g6_bytes(g).map_values(|b: u8| b as char));
        }
        result
    }
}


/// Whether `g6` is a graph6 string that `from_g6` accepts.
pub fn is_valid_g6(g6: &str) -> (r: bool)
    ensures
        r == valid_g6(g6.spec_bytes()),
{
    let bytes = g6.as_bytes();
    if bytes.len() < 1 {
        return false;
    }
    let first = bytes[0];
    if first < 63 || first > 125 {
        return false;
    }
    let n = (first - 63) as usize;
    proof {
        lemma_triangle(n as int);
        assert(n * (n - 1) <= 63 * 62) by (nonlinear_arith)
            requires
                0 <= n <= 62,
        ;
    }
    let nb: usize = if n == 0 { 0 } else { n * (n - 1) / 2 };
    let num_bytes: usize = (nb + 5) / 6;
    if bytes.len() < 1 + num_bytes {
        return false;
    }
    let mut i: usize = 1;
    while i <= num_bytes
        invariant
            bytes@ == g6.spec_bytes(),
            1 <= i <= num_bytes + 1,
            num_bytes + 1 <= bytes@.len(),
            63 <= bytes@[0] <= 125,
            num_bytes == (num_bits(g6_order(bytes@)) + 5) / 6,
            forall|k: int| 1 <= k < i ==> #[trigger] bytes@[k] >= 63,
        decreases num_bytes + 1 - i,
    {
        if bytes[i] < 63 {
            return false;
        }
        i = i + 1;
    }
    true
}

impl Graph {
    /// Decode a graph from the graph6 format.
    pub fn from_g6(g6: &str) -> (g: Graph)
        requires
            valid_g6(g6.spec_bytes()),
        ensures
            g.built_from(g6_order(g6.spec_bytes()) as nat, g6_edges(g6.spec_bytes())),
    {
        let bytes = g6.as_bytes();
        let ghost b = bytes@;
        let first = bytes[0];
        let n: u8 = first - 63;
        proof {
            lemma_triangle(n as int);
            lemma_upper_pairs(n as int);
            assert(n * (n - 1) <= 63 * 62) by (nonlinear_arith)
                requires
                    0 <= n <= 63,
            ;
        }
        let nb: usize = if n == 0 { 0 } else { (n as usize * (n as usize - 1)) / 2 };
        let num_bytes: usize = (nb + 5) / 6;
        let mut bits: Vec<bool> = Vec::new();
        let mut t: usize = 0;
        while t < num_bytes
            invariant
                bytes@ == b,
                valid_g6(b),
                n == g6_order(b),
                nb == num_bits(n as int),
                num_bytes == (nb + 5) / 6,
                t <= num_bytes,
                bits@.len() == 6 * t,
                forall|k: int| 0 <= k < bits@.len() ==> #[trigger] bits@[k] == g6_bit(b, k),
            decreases num_bytes - t,
        {
            let byte = bytes[1 + t];
            let val = byte - 63;
            let mut sh: u8 = 0;
            while sh < 6
                invariant
                    bytes@ == b,
                    t < num_bytes,
                    b.len() >= 1 + num_bytes,
                    val == b[1 + t] - 63,
                    sh <= 6,
                    bits@.len() == 6 * t + sh,
                    forall|k: int| 0 <= k < bits@.len() ==> #[trigger] bits@[k] == g6_bit(b, k),
                decreases 6 - sh,
            {
                let bt = (val >> (5 - sh)) & 1 == 1;
                proof {
                    let k = 6 * t + sh;
                    assert(k / 6 == t && k % 6 == sh);
                    assert(bt == g6_bit(b, k));
                }
                bits.push(bt);
                sh = sh + 1;
            }
            t = t + 1;
        }
        proof {
            assert(nb <= bits@.len()) by (nonlinear_arith)
                requires
                    num_bytes == (nb + 5) / 6,
                    bits@.len() == 6 * num_bytes,
            ;
        }
        let ghost pairs = upper_pairs(n as int);
        if n == 0 {
            proof {
                assert(pairs.len() == 0);
                assert(g6_edges(b) =~= Seq::<(u8, u8)>::empty());
            }
            return Graph::new(0, Vec::new());
        }
        let mut edges: Vec<(u8, u8)> = Vec::new();
        let mut k: usize = 0;
        let mut j: u8 = 1;
        while j < n
            invariant
                n == g6_order(b),
                1 <= n <= 63,
                1 <= j <= n,
                nb == pairs.len(),
                pairs == upper_pairs(n as int),
                nb <= bits@.len(),
                forall|x: int| 0 <= x < bits@.len() ==> #[trigger] bits@[x] == g6_bit(b, x),
                k == upper_pairs(j as int).len(),
                edges@ == decoded_edges(b, pairs, k as int),
                forall|x: int| 0 <= x < edges@.len() ==> #[trigger] edges@[x].0 < n && edges@[x].1 < n,
            decreases n - j,
        {
            let mut i: u8 = 0;
            while i < j
                invariant
                    n == g6_order(b),
                    1 <= n <= 63,
                    i <= j < n,
                    nb == pairs.len(),
                    pairs == upper_pairs(n as int),
                    nb <= bits@.len(),
                    forall|x: int| 0 <= x < bits@.len() ==> #[trigger] bits@[x] == g6_bit(b, x),
                    k == upper_pairs(j as int).len() + i,
                    edges@ == decoded_edges(b, pairs, k as int),
                    forall|x: int| 0 <= x < edges@.len() ==> #[trigger] edges@[x].0 < n && edges@[x].1 < n,
                decreases j - i,
            {
                proof {
                    lemma_pair_position(n as int, i as int, j as int);
                }
                if bits[k] {
                    edges.push((i, j));
                }
                k = k + 1;
                i = i + 1;
            }
            proof {
                lemma_upper_pairs(j as int + 1);
                assert(upper_pairs(j as int + 1).len() == upper_pairs(j as int).len() + j);
            }
            j = j + 1;
        }
        proof {
            if n == 1 {
                assert(upper_pairs(1).len() == 0);
            }
        }
        Graph::new(n, edges)
    }
}

/// Among the first `k` pairs, the decoded edges join `u` and `v` exactly when
/// some pair joining them has its bit set.
proof fn lemma_decoded_adjacent(b: Seq<u8>, pairs: Seq<(int, int)>, k: int, u: int, v: int)
    requires
        0 <= k <= pairs.len(),
        forall|x: int| 0 <= x < pairs.len() ==> 0 <= #[trigger] pairs[x].0 < pairs[x].1 < 64,
    ensures
        adjacent_in(decoded_edges(b, pairs, k), u, v) <==> exists|x: int| 0 <= x < k && g6_bit(b, x)
            && #[trigger] edge_joins((pairs[x].0 as u8, pairs[x].1 as u8), u, v),
    decreases k,
{
    if k > 0 {
        lemma_decoded_adjacent(b, pairs, k - 1, u, v);
        let prev = decoded_edges(b, pairs, k - 1);
        let e = (pairs[k - 1].0 as u8, pairs[k - 1].1 as u8);
        if g6_bit(b, k - 1) {
            crate::graph::lemma_adjacent_push(prev, e, u, v);
        }
        if exists|x: int| 0 <= x < k && g6_bit(b, x) && #[trigger] edge_joins((pairs[x].0 as u8, pairs[x].1 as u8), u, v) {
            let x = choose|x: int| 0 <= x < k && g6_bit(b, x) && #[trigger] edge_joins((pairs[x].0 as u8, pairs[x].1 as u8), u, v);
            if x < k - 1 {
                assert(exists|y: int| 0 <= y < k - 1 && g6_bit(b, y) && #[trigger] edge_joins((pairs[y].0 as u8, pairs[y].1 as u8), u, v));
            }
        }
    }
}

/// Encoding a graph in graph6 and decoding the string gives back its adjacency
/// between distinct vertices (a loop is not encoded).
pub proof fn lemma_g6_round_trip(g: GraphView, s: &str)
    requires
        1 <= g.n <= 62,
        edges_within(g.edges, g.n as int),
        s@ == g6_bytes(g).map_values(|b: u8| b as char),
    ensures
        valid_g6(s.spec_bytes()),
        g6_order(s.spec_bytes()) == g.n,
        forall|u: int, v: int| 0 <= u < g.n && 0 <= v < g.n && u != v ==>
            (#[trigger] adjacent_in(g6_edges(s.spec_bytes()), u, v) <==> g.adjacent(u, v)),
{
    let n = g.n as int;
    let bits = graph_bits(g);
    let p = padded(bits);
    let bytes = g6_bytes(g);
    lemma_upper_pairs(n);
    lemma_triangle(n);
    let nb = bits.len() as int;
    assert(nb == num_bits(n));
    assert(p.len() % 6 == 0 && p.len() / 6 == (nb + 5) / 6) by (nonlinear_arith)
        requires
            p.len() == nb + (6 - nb % 6) % 6,
            nb >= 0,
    ;
    assert forall|c: int| 0 <= c < p.len() / 6 implies #[trigger] sextet(p, c) < 64 by {
        assert(6 * c + 6 <= p.len()) by (nonlinear_arith)
            requires
                0 <= c < p.len() / 6,
                p.len() % 6 == 0,
        ;
        lemma_sextet_bits(p, c);
    }
    assert forall|i: int| 0 <= i < bytes.len() implies #[trigger] bytes[i] < 128 by {
        if i > 0 {
            assert(sextet(p, i - 1) < 64);
        }
    }
    assert(is_ascii(s)) by {
        assert forall|i: int| 0 <= i < s@.len() implies '\0' <= #[trigger] s@[i] <= '\u{7f}' by {
            assert(bytes[i] < 128);
        }
    }
    vstd::string::is_ascii_spec_bytes(s);
    assert(s.spec_bytes() =~= bytes) by {
        assert forall|i: int| 0 <= i < bytes.len() implies #[trigger] s.spec_bytes()[i] == bytes[i] by {
            assert(bytes[i] < 128);
        }
    }
    assert(bytes[0] == (n + 63) as u8);
    assert(valid_g6(bytes)) by {
        assert forall|i: int| 1 <= i <= (num_bits(g6_order(bytes)) + 5) / 6 implies #[trigger] bytes[i] >= 63 by {
            assert(sextet(p, i - 1) < 64);
        }
    }
    // every data bit is the adjacency bit of its pair
    assert forall|k: int| 0 <= k < nb implies #[trigger] g6_bit(bytes, k) == bits[k] by {
        let c = k / 6;
        let t = k % 6;
        assert(6 * c + 6 <= p.len()) by (nonlinear_arith)
            requires
                0 <= k < nb,
                nb <= p.len(),
                p.len() % 6 == 0,
                c == k / 6,
        ;
        lemma_sextet_bits(p, c);
        assert(bytes[1 + c] == (sextet(p, c) + 63) as u8);
        assert(p[6 * c + t] == bits[k]);
    }
    let pairs = upper_pairs(n);
    assert forall|u: int, v: int| 0 <= u < g.n && 0 <= v < g.n && u != v implies
        (#[trigger] adjacent_in(g6_edges(bytes), u, v) <==> g.adjacent(u, v)) by {
        lemma_decoded_adjacent(bytes, pairs, pairs.len() as int, u, v);
        let (a, c) = if u < v { (u, v) } else { (v, u) };
        if g.adjacent(u, v) {
            lemma_pair_position(n, a, c);
            let x = upper_pairs(c).len() + a;
            assert(bits[x] == g.adjacent(pairs[x].0, pairs[x].1));
            assert(g.adjacent(a, c)) by {
                let e = choose|e: int| 0 <= e < g.edges.len() && #[trigger] edge_joins(g.edges[e], u, v);
                assert(edge_joins(g.edges[e], a, c));
            }
            assert(g6_bit(bytes, x));
            assert(edge_joins((pairs[x].0 as u8, pairs[x].1 as u8), u, v));
        }
        if adjacent_in(g6_edges(bytes), u, v) {
            let x = choose|x: int| 0 <= x < pairs.len() && g6_bit(bytes, x)
                && #[trigger] edge_joins((pairs[x].0 as u8, pairs[x].1 as u8), u, v);
            assert(bits[x] == g.adjacent(pairs[x].0, pairs[x].1));
            let e = choose|e: int| 0 <= e < g.edges.len() && #[trigger] edge_joins(g.edges[e], pairs[x].0, pairs[x].1);
            assert(edge_joins(g.edges[e], u, v));
        }
    }
}


/// Decoding the graph6 text of a graph without loops gives back a graph with
/// the same number of vertices and the same adjacency rows.
pub proof fn lemma_g6_rows_round_trip(g: &Graph, s: &str, h: &Graph)
    requires
        g.wf(),
        1 <= g.num_vertices <= 62,
        forall|k: int| 0 <= k < g.edges@.len() ==> #[trigger] g.edges@[k].0 != g.edges@[k].1,
        s@ == g6_bytes(g@).map_values(|b: u8| b as char),
        h.built_from(g6_order(s.spec_bytes()) as nat, g6_edges(s.spec_bytes())),
    ensures
        h.num_vertices == g.num_vertices,
        h.adj@ == g.adj@,
{
    lemma_g6_round_trip(g@, s);
    let b = s.spec_bytes();
    let n = g.num_vertices as int;
    let pairs = upper_pairs(g6_order(b));
    lemma_upper_pairs(g6_order(b));
    let de = g6_edges(b);
    assert(normalized(de) =~= de) by {
        assert forall|k: int| 0 <= k < de.len() implies #[trigger] normalized(de)[k] == de[k] by {
            lemma_decoded_ordered(b, pairs, pairs.len() as int, k);
        }
    }
    assert forall|u: int| 0 <= u < n implies #[trigger] h.adj@[u] == g.adj@[u] by {
        assert forall|v: int| 0 <= v < 64 implies (bit(h.adj@[u], v) <==> bit(g.adj@[u], v)) by {
            crate::canon::lemma_same_edges_adjacent(h.edges@, de, u, v);
            if v < n && u != v {
            } else {
                if g@.adjacent(u, v) {
                    let k = choose|k: int| 0 <= k < g.edges@.len() && #[trigger] edge_joins(g.edges@[k], u, v);
                    assert(g.edges@[k].0 < n && g.edges@[k].1 < n);
                }
                if adjacent_in(de, u, v) {
                    let k = choose|k: int| 0 <= k < de.len() && #[trigger] edge_joins(de[k], u, v);
                    lemma_decoded_ordered(b, pairs, pairs.len() as int, k);
                }
            }
        }
        crate::bits::lemma_bits_ext(h.adj@[u], g.adj@[u]);
    }
    assert(h.adj@ =~= g.adj@);
}

/// Every decoded edge joins two distinct vertices below the order, the
/// smaller first.
proof fn lemma_decoded_ordered(b: Seq<u8>, pairs: Seq<(int, int)>, k: int, e: int)
    requires
        0 <= k <= pairs.len(),
        forall|x: int| 0 <= x < pairs.len() ==> 0 <= #[trigger] pairs[x].0 < pairs[x].1 < g6_order(b) && g6_order(b) <= 64,
        0 <= e < decoded_edges(b, pairs, k).len(),
    ensures
        decoded_edges(b, pairs, k)[e].0 < decoded_edges(b, pairs, k)[e].1 < g6_order(b),
    decreases k,
{
    if k > 0 {
        let prev = decoded_edges(b, pairs, k - 1);
        if g6_bit(b, k - 1) && e == prev.len() {
            assert(decoded_edges(b, pairs, k)[e] == (pairs[k - 1].0 as u8, pairs[k - 1].1 as u8));
        } else {
            if g6_bit(b, k - 1) {
                assert(decoded_edges(b, pairs, k)[e] == prev[e]);
            }
            lemma_decoded_ordered(b, pairs, k - 1, e);
        }
    }
}

} // verus!
