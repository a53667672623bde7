//! The registry of a matrix: for each graph, the graph6 text and the
//! hexadecimal masks of its forests, one graph per line.
use vstd::prelude::*;
use crate::g6::push_char;
use crate::text::{char_rows, chars_of, hex_text, lines, parse_hex_u64, split_lines, split_words, string_of, words};

verus! {

/// The number written in hexadecimal in `s`, where it fits in a `u64`.
pub open spec fn parsed_hex(s: Seq<char>) -> Option<u64> {
    match hex_text(s) {
        Some(v) => if v <= u64::MAX { Some(v as u64) } else { None },
        None => None,
    }
}

/// The registry read from the first `k` lines: the graphs, the index of the
/// first forest of each, and all the forests; a line without words is
/// skipped; `None` where a forest is not a hexadecimal `u64`.
pub open spec fn registry_lines(ls: Seq<Seq<char>>, k: int) -> Option<(Seq<Seq<char>>, Seq<int>, Seq<u64>)>
    decreases k,
{
    if k <= 0 {
        Some((Seq::empty(), Seq::empty(), Seq::empty()))
    } else {
        match registry_lines(ls, k - 1) {
            None => None,
            Some((gs, idx, fs)) => {
                let ws = words(ls[k - 1]);
                if ws.len() == 0 {
                    Some((gs, idx, fs))
                } else {
                    let ms = ws.drop_first();
                    if forall|t: int| 0 <= t < ms.len() ==> (#[trigger] parsed_hex(ms[t])) is Some {
                        Some((gs.push(ws[0]), idx.push(fs.len() as int), fs + Seq::new(ms.len(), |t: int| parsed_hex(ms[t])->0)))
                    } else {
                        None
                    }
                }
            },
        }
    }
}

/// Once a line is refused, the registry has no value.
proof fn lemma_registry_none(ls: Seq<Seq<char>>, j: int, k: int)
    requires
        0 <= j <= k,
        registry_lines(ls, j) is None,
    ensures
        registry_lines(ls, k) is None,
    decreases k - j,
{
    if j < k {
        lemma_registry_none(ls, j, k - 1);
    }
}

/// The views of a list of strings.
pub open spec fn string_views(v: Seq<String>) -> Seq<Seq<char>> {
    v.map_values(|s: String| s@)
}

/// Read a registry: for each line with words, the first word is a graph and
/// the others hexadecimal forest masks. The result lists the graphs, the
/// index of the first forest of each followed by the number of forests, and
/// the forests; `None` where a mask is not a hexadecimal `u64`.
pub fn read_registry(text: &str) -> (r: Option<(Vec<String>, Vec<usize>, Vec<u64>)>)
    ensures
        match r {
            Some((gs, idx, fs)) => registry_lines(lines(text@), lines(text@).len() as int) matches Some((g, i, f))
                && string_views(gs@) == g && fs@ == f && idx@.map_values(|x: usize| x as int) == i.push(f.len() as int),
            None => registry_lines(lines(text@), lines(text@).len() as int) is None,
        },
{
    let cs = chars_of(text);
    let ls = split_lines(cs.as_slice());
    let ghost lv = lines(text@);
    let mut graphs: Vec<String> = Vec::new();
    let mut indices: Vec<usize> = Vec::new();
    let mut forests: Vec<u64> = Vec::new();
    let mut k: usize = 0;
    while k < ls.len()
        invariant
            lv == lines(text@),
            char_rows(ls@) == lv,
            k <= ls@.len(),
            registry_lines(lv, k as int) matches Some((g, i, f)) && string_views(graphs@) == g && forests@ == f
                && indices@.map_values(|x: usize| x as int) == i,
        decreases ls@.len() - k,
    {
        proof {
            assert(lv[k as int] == ls@[k as int]@);
        }
        let ws = split_words(ls[k].as_slice());
        let ghost wv = words(lv[k as int]);
        if ws.len() > 0 {
            let ghost ms = wv.drop_first();
            let ghost f0 = forests@;
            let mut new: Vec<u64> = Vec::new();
            let mut t: usize = 1;
            while t < ws.len()
                invariant
                    char_rows(ws@) == wv,
                    lv == lines(text@),
                    char_rows(ls@) == lv,
                    k < ls@.len(),
                    wv == words(lv[k as int]),
                    registry_lines(lv, k as int) is Some,
                    ms == wv.drop_first(),
                    1 <= t <= ws@.len(),
                    new@.len() == t - 1,
                    forall|u: int| 0 <= u < t - 1 ==> parsed_hex(#[trigger] ms[u]) == Some(new@[u]),
                decreases ws@.len() - t,
            {
                proof {
                    assert(ms[t - 1] == ws@[t as int]@);
                }
                match parse_hex_u64(ws[t].as_slice()) {
                    Some(m) => {
                        new.push(m);
                    },
                    None => {
                        proof {
                            assert(parsed_hex(ms[t - 1]) is None);
                            assert(registry_lines(lv, k + 1) is None);
                            lemma_registry_none(lv, k + 1, lv.len() as int);
                        }
                        return None;
                    },
                }
                t = t + 1;
            }
            let g = string_of(ws[0].as_slice());
            let ghost i0 = indices@.map_values(|x: usize| x as int);
            let ghost g0 = string_views(graphs@);
            graphs.push(g);
            indices.push(forests.len());
            let mut u: usize = 0;
            while u < new.len()
                invariant
                    u <= new@.len(),
                    forests@ == f0 + new@.take(u as int),
                decreases new@.len() - u,
            {
                forests.push(new[u]);
                proof {
                    assert(new@.take(u + 1) =~= new@.take(u as int).push(new@[u as int]));
                }
                u = u + 1;
            }
            proof {
                assert(wv[0] == ws@[0]@);
                assert(string_views(graphs@) =~= g0.push(wv[0]));
                assert(indices@.map_values(|x: usize| x as int) =~= i0.push(f0.len() as int));
                assert(new@ =~= Seq::new(ms.len(), |t: int| parsed_hex(ms[t])->0));
                assert(new@.take(new@.len() as int) =~= new@);
            }
        } else {
            proof {
                assert(char_rows(ws@).len() == 0);
            }
        }
        k = k + 1;
    }
    let ghost i0 = indices@.map_values(|x: usize| x as int);
    indices.push(forests.len());
    proof {
        assert(indices@.map_values(|x: usize| x as int) =~= i0.push(forests@.len() as int));
    }
    Some((graphs, indices, forests))
}

/// The uppercase hexadecimal digit character of `d < 16`.
pub open spec fn hex_char(d: int) -> char {
    if d < 10 {
        ('0' as int + d) as char
    } else {
        ('A' as int + d - 10) as char
    }
}

/// The uppercase hexadecimal digits of `n`, without leading zeros (`0` for
/// zero), as `{:X}` writes them.
pub open spec fn hex_upper(n: nat) -> Seq<char>
    decreases n,
{
    if n < 16 {
        seq![hex_char(n as int)]
    } else {
        hex_upper(n / 16).push(hex_char((n % 16) as int))
    }
}

/// Append a number in uppercase hexadecimal.
pub fn push_hex(s: &mut String, n: u64)
    ensures
        final(s)@ == old(s)@ + hex_upper(n as nat),
    decreases n,
{
    if n >= 16 {
        push_hex(s, n / 16);
    }
    let d = (n % 16) as u8;
    let c = if d < 10 { (48u8 + d) as char } else { (55u8 + d) as char };
    proof {
        assert(c == hex_char(d as int));
    }
    push_char(s, c);
}

/// The graph of forest number `index` in a registry: the graph before the
/// first one whose first forest comes after `index` (or the first graph,
/// where there is none).
pub fn registry_graph(indices: &[usize], index: usize) -> (j: usize)
    requires
        indices@.len() > 0,
        indices@[0] <= index,
    ensures
        (exists|p: int| 0 < p < indices@.len() && indices@[p] > index && (forall|q: int| 0 <= q < p ==> indices@[q] <= index) && j == p - 1)
            || ((forall|q: int| 0 <= q < indices@.len() ==> indices@[q] <= index) && j == 0),
{
    let mut p: usize = 0;
    while p < indices.len()
        invariant
            p <= indices@.len(),
            forall|q: int| 0 <= q < p ==> indices@[q] <= index,
            indices@.len() > 0,
            indices@[0] <= index,
        decreases indices@.len() - p,
    {
        if indices[p] > index {
            return p - 1;
        }
        p = p + 1;
    }
    0
}

} // verus!
