//! The SMS text format of sparse integer matrices: a first line with the
//! number of rows and columns, then a line `i j s` for each entry, and a
//! last line (`0 0 0`) that ends the list.
use vstd::prelude::*;
use crate::text::{chars_of, char_rows, lines, parse_i64, split_lines, split_words, words};
use crate::vectors::parsed_i64;

verus! {

/// A dimension written as a nonnegative integer without a sign `-`, where
/// it fits in an `i64` and a `usize`.
pub open spec fn dim_value(w: Seq<char>) -> Option<usize> {
    match parsed_i64(w) {
        Some(v) => if w.len() > 0 && w[0] != '-' && 0 <= v <= usize::MAX { Some(v as usize) } else { None },
        None => None,
    }
}

/// The entry written on a line: its first three words as integers, the row
/// and the column cut to `u32` and the value to `i32` as casts do.
pub open spec fn sms_entry(line: Seq<char>) -> Option<([u32; 2], i32)> {
    let ws = words(line);
    if ws.len() < 3 {
        None
    } else {
        match (parsed_i64(ws[0]), parsed_i64(ws[1]), parsed_i64(ws[2])) {
            (Some(a), Some(b), Some(c)) => Some(([a as u32, b as u32], c as i32)),
            _ => None,
        }
    }
}

/// The entries of lines 1 to `n - 1`, where each holds one.
pub open spec fn sms_entries(ls: Seq<Seq<char>>, n: int) -> Option<Seq<([u32; 2], i32)>>
    decreases n,
{
    if n <= 1 {
        Some(Seq::empty())
    } else {
        match (sms_entries(ls, n - 1), sms_entry(ls[n - 1])) {
            (Some(es), Some(e)) => Some(es.push(e)),
            _ => None,
        }
    }
}

/// The matrix written in SMS text: the dimensions on the first line, the
/// entries on the others, without the last line's.
pub open spec fn sms_value(s: Seq<char>) -> Option<([usize; 2], Seq<([u32; 2], i32)>)> {
    let ls = lines(s);
    if ls.len() == 0 {
        None
    } else {
        let ws = words(ls[0]);
        if ws.len() < 2 {
            None
        } else {
            match (dim_value(ws[0]), dim_value(ws[1]), sms_entries(ls, ls.len() as int)) {
                (Some(h), Some(w), Some(es)) => Some(([h, w], if es.len() > 0 { es.drop_last() } else { es })),
                _ => None,
            }
        }
    }
}

/// Once a line fails to read, the entries fail for good.
proof fn lemma_entries_fail(ls: Seq<Seq<char>>, a: int, b: int)
    requires
        1 <= a <= b,
        sms_entries(ls, a) is None,
    ensures
        sms_entries(ls, b) is None,
    decreases b - a,
{
    if a < b {
        lemma_entries_fail(ls, a, b - 1);
    }
}

/// Read a dimension.
fn parse_dim(w: &Vec<char>) -> (r: Option<usize>)
    ensures
        r == dim_value(w@),
{
    let v = parse_i64(w.as_slice());
    match v {
        Some(x) => {
            if w.len() > 0 && w[0] != '-' && x >= 0 && (x as u64) <= (usize::MAX as u64) {
                Some(x as usize)
            } else {
                None
            }
        },
        None => None,
    }
}

/// Read the entry of a line.
fn parse_entry(line: &Vec<char>) -> (r: Option<([u32; 2], i32)>)
    ensures
        r == sms_entry(line@),
{
    let ws = split_words(line.as_slice());
    if ws.len() < 3 {
        return None;
    }
    proof {
        assert(ws@[0]@ == words(line@)[0]);
        assert(ws@[1]@ == words(line@)[1]);
        assert(ws@[2]@ == words(line@)[2]);
    }
    let a = parse_i64(ws[0].as_slice());
    let b = parse_i64(ws[1].as_slice());
    let c = parse_i64(ws[2].as_slice());
    match (a, b, c) {
        (Some(a), Some(b), Some(c)) => Some(([a as u32, b as u32], c as i32)),
        _ => None,
    }
}

/// Read a matrix in SMS text: the dimensions, and the entries without the
/// last line's; `None` where a line does not read as the format asks.
pub fn parse_sms(text: &str) -> (r: Option<([usize; 2], Vec<([u32; 2], i32)>)>)
    ensures
        match r {
            Some((d, es)) => sms_value(text@) == Some((d, es@)),
            None => sms_value(text@) is None,
        },
{
    let cs = chars_of(text);
    let ls = split_lines(cs.as_slice());
    let ghost l = lines(text@);
    proof {
        assert(char_rows(ls@) == l);
    }
    if ls.len() == 0 {
        return None;
    }
    let ws = split_words(ls[0].as_slice());
    proof {
        assert(ls@[0]@ == l[0]);
    }
    if ws.len() < 2 {
        return None;
    }
    proof {
        assert(ws@[0]@ == words(l[0])[0]);
        assert(ws@[1]@ == words(l[0])[1]);
    }
    let h = match parse_dim(&ws[0]) {
        Some(h) => h,
        None => return None,
    };
    let w = match parse_dim(&ws[1]) {
        Some(w) => w,
        None => return None,
    };
    let mut es: Vec<([u32; 2], i32)> = Vec::new();
    let mut k: usize = 1;
    while k < ls.len()
        invariant
            l == lines(text@),
            char_rows(ls@) == l,
            1 <= k <= ls@.len(),
            sms_entries(l, k as int) == Some(es@),
        decreases ls@.len() - k,
    {
        proof {
            assert(ls@[k as int]@ == l[k as int]);
        }
        match parse_entry(&ls[k]) {
            Some(e) => {
                es.push(e);
            },
            None => {
                proof {
                    assert(sms_entries(l, k + 1) is None);
                    lemma_entries_fail(l, k + 1, l.len() as int);
                }
                return None;
            },
        }
        k = k + 1;
    }
    if es.len() > 0 {
        es.pop();
    }
    Some(([h, w], es))
}

} // verus!
