//! Integer vectors written as `[a, b, c]`, typed bases written one type per
//! line, and moving a vector from one basis to a larger one.
use vstd::prelude::*;
use crate::g6::push_char;
use crate::text::{
    char_rows, chars_of, decimal_text, int_text, lines, parse_i64, pieces, push_i64, split_at_char, split_lines,
    split_words, string_of, strip_back_char, strip_chars, strip_front_char, trim, trimmed, words,
};

verus! {

/// The integer written in `s`, where it fits in an `i64`.
pub open spec fn parsed_i64(s: Seq<char>) -> Option<i64> {
    match int_text(s) {
        Some(v) => if i64::MIN <= v <= i64::MAX { Some(v as i64) } else { None },
        None => None,
    }
}

/// The fields of a vector line: without surrounding whitespace and brackets,
/// split at `sep`, each without surrounding whitespace.
pub open spec fn vector_fields(line: Seq<char>, sep: char) -> Seq<Seq<char>> {
    pieces(strip_back_char(strip_front_char(trimmed(line), '['), ']'), sep).map_values(|p: Seq<char>| trimmed(p))
}

/// The vector written on a line with fields separated by `sep`: `None` where
/// a field is not an integer that fits in an `i64`.
pub open spec fn vector_value(line: Seq<char>, sep: char) -> Option<Seq<i64>> {
    let f = vector_fields(line, sep);
    if forall|k: int| 0 <= k < f.len() ==> (#[trigger] parsed_i64(f[k])) is Some {
        Some(Seq::new(f.len(), |k: int| parsed_i64(f[k])->0))
    } else {
        None
    }
}

/// Read a vector of integers separated by `sep`, in optional brackets.
pub fn parse_separated(line: &str, sep: char) -> (r: Option<Vec<i64>>)
    ensures
        match r {
            Some(v) => vector_value(line@, sep) == Some(v@),
            None => vector_value(line@, sep) is None,
        },
{
    let cs = chars_of(line);
    let t = trim(cs.as_slice());
    let u = strip_chars(t.as_slice(), '[', ']');
    let ps = split_at_char(u.as_slice(), sep);
    let ghost f = vector_fields(line@, sep);
    proof {
        assert(char_rows(ps@).map_values(|p: Seq<char>| trimmed(p)) =~= f);
    }
    let mut out: Vec<i64> = Vec::new();
    let mut k: usize = 0;
    while k < ps.len()
        invariant
            f == vector_fields(line@, sep),
            f.len() == ps@.len(),
            forall|a: int| 0 <= a < ps@.len() ==> #[trigger] f[a] == trimmed(ps@[a]@),
            k <= ps@.len(),
            out@.len() == k,
            forall|a: int| 0 <= a < k ==> (#[trigger] parsed_i64(f[a])) == Some(out@[a]),
        decreases ps@.len() - k,
    {
        proof {
            assert(f[k as int] == char_rows(ps@).map_values(|p: Seq<char>| trimmed(p))[k as int]);
        }
        let q = trim(ps[k].as_slice());
        match parse_i64(q.as_slice()) {
            Some(v) => {
                out.push(v);
            },
            None => {
                proof {
                    assert(parsed_i64(f[k as int]) is None);
                }
                return None;
            },
        }
        k = k + 1;
    }
    proof {
        assert(out@ =~= Seq::new(f.len(), |a: int| parsed_i64(f[a])->0));
    }
    Some(out)
}

/// Read a vector written `[a, b, c]`: the integers between commas, with
/// whitespace and brackets around them ignored; `None` where a field is not an
/// integer that fits in an `i64`.
pub fn parse_vector(line: &str) -> (r: Option<Vec<i64>>)
    ensures
        match r {
            Some(v) => vector_value(line@, ',') == Some(v@),
            None => vector_value(line@, ',') is None,
        },
{
    parse_separated(line, ',')
}

/// The text of a vector: `[`, the entries in decimal separated by `, `, and
/// `]`.
pub open spec fn vector_text(v: Seq<i64>) -> Seq<char>
    decreases v.len(),
{
    if v.len() == 0 {
        seq!['[', ']']
    } else {
        vector_text(v.drop_last()).drop_last() + (if v.len() > 1 { seq![',', ' '] } else { Seq::empty() })
            + decimal_text(v.last() as int) + seq![']']
    }
}

/// Write a vector as `[a, b, c]`.
pub fn format_vector(vec: &[i64]) -> (s: String)
    ensures
        s@ == vector_text(vec@),
{
    let mut s = String::new();
    push_char(&mut s, '[');
    let mut i: usize = 0;
    while i < vec.len()
        invariant
            i <= vec@.len(),
            s@.push(']') == vector_text(vec@.take(i as int)),
        decreases vec@.len() - i,
    {
        let ghost s0 = s@;
        if i > 0 {
            push_char(&mut s, ',');
            push_char(&mut s, ' ');
        }
        push_i64(&mut s, vec[i]);
        proof {
            let t = vec@.take(i + 1);
            assert(t.drop_last() =~= vec@.take(i as int));
            assert(vector_text(t.drop_last()).drop_last() =~= s0);
            if i > 0 {
                assert(s@ =~= s0 + seq![',', ' '] + decimal_text(vec@[i as int] as int));
            } else {
                assert(s@ =~= s0 + Seq::<char>::empty() + decimal_text(vec@[i as int] as int));
            }
            assert(s@.push(']') =~= vector_text(t));
        }
        i = i + 1;
    }
    push_char(&mut s, ']');
    proof {
        assert(vec@.take(vec@.len() as int) =~= vec@);
    }
    s
}

/// The pairs of a typed basis text: for each line, its first word is the type
/// and each further word an element of that type; `None` where a line has no
/// word.
pub open spec fn basis_value(text: Seq<char>) -> Option<Seq<(Seq<char>, Seq<char>)>> {
    basis_lines(lines(text), lines(text).len() as int)
}

/// The pairs of the first `k` lines.
pub open spec fn basis_lines(ls: Seq<Seq<char>>, k: int) -> Option<Seq<(Seq<char>, Seq<char>)>>
    decreases k,
{
    if k <= 0 {
        Some(Seq::empty())
    } else {
        match basis_lines(ls, k - 1) {
            None => None,
            Some(prev) => {
                let ws = words(ls[k - 1]);
                if ws.len() == 0 {
                    None
                } else {
                    Some(prev + ws.drop_first().map_values(|e: Seq<char>| (ws[0], e)))
                }
            },
        }
    }
}

/// Once a line without words is met, the basis has no value.
proof fn lemma_basis_none(ls: Seq<Seq<char>>, j: int, k: int)
    requires
        0 <= j <= k,
        basis_lines(ls, j) is None,
    ensures
        basis_lines(ls, k) is None,
    decreases k - j,
{
    if j < k {
        lemma_basis_none(ls, j, k - 1);
    }
}

/// The views of a list of pairs of strings.
pub open spec fn pair_views(v: Seq<(String, String)>) -> Seq<(Seq<char>, Seq<char>)> {
    v.map_values(|p: (String, String)| (p.0@, p.1@))
}

/// Read a typed basis: each line holds a type and then its elements; the
/// result lists `(type, element)` pairs in order. `None` where a line has no
/// word.
pub fn parse_typed_basis(contents: &str) -> (r: Option<Vec<(String, String)>>)
    ensures
        match r {
            Some(v) => basis_value(contents@) == Some(pair_views(v@)),
            None => basis_value(contents@) is None,
        },
{
    let cs = chars_of(contents);
    let ls = split_lines(cs.as_slice());
    let ghost lv = lines(contents@);
    let mut basis: Vec<(String, String)> = Vec::new();
    let mut k: usize = 0;
    while k < ls.len()
        invariant
            lv == lines(contents@),
            char_rows(ls@) == lv,
            k <= ls@.len(),
            basis_lines(lv, k as int) == Some(pair_views(basis@)),
        decreases ls@.len() - k,
    {
        proof {
            assert(lv[k as int] == ls@[k as int]@);
        }
        let ws = split_words(ls[k].as_slice());
        let ghost wv = words(lv[k as int]);
        if ws.len() == 0 {
            proof {
                assert(char_rows(ws@).len() == 0);
                assert(basis_lines(lv, k + 1) is None);
                lemma_basis_none(lv, k + 1, lv.len() as int);
            }
            return None;
        }
        let ty = string_of(ws[0].as_slice());
        let ghost b0 = pair_views(basis@);
        let mut t: usize = 1;
        while t < ws.len()
            invariant
                char_rows(ws@) == wv,
                ty@ == wv[0],
                1 <= t <= ws@.len(),
                pair_views(basis@) == b0 + wv.drop_first().take(t - 1).map_values(|e: Seq<char>| (wv[0], e)),
            decreases ws@.len() - t,
        {
            let elem = string_of(ws[t].as_slice());
            let tyc = ty.clone();
            let ghost bb = pair_views(basis@);
            basis.push((tyc, elem));
            proof {
                assert(wv[t as int] == ws@[t as int]@);
                assert(pair_views(basis@) =~= bb.push((wv[0], wv[t as int])));
                assert(wv.drop_first().take(t as int) =~= wv.drop_first().take(t - 1).push(wv[t as int]));
                assert(b0 + wv.drop_first().take(t as int).map_values(|e: Seq<char>| (wv[0], e)) =~= (b0 + wv.drop_first().take(t - 1).map_values(|e: Seq<char>| (wv[0], e))).push((wv[0], wv[t as int])));
            }
            t = t + 1;
        }
        proof {
            assert(wv.drop_first().take(t - 1) =~= wv.drop_first());
        }
        k = k + 1;
    }
    Some(basis)
}

/// The text of a typed basis after its first `k` pairs: a type is written
/// (after a line break, unless nothing is written yet) where it differs from
/// the type before it; each element follows after a space.
pub open spec fn basis_text(b: Seq<(Seq<char>, Seq<char>)>, k: int) -> Seq<char>
    decreases k,
{
    if k <= 0 {
        Seq::empty()
    } else {
        let prev = basis_text(b, k - 1);
        let ty = b[k - 1].0;
        let head = if k == 1 || b[k - 2].0 != ty {
            (if prev.len() > 0 { prev.push('\n') } else { prev }) + ty
        } else {
            prev
        };
        head.push(' ') + b[k - 1].1
    }
}

/// Write a typed basis: a line for each run of pairs of the same type, with
/// the type and then its elements, separated by spaces.
pub fn format_typed_basis(basis: &[(String, String)]) -> (s: String)
    ensures
        s@ == basis_text(pair_views(basis@), basis@.len() as int),
{
    let ghost b = pair_views(basis@);
    let mut result = String::new();
    let mut i: usize = 0;
    while i < basis.len()
        invariant
            b == pair_views(basis@),
            i <= basis@.len(),
            result@ == basis_text(b, i as int),
        decreases basis@.len() - i,
    {
        let ty = &basis[i].0;
        let elem = &basis[i].1;
        proof {
            assert(b[i as int] == (ty@, elem@));
            if i > 0 {
                assert(b[i - 1] == (basis@[i - 1].0@, basis@[i - 1].1@));
            }
        }
        let fresh = if i == 0 { true } else { !(basis[i - 1].0 == *ty) };
        if fresh {
            if !result.as_str().is_empty() {
                push_char(&mut result, '\n');
            }
            result.append(ty.as_str());
        }
        push_char(&mut result, ' ');
        result.append(elem.as_str());
        i = i + 1;
    }
    result
}


/// The last coefficient given to `key` among the first `k` basis elements,
/// or 0 where `key` is not among them.
pub open spec fn coefficient_of(basis: Seq<(Seq<char>, Seq<char>)>, coeffs: Seq<i64>, key: (Seq<char>, Seq<char>), k: int) -> i64
    decreases k,
{
    if k <= 0 {
        0
    } else if basis[k - 1] == key {
        coeffs[k - 1]
    } else {
        coefficient_of(basis, coeffs, key, k - 1)
    }
}

/// Whether two pairs of strings are equal.
fn same_pair(a: &(String, String), b: &(String, String)) -> (r: bool)
    ensures
        r == ((a.0@, a.1@) == (b.0@, b.1@)),
{
    a.0 == b.0 && a.1 == b.1
}

/// The coefficients of a vector over `basis` moved to `expanded`: each
/// element of `expanded` gets the coefficient of the same element of `basis`
/// (the last one, where it occurs more than once), or 0.
pub fn scale_to_basis(basis: &[(String, String)], coeffs: &[i64], expanded: &[(String, String)]) -> (r: Vec<i64>)
    requires
        coeffs@.len() == basis@.len(),
    ensures
        r@.len() == expanded@.len(),
        forall|j: int| 0 <= j < r@.len() ==> #[trigger] r@[j] == coefficient_of(pair_views(basis@), coeffs@, pair_views(expanded@)[j], basis@.len() as int),
{
    let ghost b = pair_views(basis@);
    let ghost e = pair_views(expanded@);
    let mut r: Vec<i64> = Vec::new();
    let mut j: usize = 0;
    while j < expanded.len()
        invariant
            b == pair_views(basis@),
            e == pair_views(expanded@),
            coeffs@.len() == basis@.len(),
            j <= expanded@.len(),
            r@.len() == j,
            forall|x: int| 0 <= x < j ==> #[trigger] r@[x] == coefficient_of(b, coeffs@, e[x], basis@.len() as int),
        decreases expanded@.len() - j,
    {
        let key = &expanded[j];
        proof {
            assert(e[j as int] == (key.0@, key.1@));
        }
        let mut k: usize = basis.len();
        let mut found: i64 = 0;
        let mut done = false;
        while k > 0 && !done
            invariant
                b == pair_views(basis@),
                coeffs@.len() == basis@.len(),
                k <= basis@.len(),
                done ==> found == coefficient_of(b, coeffs@, e[j as int], basis@.len() as int),
                !done ==> found == 0,
                !done ==> coefficient_of(b, coeffs@, e[j as int], basis@.len() as int) == coefficient_of(b, coeffs@, e[j as int], k as int),
                e[j as int] == (key.0@, key.1@),
            decreases k,
        {
            proof {
                assert(b[k - 1] == (basis@[k - 1].0@, basis@[k - 1].1@));
            }
            if same_pair(&basis[k - 1], key) {
                found = coeffs[k - 1];
                done = true;
            }
            k = k - 1;
        }
        r.push(found);
        j = j + 1;
    }
    r
}

/// The elements of `basis` that `expanded` lacks, in order.
pub open spec fn missing_from(basis: Seq<(Seq<char>, Seq<char>)>, expanded: Seq<(Seq<char>, Seq<char>)>, k: int) -> Seq<(Seq<char>, Seq<char>)>
    decreases k,
{
    if k <= 0 {
        Seq::empty()
    } else if expanded.contains(basis[k - 1]) {
        missing_from(basis, expanded, k - 1)
    } else {
        missing_from(basis, expanded, k - 1).push(basis[k - 1])
    }
}

/// The elements of `basis` that `expanded` lacks, in order.
pub fn missing_elements(basis: &[(String, String)], expanded: &[(String, String)]) -> (r: Vec<(String, String)>)
    ensures
        pair_views(r@) == missing_from(pair_views(basis@), pair_views(expanded@), basis@.len() as int),
{
    let ghost b = pair_views(basis@);
    let ghost e = pair_views(expanded@);
    let mut r: Vec<(String, String)> = Vec::new();
    let mut i: usize = 0;
    while i < basis.len()
        invariant
            b == pair_views(basis@),
            e == pair_views(expanded@),
            i <= basis@.len(),
            pair_views(r@) == missing_from(b, e, i as int),
        decreases basis@.len() - i,
    {
        let x = &basis[i];
        proof {
            assert(b[i as int] == (x.0@, x.1@));
        }
        let mut j: usize = 0;
        let mut present = false;
        while j < expanded.len() && !present
            invariant
                e == pair_views(expanded@),
                j <= expanded@.len(),
                present ==> e.contains((x.0@, x.1@)),
                !present ==> forall|y: int| 0 <= y < j ==> e[y] != (x.0@, x.1@),
            decreases expanded@.len() - j,
        {
            proof {
                assert(e[j as int] == (expanded@[j as int].0@, expanded@[j as int].1@));
            }
            if same_pair(&expanded[j], x) {
                present = true;
                proof {
                    assert(e[j as int] == (x.0@, x.1@));
                }
            }
            j = j + 1;
        }
        if !present {
            let ghost r0 = pair_views(r@);
            r.push((x.0.clone(), x.1.clone()));
            proof {
                assert(pair_views(r@) =~= r0.push((x.0@, x.1@)));
            }
        }
        i = i + 1;
    }
    r
}

/// The nonzero coefficients with their basis elements, in order.
pub open spec fn support_of(basis: Seq<(Seq<char>, Seq<char>)>, coeffs: Seq<i64>, k: int) -> (Seq<i64>, Seq<(Seq<char>, Seq<char>)>)
    decreases k,
{
    if k <= 0 {
        (Seq::empty(), Seq::empty())
    } else {
        let prev = support_of(basis, coeffs, k - 1);
        if coeffs[k - 1] != 0 {
            (prev.0.push(coeffs[k - 1]), prev.1.push(basis[k - 1]))
        } else {
            prev
        }
    }
}

/// The support of a vector over a basis: its nonzero coefficients and their
/// basis elements, in order.
pub fn support(basis: &[(String, String)], coeffs: &[i64]) -> (r: (Vec<i64>, Vec<(String, String)>))
    requires
        coeffs@.len() == basis@.len(),
    ensures
        (r.0@, pair_views(r.1@)) == support_of(pair_views(basis@), coeffs@, basis@.len() as int),
{
    let ghost b = pair_views(basis@);
    let mut cs: Vec<i64> = Vec::new();
    let mut bs: Vec<(String, String)> = Vec::new();
    let mut i: usize = 0;
    while i < basis.len()
        invariant
            b == pair_views(basis@),
            coeffs@.len() == basis@.len(),
            i <= basis@.len(),
            (cs@, pair_views(bs@)) == support_of(b, coeffs@, i as int),
        decreases basis@.len() - i,
    {
        if coeffs[i] != 0 {
            let ghost b0 = pair_views(bs@);
            cs.push(coeffs[i]);
            bs.push((basis[i].0.clone(), basis[i].1.clone()));
            proof {
                assert(pair_views(bs@) =~= b0.push(b[i as int]));
            }
        }
        i = i + 1;
    }
    (cs, bs)
}

} // verus!
