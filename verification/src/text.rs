//! Plain text: characters, whitespace, lines and words, and the integers
//! written in them.
use vstd::prelude::*;
use std::str::Chars;
use vstd::std_specs::iter::IteratorSpec;

verus! {

/// The characters of a string, in order.
pub fn chars_of(s: &str) -> (v: Vec<char>)
    ensures
        v@ == s@,
{
    let mut it: Chars = s.chars();
    let mut v: Vec<char> = Vec::new();
    loop
        invariant
            it.remaining() == s@.skip(v@.len() as int),
            v@ == s@.take(v@.len() as int),
            v@.len() <= s@.len(),
        ensures
            v@ == s@,
        decreases s@.len() - v@.len(),
    {
        let ghost before = it.remaining();
        match it.next() {
            Some(c) => {
                v.push(c);
                proof {
                    assert(s@.skip(v@.len() as int) =~= before.drop_first());
                    assert(v@ =~= s@.take(v@.len() as int));
                }
            },
            None => {
                proof {
                    assert(v@ =~= s@);
                }
                break;
            },
        }
    }
    v
}


/// The character sequences of a list of character vectors.
pub open spec fn char_rows(v: Seq<Vec<char>>) -> Seq<Seq<char>> {
    v.map_values(|x: Vec<char>| x@)
}

/// A whitespace character of Unicode (the `White_Space` property).
pub open spec fn is_space(c: char) -> bool {
    let u = c as int;
    ||| 0x9 <= u <= 0xD
    ||| u == 0x20
    ||| u == 0x85
    ||| u == 0xA0
    ||| u == 0x1680
    ||| 0x2000 <= u <= 0x200A
    ||| u == 0x2028
    ||| u == 0x2029
    ||| u == 0x202F
    ||| u == 0x205F
    ||| u == 0x3000
}

/// Whether a character is whitespace, as `char::is_whitespace` documents it.
pub fn is_whitespace(c: char) -> (r: bool)
    ensures
        r == is_space(c),
{
    let u = c as u32;
    (0x9 <= u && u <= 0xD) || u == 0x20 || u == 0x85 || u == 0xA0 || u == 0x1680 || (0x2000 <= u && u <= 0x200A)
        || u == 0x2028 || u == 0x2029 || u == 0x202F || u == 0x205F || u == 0x3000
}

/// The words of `s` from position `i` on, where `cur` is the part of a word
/// read so far: the maximal runs of non-whitespace characters.
pub open spec fn words_from(s: Seq<char>, i: int, cur: Seq<char>) -> Seq<Seq<char>>
    decreases s.len() - i,
{
    if i >= s.len() {
        if cur.len() > 0 {
            seq![cur]
        } else {
            Seq::empty()
        }
    } else if is_space(s[i]) {
        if cur.len() > 0 {
            seq![cur] + words_from(s, i + 1, Seq::empty())
        } else {
            words_from(s, i + 1, Seq::empty())
        }
    } else {
        words_from(s, i + 1, cur.push(s[i]))
    }
}

/// The words of `s`, as `str::split_whitespace` gives them.
pub open spec fn words(s: Seq<char>) -> Seq<Seq<char>> {
    words_from(s, 0, Seq::empty())
}

/// The pieces of `s` from position `i` on between occurrences of `sep`,
/// where `cur` is the piece read so far.
pub open spec fn pieces_from(s: Seq<char>, sep: char, i: int, cur: Seq<char>) -> Seq<Seq<char>>
    decreases s.len() - i,
{
    if i >= s.len() {
        seq![cur]
    } else if s[i] == sep {
        seq![cur] + pieces_from(s, sep, i + 1, Seq::empty())
    } else {
        pieces_from(s, sep, i + 1, cur.push(s[i]))
    }
}

/// The pieces of `s` between occurrences of `sep`, empty ones included, as
/// `str::split` with a character gives them.
pub open spec fn pieces(s: Seq<char>, sep: char) -> Seq<Seq<char>> {
    pieces_from(s, sep, 0, Seq::empty())
}

/// A line without its final carriage return, if any.
pub open spec fn strip_cr(l: Seq<char>) -> Seq<char> {
    if l.len() > 0 && l.last() == '\r' {
        l.drop_last()
    } else {
        l
    }
}

/// The lines of `s`, as `str::lines` gives them: split at `\n`, a `\r`
/// before the `\n` dropped, and no empty line after a final `\n`.
pub open spec fn lines(s: Seq<char>) -> Seq<Seq<char>> {
    let p = pieces(s, '\n');
    let n = p.len();
    let body = if p.last().len() == 0 { p.drop_last() } else { p };
    Seq::new(body.len(), |k: int| if k + 1 < n { strip_cr(body[k]) } else { body[k] })
}

/// A string with the given characters.
pub fn string_of(cs: &[char]) -> (s: String)
    ensures
        s@ == cs@,
{
    let mut s = String::new();
    let mut i: usize = 0;
    while i < cs.len()
        invariant
            i <= cs@.len(),
            s@ == cs@.take(i as int),
        decreases cs@.len() - i,
    {
        crate::g6::push_char(&mut s, cs[i]);
        proof {
            assert(cs@.take(i + 1) =~= cs@.take(i as int).push(cs@[i as int]));
        }
        i = i + 1;
    }
    proof {
        assert(cs@.take(cs@.len() as int) =~= cs@);
    }
    s
}

/// The pieces of `cs` between occurrences of `sep`.
pub fn split_at_char(cs: &[char], sep: char) -> (r: Vec<Vec<char>>)
    ensures
        char_rows(r@) == pieces(cs@, sep),
{
    let mut out: Vec<Vec<char>> = Vec::new();
    let mut cur: Vec<char> = Vec::new();
    let mut i: usize = 0;
    while i < cs.len()
        invariant
            i <= cs@.len(),
            char_rows(out@) + pieces_from(cs@, sep, i as int, cur@) == pieces(cs@, sep),
        decreases cs@.len() - i,
    {
        let c = cs[i];
        let ghost o0 = char_rows(out@);
        let ghost c0 = cur@;
        if c == sep {
            let piece = cur;
            cur = Vec::new();
            out.push(piece);
            proof {
                assert(char_rows(out@) =~= o0.push(c0));
                assert(pieces_from(cs@, sep, i as int, c0) == seq![c0] + pieces_from(cs@, sep, i + 1, Seq::empty()));
                assert(o0 + (seq![c0] + pieces_from(cs@, sep, i + 1, Seq::empty())) =~= o0.push(c0) + pieces_from(cs@, sep, i + 1, Seq::empty()));
            }
        } else {
            cur.push(c);
        }
        i = i + 1;
    }
    let ghost o0 = char_rows(out@);
    let ghost c0 = cur@;
    out.push(cur);
    proof {
        assert(char_rows(out@) =~= o0.push(c0));
        assert(o0 + seq![c0] =~= o0.push(c0));
    }
    out
}

/// The words of `cs`.
pub fn split_words(cs: &[char]) -> (r: Vec<Vec<char>>)
    ensures
        char_rows(r@) == words(cs@),
{
    let mut out: Vec<Vec<char>> = Vec::new();
    let mut cur: Vec<char> = Vec::new();
    let mut i: usize = 0;
    while i < cs.len()
        invariant
            i <= cs@.len(),
            char_rows(out@) + words_from(cs@, i as int, cur@) == words(cs@),
        decreases cs@.len() - i,
    {
        let c = cs[i];
        let ghost o0 = char_rows(out@);
        let ghost c0 = cur@;
        if is_whitespace(c) {
            if cur.len() > 0 {
                let piece = cur;
                cur = Vec::new();
                out.push(piece);
                proof {
                    assert(char_rows(out@) =~= o0.push(c0));
                    assert(o0 + (seq![c0] + words_from(cs@, i + 1, Seq::empty())) =~= o0.push(c0) + words_from(cs@, i + 1, Seq::empty()));
                }
            } else {
                proof {
                    assert(c0 =~= Seq::<char>::empty());
                }
            }
        } else {
            cur.push(c);
        }
        i = i + 1;
    }
    if cur.len() > 0 {
        let ghost o0 = char_rows(out@);
        let ghost c0 = cur@;
        out.push(cur);
        proof {
            assert(char_rows(out@) =~= o0.push(c0));
            assert(o0 + seq![c0] =~= o0.push(c0));
        }
    } else {
        proof {
            assert(char_rows(out@) + Seq::<Seq<char>>::empty() =~= char_rows(out@));
        }
    }
    out
}


/// The lines of the characters.
pub fn split_lines(cs: &[char]) -> (r: Vec<Vec<char>>)
    ensures
        char_rows(r@) == lines(cs@),
{
    let ps = split_at_char(cs, '\n');
    let ghost p = pieces(cs@, '\n');
    proof {
        lemma_pieces_nonempty(cs@, '\n', 0, Seq::empty());
        assert(char_rows(ps@).len() == p.len());
    }
    let n = ps.len();
    let keep = if ps[n - 1].len() == 0 { n - 1 } else { n };
    proof {
        assert(ps@[n - 1]@ == p.last());
    }
    let mut out: Vec<Vec<char>> = Vec::new();
    let mut k: usize = 0;
    while k < keep
        invariant
            char_rows(ps@) == p,
            n == p.len(),
            n >= 1,
            keep <= n,
            keep == (if p.last().len() == 0 { n - 1 } else { n as int }),
            k <= keep,
            out@.len() == k,
            forall|a: int| 0 <= a < k ==> #[trigger] out@[a]@ == (if a + 1 < n { strip_cr(p[a]) } else { p[a] }),
        decreases keep - k,
    {
        let piece = &ps[k];
        proof {
            assert(piece@ == p[k as int]);
        }
        let len = piece.len();
        let mut line: Vec<char> = Vec::new();
        let cut = if k + 1 < n && len > 0 && piece[len - 1] == '\r' { len - 1 } else { len };
        let mut t: usize = 0;
        while t < cut
            invariant
                cut <= len,
                len == piece@.len(),
                t <= cut,
                line@ == piece@.take(t as int),
            decreases cut - t,
        {
            line.push(piece[t]);
            proof {
                assert(piece@.take(t + 1) =~= piece@.take(t as int).push(piece@[t as int]));
            }
            t = t + 1;
        }
        proof {
            if cut < len {
                assert(line@ =~= piece@.drop_last());
            } else {
                assert(line@ =~= piece@);
            }
        }
        out.push(line);
        k = k + 1;
    }
    proof {
        let body = if p.last().len() == 0 { p.drop_last() } else { p };
        assert(char_rows(out@) =~= lines(cs@)) by {
            assert forall|a: int| 0 <= a < keep implies #[trigger] char_rows(out@)[a] == lines(cs@)[a] by {
                assert(body[a] == p[a]);
            }
        }
    }
    out
}

/// Splitting gives at least one piece.
proof fn lemma_pieces_nonempty(s: Seq<char>, sep: char, i: int, cur: Seq<char>)
    ensures
        pieces_from(s, sep, i, cur).len() >= 1,
    decreases s.len() - i,
{
    if i < s.len() {
        if s[i] == sep {
            lemma_pieces_nonempty(s, sep, i + 1, Seq::empty());
        } else {
            lemma_pieces_nonempty(s, sep, i + 1, cur.push(s[i]));
        }
    }
}


/// An ASCII decimal digit.
pub open spec fn is_digit(c: char) -> bool {
    '0' <= c <= '9'
}

/// The value of the digits `ds` in base `radix` (10 or 16), where
/// `digit_of` reads one digit.
pub open spec fn digits_value(ds: Seq<char>, radix: int) -> int
    decreases ds.len(),
{
    if ds.len() == 0 {
        0
    } else {
        digits_value(ds.drop_last(), radix) * radix + digit_of(ds.last())
    }
}

/// The value of a decimal or hexadecimal digit (either case).
pub open spec fn digit_of(c: char) -> int {
    if '0' <= c <= '9' {
        c as int - '0' as int
    } else if 'a' <= c <= 'f' {
        c as int - 'a' as int + 10
    } else {
        c as int - 'A' as int + 10
    }
}

/// A hexadecimal digit.
pub open spec fn is_hex_digit(c: char) -> bool {
    ||| '0' <= c <= '9'
    ||| 'a' <= c <= 'f'
    ||| 'A' <= c <= 'F'
}

/// The digits of a decimal integer: the text without its sign.
pub open spec fn int_digits(s: Seq<char>) -> Seq<char> {
    if s.len() > 0 && (s[0] == '-' || s[0] == '+') {
        s.drop_first()
    } else {
        s
    }
}

/// The digits of a hexadecimal number: the text without a leading `+`.
pub open spec fn hex_digits(s: Seq<char>) -> Seq<char> {
    if s.len() > 0 && s[0] == '+' {
        s.drop_first()
    } else {
        s
    }
}

/// The integer written in `s`: an optional `+` or `-` and one or more
/// decimal digits.
pub open spec fn int_text(s: Seq<char>) -> Option<int> {
    let neg = s.len() > 0 && s[0] == '-';
    let ds = int_digits(s);
    if ds.len() > 0 && forall|k: int| 0 <= k < ds.len() ==> is_digit(#[trigger] ds[k]) {
        Some(if neg { -digits_value(ds, 10) } else { digits_value(ds, 10) })
    } else {
        None
    }
}

/// The number written in hexadecimal in `s`: an optional `+` and one or more
/// hexadecimal digits.
pub open spec fn hex_text(s: Seq<char>) -> Option<int> {
    let ds = hex_digits(s);
    if ds.len() > 0 && forall|k: int| 0 <= k < ds.len() ==> is_hex_digit(#[trigger] ds[k]) {
        Some(digits_value(ds, 16))
    } else {
        None
    }
}

proof fn lemma_digits_nonneg(ds: Seq<char>, radix: int)
    requires
        radix > 0,
        forall|k: int| 0 <= k < ds.len() ==> is_hex_digit(#[trigger] ds[k]),
    ensures
        digits_value(ds, radix) >= 0,
    decreases ds.len(),
{
    if ds.len() > 0 {
        assert(is_hex_digit(ds[ds.len() - 1]));
        lemma_digits_nonneg(ds.drop_last(), radix);
        assert(digits_value(ds.drop_last(), radix) * radix >= 0) by (nonlinear_arith)
            requires digits_value(ds.drop_last(), radix) >= 0, radix > 0;
    }
}

proof fn lemma_digits_grow(ds: Seq<char>, radix: int, k: int)
    requires
        radix > 1,
        0 <= k <= ds.len(),
        forall|j: int| 0 <= j < ds.len() ==> is_hex_digit(#[trigger] ds[j]),
    ensures
        digits_value(ds.take(k), radix) <= digits_value(ds, radix),
    decreases ds.len() - k,
{
    if k < ds.len() {
        lemma_digits_grow(ds, radix, k + 1);
        let a = ds.take(k);
        let b = ds.take(k + 1);
        assert(b.drop_last() =~= a);
        assert(is_hex_digit(ds[k]));
        lemma_digits_nonneg(a, radix);
        assert(digits_value(b, radix) == digits_value(a, radix) * radix + digit_of(ds[k]));
        assert(digits_value(a, radix) * radix >= digits_value(a, radix)) by (nonlinear_arith)
            requires digits_value(a, radix) >= 0, radix > 1;
    } else {
        assert(ds.take(k) =~= ds);
    }
}

/// Read the digits `ds[from..]` in base `radix`, failing beyond `limit`.
fn read_digits(ds: &[char], from: usize, radix: u64, limit: u64) -> (r: Option<u64>)
    requires
        radix == 10 || radix == 16,
        from <= ds@.len(),
        forall|k: int| from <= k < ds@.len() ==> if radix == 10 { is_digit(#[trigger] ds@[k]) } else { is_hex_digit(ds@[k]) },
    ensures
        match r {
            Some(v) => v == digits_value(ds@.skip(from as int), radix as int) && v <= limit,
            None => digits_value(ds@.skip(from as int), radix as int) > limit,
        },
{
    let ghost tail = ds@.skip(from as int);
    proof {
        assert forall|j: int| 0 <= j < tail.len() implies is_hex_digit(#[trigger] tail[j]) by {
            assert(tail[j] == ds@[from + j]);
        }
    }
    let mut v: u64 = 0;
    let mut i: usize = from;
    while i < ds.len()
        invariant
            radix == 10 || radix == 16,
            from <= i <= ds@.len(),
            tail == ds@.skip(from as int),
            forall|k: int| from <= k < ds@.len() ==> if radix == 10 { is_digit(#[trigger] ds@[k]) } else { is_hex_digit(ds@[k]) },
            forall|j: int| 0 <= j < tail.len() ==> is_hex_digit(#[trigger] tail[j]),
            v == digits_value(tail.take(i - from), radix as int),
            v <= limit,
        decreases ds@.len() - i,
    {
        let c = ds[i];
        let d: u64 = if '0' <= c && c <= '9' {
            (c as u32 - '0' as u32) as u64
        } else if 'a' <= c && c <= 'f' {
            (c as u32 - 'a' as u32 + 10) as u64
        } else {
            proof {
                assert(is_hex_digit(tail[i - from]));
            }
            (c as u32 - 'A' as u32 + 10) as u64
        };
        proof {
            assert(tail[i - from] == c);
            assert(tail.take(i - from + 1).drop_last() =~= tail.take(i - from));
            assert(d == digit_of(c));
        }
        let next = match v.checked_mul(radix) {
            Some(w) => w.checked_add(d),
            None => None,
        };
        match next {
            Some(w) if w <= limit => {
                v = w;
            },
            _ => {
                proof {
                    lemma_digits_grow(tail, radix as int, i - from + 1);
                    lemma_digits_nonneg(tail.take(i - from), radix as int);
                    assert(digits_value(tail.take(i - from + 1), radix as int) == v * radix + d);
                }
                return None;
            },
        }
        i = i + 1;
    }
    proof {
        assert(tail.take(i - from) =~= tail);
    }
    Some(v)
}


/// Whether `ds[from..]` is made of digits of the radix (10 or 16).
fn all_digits(ds: &[char], from: usize, radix: u64) -> (r: bool)
    requires
        from <= ds@.len(),
    ensures
        r == forall|k: int| from <= k < ds@.len() ==> if radix == 10 { is_digit(#[trigger] ds@[k]) } else { is_hex_digit(ds@[k]) },
{
    let mut i: usize = from;
    while i < ds.len()
        invariant
            from <= i <= ds@.len(),
            forall|k: int| from <= k < i ==> if radix == 10 { is_digit(#[trigger] ds@[k]) } else { is_hex_digit(ds@[k]) },
        decreases ds@.len() - i,
    {
        let c = ds[i];
        let ok = if radix == 10 {
            '0' <= c && c <= '9'
        } else {
            ('0' <= c && c <= '9') || ('a' <= c && c <= 'f') || ('A' <= c && c <= 'F')
        };
        if !ok {
            return false;
        }
        i = i + 1;
    }
    true
}

/// The integer written in the characters, as `str::parse::<i64>` reads it:
/// `None` where the text is not an integer or the integer does not fit.
pub fn parse_i64(cs: &[char]) -> (r: Option<i64>)
    ensures
        r == (match int_text(cs@) {
            Some(v) => if i64::MIN <= v <= i64::MAX { Some(v as i64) } else { None },
            None => None,
        }),
{
    let n = cs.len();
    let signed = n > 0 && (cs[0] == '-' || cs[0] == '+');
    let neg = n > 0 && cs[0] == '-';
    let from: usize = if signed { 1 } else { 0 };
    let ghost ds = int_digits(cs@);
    proof {
        assert(cs@.skip(from as int) =~= ds);
    }
    if from >= n || !all_digits(cs, from, 10) {
        proof {
            if from < n {
                let k = choose|k: int| from <= k < cs@.len() && !is_digit(#[trigger] cs@[k]);
                assert(!is_digit(ds[k - from]));
                assert(!(forall|j: int| 0 <= j < ds.len() ==> is_digit(#[trigger] ds[j])));
            }
            assert(int_text(cs@) is None);
        }
        return None;
    }
    proof {
        assert forall|k: int| 0 <= k < ds.len() implies is_digit(#[trigger] ds[k]) by {
            assert(ds[k] == cs@[k + from]);
        }
    }
    let limit: u64 = if neg { 0x8000_0000_0000_0000 } else { 0x7fff_ffff_ffff_ffff };
    match read_digits(cs, from, 10, limit) {
        Some(v) => {
            if neg {
                if v == 0x8000_0000_0000_0000 {
                    Some(i64::MIN)
                } else {
                    Some(-(v as i64))
                }
            } else {
                Some(v as i64)
            }
        },
        None => None,
    }
}

/// The number written in hexadecimal in the characters, as
/// `u64::from_str_radix(.., 16)` reads it: `None` where the text is not a
/// hexadecimal number or the number does not fit.
pub fn parse_hex_u64(cs: &[char]) -> (r: Option<u64>)
    ensures
        r == (match hex_text(cs@) {
            Some(v) => if v <= u64::MAX { Some(v as u64) } else { None },
            None => None,
        }),
{
    let n = cs.len();
    let from: usize = if n > 0 && cs[0] == '+' { 1 } else { 0 };
    let ghost ds = hex_digits(cs@);
    proof {
        assert(cs@.skip(from as int) =~= ds);
    }
    if from >= n || !all_digits(cs, from, 16) {
        proof {
            if from < n {
                let k = choose|k: int| from <= k < cs@.len() && !is_hex_digit(#[trigger] cs@[k]);
                assert(!is_hex_digit(ds[k - from]));
                assert(!(forall|j: int| 0 <= j < ds.len() ==> is_hex_digit(#[trigger] ds[j])));
            }
            assert(hex_text(cs@) is None);
        }
        return None;
    }
    proof {
        assert forall|k: int| 0 <= k < ds.len() implies is_hex_digit(#[trigger] ds[k]) by {
            assert(ds[k] == cs@[k + from]);
        }
    }
    read_digits(cs, from, 16, u64::MAX)
}


/// `s` without its leading whitespace.
pub open spec fn strip_front(s: Seq<char>) -> Seq<char>
    decreases s.len(),
{
    if s.len() > 0 && is_space(s[0]) {
        strip_front(s.drop_first())
    } else {
        s
    }
}

/// `s` without its trailing whitespace.
pub open spec fn strip_back(s: Seq<char>) -> Seq<char>
    decreases s.len(),
{
    if s.len() > 0 && is_space(s.last()) {
        strip_back(s.drop_last())
    } else {
        s
    }
}

/// `s` without leading and trailing whitespace, as `str::trim` gives it.
pub open spec fn trimmed(s: Seq<char>) -> Seq<char> {
    strip_back(strip_front(s))
}

/// `s` without its leading copies of `c`, as `str::trim_start_matches` gives
/// it.
pub open spec fn strip_front_char(s: Seq<char>, c: char) -> Seq<char>
    decreases s.len(),
{
    if s.len() > 0 && s[0] == c {
        strip_front_char(s.drop_first(), c)
    } else {
        s
    }
}

/// `s` without its trailing copies of `c`, as `str::trim_end_matches` gives
/// it.
pub open spec fn strip_back_char(s: Seq<char>, c: char) -> Seq<char>
    decreases s.len(),
{
    if s.len() > 0 && s.last() == c {
        strip_back_char(s.drop_last(), c)
    } else {
        s
    }
}

/// The characters `cs[a..b]`.
fn copy_range(cs: &[char], a: usize, b: usize) -> (r: Vec<char>)
    requires
        a <= b <= cs@.len(),
    ensures
        r@ == cs@.subrange(a as int, b as int),
{
    let mut r: Vec<char> = Vec::new();
    let mut i: usize = a;
    while i < b
        invariant
            a <= i <= b,
            b <= cs@.len(),
            r@ == cs@.subrange(a as int, i as int),
        decreases b - i,
    {
        r.push(cs[i]);
        proof {
            assert(cs@.subrange(a as int, i + 1) =~= cs@.subrange(a as int, i as int).push(cs@[i as int]));
        }
        i = i + 1;
    }
    r
}

proof fn lemma_strip_front_skip(s: Seq<char>, i: int)
    requires
        0 <= i <= s.len(),
        forall|k: int| 0 <= k < i ==> is_space(#[trigger] s[k]),
    ensures
        strip_front(s) == strip_front(s.skip(i)),
    decreases i,
{
    if i > 0 {
        lemma_strip_front_skip(s.drop_first(), i - 1);
        assert(s.drop_first().skip(i - 1) =~= s.skip(i));
        assert(is_space(s[0]));
    } else {
        assert(s.skip(0) =~= s);
    }
}

proof fn lemma_strip_back_take(s: Seq<char>, j: int)
    requires
        0 <= j <= s.len(),
        forall|k: int| j <= k < s.len() ==> is_space(#[trigger] s[k]),
    ensures
        strip_back(s) == strip_back(s.take(j)),
    decreases s.len() - j,
{
    if j < s.len() {
        assert(is_space(s[s.len() - 1]));
        lemma_strip_back_take(s.drop_last(), j);
        assert(s.drop_last().take(j) =~= s.take(j));
    } else {
        assert(s.take(j) =~= s);
    }
}

proof fn lemma_strip_front_char_skip(s: Seq<char>, c: char, i: int)
    requires
        0 <= i <= s.len(),
        forall|k: int| 0 <= k < i ==> #[trigger] s[k] == c,
    ensures
        strip_front_char(s, c) == strip_front_char(s.skip(i), c),
    decreases i,
{
    if i > 0 {
        lemma_strip_front_char_skip(s.drop_first(), c, i - 1);
        assert(s.drop_first().skip(i - 1) =~= s.skip(i));
        assert(s[0] == c);
    } else {
        assert(s.skip(0) =~= s);
    }
}

proof fn lemma_strip_back_char_take(s: Seq<char>, c: char, j: int)
    requires
        0 <= j <= s.len(),
        forall|k: int| j <= k < s.len() ==> #[trigger] s[k] == c,
    ensures
        strip_back_char(s, c) == strip_back_char(s.take(j), c),
    decreases s.len() - j,
{
    if j < s.len() {
        assert(s[s.len() - 1] == c);
        lemma_strip_back_char_take(s.drop_last(), c, j);
        assert(s.drop_last().take(j) =~= s.take(j));
    } else {
        assert(s.take(j) =~= s);
    }
}

/// The characters without leading and trailing whitespace.
pub fn trim(cs: &[char]) -> (r: Vec<char>)
    ensures
        r@ == trimmed(cs@),
{
    let n = cs.len();
    let mut a: usize = 0;
    while a < n && is_whitespace(cs[a])
        invariant
            a <= n,
            n == cs@.len(),
            forall|k: int| 0 <= k < a ==> is_space(#[trigger] cs@[k]),
        decreases n - a,
    {
        a = a + 1;
    }
    let mut b: usize = n;
    while b > a && is_whitespace(cs[b - 1])
        invariant
            a <= b <= n,
            n == cs@.len(),
            forall|k: int| b <= k < n ==> is_space(#[trigger] cs@[k]),
        decreases b,
    {
        b = b - 1;
    }
    proof {
        let f = cs@.skip(a as int);
        lemma_strip_front_skip(cs@, a as int);
        if a < n {
            assert(!is_space(f[0]));
        }
        assert(strip_front(f) == f);
        lemma_strip_back_take(f, (b - a) as int);
        assert forall|k: int| (b - a) <= k < f.len() implies is_space(#[trigger] f[k]) by {
            assert(f[k] == cs@[k + a]);
        }
        lemma_strip_back_take(f, (b - a) as int);
        let g = f.take((b - a) as int);
        if b > a {
            assert(g.last() == cs@[b - 1]);
        }
        assert(strip_back(g) == g);
        assert(g =~= cs@.subrange(a as int, b as int));
    }
    copy_range(cs, a, b)
}

/// The characters without leading copies of `c` and trailing copies of `d`.
pub fn strip_chars(cs: &[char], c: char, d: char) -> (r: Vec<char>)
    ensures
        r@ == strip_back_char(strip_front_char(cs@, c), d),
{
    let n = cs.len();
    let mut a: usize = 0;
    while a < n && cs[a] == c
        invariant
            a <= n,
            n == cs@.len(),
            forall|k: int| 0 <= k < a ==> #[trigger] cs@[k] == c,
        decreases n - a,
    {
        a = a + 1;
    }
    let mut b: usize = n;
    while b > a && cs[b - 1] == d
        invariant
            a <= b <= n,
            n == cs@.len(),
            forall|k: int| b <= k < n ==> #[trigger] cs@[k] == d,
        decreases b,
    {
        b = b - 1;
    }
    proof {
        let f = cs@.skip(a as int);
        lemma_strip_front_char_skip(cs@, c, a as int);
        assert(strip_front_char(f, c) == f);
        assert forall|k: int| (b - a) <= k < f.len() implies #[trigger] f[k] == d by {
            assert(f[k] == cs@[k + a]);
        }
        lemma_strip_back_char_take(f, d, (b - a) as int);
        let g = f.take((b - a) as int);
        if b > a {
            assert(g.last() == cs@[b - 1]);
        }
        assert(strip_back_char(g, d) == g);
        assert(g =~= cs@.subrange(a as int, b as int));
    }
    copy_range(cs, a, b)
}


/// The decimal digit character of `d < 10`.
pub open spec fn digit_char(d: int) -> char {
    ('0' as int + d) as char
}

/// The decimal digits of `n`, without leading zeros (`0` for zero).
pub open spec fn digits_text(n: nat) -> Seq<char>
    decreases n,
{
    if n < 10 {
        seq![digit_char(n as int)]
    } else {
        digits_text(n / 10).push(digit_char((n % 10) as int))
    }
}

/// An integer in decimal, as `i64::to_string` writes it.
pub open spec fn decimal_text(v: int) -> Seq<char> {
    if v < 0 {
        seq!['-'] + digits_text((-v) as nat)
    } else {
        digits_text(v as nat)
    }
}

/// Append the decimal digits of `n`.
fn push_digits(s: &mut String, n: u64)
    ensures
        final(s)@ == old(s)@ + digits_text(n as nat),
    decreases n,
{
    if n >= 10 {
        push_digits(s, n / 10);
    }
    let d = (n % 10) as u8;
    let c = (48u8 + d) as char;
    proof {
        assert(c == digit_char(d as int));
    }
    crate::g6::push_char(s, c);
}

/// Append an integer in decimal.
pub fn push_i64(s: &mut String, v: i64)
    ensures
        final(s)@ == old(s)@ + decimal_text(v as int),
{
    if v < 0 {
        crate::g6::push_char(s, '-');
        let m: u64 = if v == i64::MIN { 0x8000_0000_0000_0000 } else { (-v) as u64 };
        push_digits(s, m);
        proof {
            assert(old(s)@.push('-') + digits_text(m as nat) =~= old(s)@ + decimal_text(v as int));
        }
    } else {
        push_digits(s, v as u64);
    }
}

} // verus!
