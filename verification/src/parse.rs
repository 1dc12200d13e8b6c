//! Verified helpers for reading the small line formats the puzzle inputs
//! use: splitting on a separator character and reading decimal integers.
use vstd::prelude::*;

verus! {

/// Token boundaries of `s` split at `sep`, scanning from position `cur`
/// with the current token starting at `start`. Splitting always yields at
/// least one (possibly empty) token, as `str::split` does.
pub open spec fn split_from(s: Seq<char>, sep: char, start: int, cur: int) -> Seq<(int, int)>
    recommends
        0 <= start <= cur <= s.len(),
    decreases s.len() - cur,
{
    if cur < 0 || cur >= s.len() {
        seq![(start, s.len() as int)]
    } else if s[cur] == sep {
        seq![(start, cur)] + split_from(s, sep, cur + 1, cur + 1)
    } else {
        split_from(s, sep, start, cur + 1)
    }
}

/// The token boundaries of `s` split at `sep`.
pub open spec fn tokens(s: Seq<char>, sep: char) -> Seq<(int, int)> {
    split_from(s, sep, 0, 0)
}

/// The characters of token `b` of `s`.
pub open spec fn token_view(s: Seq<char>, b: (int, int)) -> Seq<char> {
    s.subrange(b.0, b.1)
}

/// Every token boundary is a well-formed range of `s`.
pub proof fn lemma_split_from_wf(s: Seq<char>, sep: char, start: int, cur: int)
    requires
        0 <= start <= cur <= s.len(),
    ensures
        ({
            let bs = split_from(s, sep, start, cur);
            &&& bs.len() >= 1
            &&& forall|k: int| 0 <= k < bs.len() ==> 0 <= (#[trigger] bs[k]).0 <= bs[k].1
                <= s.len()
        }),
    decreases s.len() - cur,
{
    if cur < s.len() {
        if s[cur] == sep {
            lemma_split_from_wf(s, sep, cur + 1, cur + 1);
        } else {
            lemma_split_from_wf(s, sep, start, cur + 1);
        }
    }
}

/// Splits `s` at `sep`, returning the token boundaries.
pub fn split_ranges(s: &str, sep: char) -> (r: Vec<(usize, usize)>)
    ensures
        r@.map_values(|b: (usize, usize)| (b.0 as int, b.1 as int)) == tokens(s@, sep),
        forall|k: int| 0 <= k < r@.len() ==> (#[trigger] r@[k]).0 <= r@[k].1 <= s@.len(),
{
    let n = s.unicode_len();
    let mut r: Vec<(usize, usize)> = Vec::new();
    let mut start: usize = 0;
    let mut cur: usize = 0;
    while cur < n
        invariant
            0 <= start <= cur <= n,
            n == s@.len(),
            forall|k: int| 0 <= k < r@.len() ==> (#[trigger] r@[k]).0 <= r@[k].1 <= n,
            tokens(s@, sep) == r@.map_values(|b: (usize, usize)| (b.0 as int, b.1 as int))
                + split_from(s@, sep, start as int, cur as int),
        decreases n - cur,
    {
        let c = s.get_char(cur);
        let ghost before = r@.map_values(|b: (usize, usize)| (b.0 as int, b.1 as int));
        if c == sep {
            r.push((start, cur));
            proof {
                assert(r@.map_values(|b: (usize, usize)| (b.0 as int, b.1 as int)) =~= before
                    + seq![(start as int, cur as int)]);
                assert(split_from(s@, sep, start as int, cur as int) == seq![
                    (start as int, cur as int),
                ] + split_from(s@, sep, cur + 1, cur + 1));
            }
            start = cur + 1;
        }
        cur = cur + 1;
    }
    let ghost before = r@.map_values(|b: (usize, usize)| (b.0 as int, b.1 as int));
    r.push((start, n));
    proof {
        assert(split_from(s@, sep, start as int, cur as int) == seq![(start as int, n as int)]);
        assert(r@.map_values(|b: (usize, usize)| (b.0 as int, b.1 as int)) =~= before + seq![
            (start as int, n as int),
        ]);
    }
    r
}

/// A decimal digit.
pub open spec fn is_digit(c: char) -> bool {
    48 <= c as u32 <= 57
}

pub open spec fn digit_val(c: char) -> int {
    c as u32 - 48
}

pub open spec fn all_digits(t: Seq<char>) -> bool {
    forall|k: int| 0 <= k < t.len() ==> is_digit(#[trigger] t[k])
}

/// The value of a digit string, most significant digit first.
pub open spec fn digits_val(t: Seq<char>) -> int
    decreases t.len(),
{
    if t.len() == 0 {
        0
    } else {
        10 * digits_val(t.drop_last()) + digit_val(t.last())
    }
}

/// An unsigned decimal token: one or more digits.
pub open spec fn parse_uint_tok(t: Seq<char>) -> Option<int> {
    if t.len() >= 1 && all_digits(t) {
        Some(digits_val(t))
    } else {
        None
    }
}

/// A signed decimal token: an optional leading minus sign, then digits.
pub open spec fn parse_int_tok(t: Seq<char>) -> Option<int> {
    if t.len() >= 1 && t[0] == '-' {
        match parse_uint_tok(t.skip(1)) {
            Some(v) => Some(-v),
            None => None,
        }
    } else {
        parse_uint_tok(t)
    }
}

pub proof fn lemma_digits_val_prefix(t: Seq<char>, j: int)
    requires
        all_digits(t),
        0 <= j <= t.len(),
    ensures
        0 <= digits_val(t.take(j)) <= digits_val(t),
    decreases t.len() - j,
{
    if j == t.len() {
        assert(t.take(j) =~= t);
        lemma_digits_val_nonneg(t);
    } else {
        lemma_digits_val_prefix(t, j + 1);
        assert(t.take(j + 1).drop_last() =~= t.take(j));
        assert(t.take(j + 1).last() == t[j]);
        assert(all_digits(t.take(j))) by {
            assert(forall|k: int| 0 <= k < j ==> t.take(j)[k] == t[k]);
        }
        lemma_digits_val_nonneg(t.take(j));
        assert(digits_val(t.take(j + 1)) == 10 * digits_val(t.take(j)) + digit_val(t[j]));
    }
}

pub proof fn lemma_digits_val_nonneg(t: Seq<char>)
    requires
        all_digits(t),
    ensures
        digits_val(t) >= 0,
    decreases t.len(),
{
    if t.len() > 0 {
        assert(all_digits(t.drop_last())) by {
            assert(forall|k: int| 0 <= k < t.len() - 1 ==> t.drop_last()[k] == t[k]);
        }
        lemma_digits_val_nonneg(t.drop_last());
        assert(is_digit(t[t.len() - 1]));
    }
}

/// Reads the digits of `s` between `from` and `to` as a `usize`.
pub fn parse_usize_range(s: &str, from: usize, to: usize) -> (r: usize)
    requires
        from <= to <= s@.len(),
        parse_uint_tok(s@.subrange(from as int, to as int)) is Some,
        digits_val(s@.subrange(from as int, to as int)) <= usize::MAX as int,
    ensures
        r as int == digits_val(s@.subrange(from as int, to as int)),
{
    let ghost t = s@.subrange(from as int, to as int);
    let mut acc: usize = 0;
    let mut k: usize = from;
    while k < to
        invariant
            from <= k <= to <= s@.len(),
            t == s@.subrange(from as int, to as int),
            all_digits(t),
            digits_val(t) <= usize::MAX as int,
            acc as int == digits_val(t.take(k - from)),
        decreases to - k,
    {
        proof {
            lemma_digits_val_prefix(t, k - from + 1);
            assert(t.take(k - from + 1).drop_last() =~= t.take(k - from));
            assert(t.take(k - from + 1).last() == t[k - from]);
            assert(t[k - from] == s@[k as int]);
            assert(is_digit(t[k - from]));
        }
        let c = s.get_char(k);
        let d: u32 = (c as u32) - 48;
        assert(digits_val(t.take(k - from + 1)) == 10 * acc + d);
        acc = acc * 10 + (d as usize);
        k = k + 1;
    }
    proof {
        assert(t.take(to - from) =~= t);
    }
    acc
}

/// Reads an optionally negated run of digits of `s` between `from` and `to`
/// as an `i32`.
pub fn parse_i32_range(s: &str, from: usize, to: usize) -> (r: i32)
    requires
        from <= to <= s@.len(),
        parse_int_tok(s@.subrange(from as int, to as int)) is Some,
        ({
            let v = parse_int_tok(s@.subrange(from as int, to as int))->0;
            (i32::MIN as int) < v && v <= i32::MAX as int
        }),
    ensures
        r as int == parse_int_tok(s@.subrange(from as int, to as int))->0,
{
    let ghost t = s@.subrange(from as int, to as int);
    let first = s.get_char(from);
    if first == '-' {
        assert(t.skip(1) =~= s@.subrange(from + 1, to as int));
        proof {
            lemma_digits_val_nonneg(t.skip(1));
        }
        let mag = parse_usize_range(s, from + 1, to);
        let m32 = mag as i32;
        assert(m32 as int == digits_val(t.skip(1)));
        -m32
    } else {
        assert(t[0] != '-');
        proof {
            lemma_digits_val_nonneg(t);
        }
        let mag = parse_usize_range(s, from, to);
        mag as i32
    }
}

/// Whether the characters of `s` between `from` and `to` are exactly the
/// characters of `lit`.
pub fn range_eq(s: &str, from: usize, to: usize, lit: &str) -> (r: bool)
    requires
        from <= to <= s@.len(),
    ensures
        r == (s@.subrange(from as int, to as int) == lit@),
{
    let ghost t = s@.subrange(from as int, to as int);
    let n = lit.unicode_len();
    if n != to - from {
        return false;
    }
    let mut k: usize = 0;
    while k < n
        invariant
            0 <= k <= n,
            n == lit@.len(),
            n == to - from,
            from <= to <= s@.len(),
            t == s@.subrange(from as int, to as int),
            forall|j: int| 0 <= j < k ==> t[j] == lit@[j],
        decreases n - k,
    {
        let a = s.get_char(from + k);
        let b = lit.get_char(k);
        if a != b {
            assert(t[k as int] != lit@[k as int]);
            return false;
        }
        k = k + 1;
    }
    proof {
        assert(t =~= lit@);
    }
    true
}

/// An unsigned decimal token whose value fits a `usize`.
pub open spec fn valid_usize_tok(t: Seq<char>) -> bool {
    parse_uint_tok(t) is Some && digits_val(t) <= usize::MAX as int
}

/// What a coordinate pair token such as `242,601` holds.
pub open spec fn pair_of(t: Seq<char>) -> Option<(int, int)> {
    let bs = tokens(t, ',');
    if bs.len() == 2 && valid_usize_tok(token_view(t, bs[0])) && valid_usize_tok(
        token_view(t, bs[1]),
    ) {
        Some((digits_val(token_view(t, bs[0])), digits_val(token_view(t, bs[1]))))
    } else {
        None
    }
}

/// Reads one `x,y` coordinate pair out of `s` between `from` and `to`.
pub fn parse_pair_range(s: &str, from: usize, to: usize) -> (p: (usize, usize))
    requires
        from <= to <= s@.len(),
        pair_of(s@.subrange(from as int, to as int)) is Some,
    ensures
        ({
            let t = pair_of(s@.subrange(from as int, to as int))->0;
            p.0 as int == t.0 && p.1 as int == t.1
        }),
{
    let ghost t = s@.subrange(from as int, to as int);
    proof {
        lemma_split_from_wf(t, ',', 0, 0);
    }
    let sub = s.substring_char(from, to);
    let rs = split_ranges(sub, ',');
    let ghost bs = tokens(t, ',');
    proof {
        assert(rs@.map_values(|b: (usize, usize)| (b.0 as int, b.1 as int))[0] == bs[0]);
        assert(rs@.map_values(|b: (usize, usize)| (b.0 as int, b.1 as int))[1] == bs[1]);
    }
    let r0 = rs[0];
    let r1 = rs[1];
    proof {
        assert(sub@.subrange(r0.0 as int, r0.1 as int) =~= token_view(t, bs[0]));
        assert(sub@.subrange(r1.0 as int, r1.1 as int) =~= token_view(t, bs[1]));
    }
    let x = parse_usize_range(sub, r0.0, r0.1);
    let y = parse_usize_range(sub, r1.0, r1.1);
    (x, y)
}

/// The line boundaries of `s`: newline-separated tokens, without the empty
/// token a trailing newline would leave.
pub open spec fn line_ranges(s: Seq<char>) -> Seq<(int, int)> {
    let ts = tokens(s, '\n');
    if ts.len() > 0 && ts.last().0 == ts.last().1 {
        ts.drop_last()
    } else {
        ts
    }
}

/// Splits `s` into lines, returning their boundaries.
pub fn split_lines(s: &str) -> (r: Vec<(usize, usize)>)
    ensures
        r@.map_values(|b: (usize, usize)| (b.0 as int, b.1 as int)) == line_ranges(s@),
        forall|k: int| 0 <= k < r@.len() ==> (#[trigger] r@[k]).0 <= r@[k].1 <= s@.len(),
{
    let mut r = split_ranges(s, '\n');
    let ghost full = r@.map_values(|b: (usize, usize)| (b.0 as int, b.1 as int));
    if r.len() > 0 {
        let last = r[r.len() - 1];
        if last.0 == last.1 {
            r.pop();
            proof {
                assert(r@.map_values(|b: (usize, usize)| (b.0 as int, b.1 as int)) =~= full
                    .drop_last());
            }
        }
    }
    r
}

/// Every character of every line of `s` is a decimal digit.
pub open spec fn digit_grid_ok(s: Seq<char>) -> bool {
    let ls = line_ranges(s);
    forall|y: int| 0 <= y < ls.len() ==> all_digits(token_view(s, #[trigger] ls[y]))
}

/// Reads a grid of single digits, one row per line.
pub fn digit_grid(input: &str) -> (g: Vec<Vec<u32>>)
    requires
        digit_grid_ok(input@),
    ensures
        ({
            let ls = line_ranges(input@);
            &&& g@.len() == ls.len()
            &&& forall|y: int| 0 <= y < ls.len() ==> (#[trigger] g@[y])@.len() == ls[y].1 - ls[y].0
            &&& forall|y: int, j: int|
                0 <= y < ls.len() && 0 <= j < g@[y]@.len() ==> (#[trigger] g@[y]@[j]) as int
                    == digit_val(token_view(input@, ls[y])[j])
        }),
{
    let ghost ls = line_ranges(input@);
    let lines = split_lines(input);
    let mut g: Vec<Vec<u32>> = Vec::new();
    let mut y: usize = 0;
    while y < lines.len()
        invariant
            0 <= y <= lines@.len(),
            ls == line_ranges(input@),
            digit_grid_ok(input@),
            lines@.map_values(|b: (usize, usize)| (b.0 as int, b.1 as int)) == ls,
            forall|k: int| 0 <= k < lines@.len() ==> (#[trigger] lines@[k]).0 <= lines@[k].1
                <= input@.len(),
            g@.len() == y,
            forall|k: int| 0 <= k < y ==> (#[trigger] g@[k])@.len() == ls[k].1 - ls[k].0,
            forall|k: int, j: int|
                0 <= k < y && 0 <= j < g@[k]@.len() ==> (#[trigger] g@[k]@[j]) as int == digit_val(
                    token_view(input@, ls[k])[j],
                ),
        decreases lines@.len() - y,
    {
        let (from, to) = lines[y];
        proof {
            assert(ls[y as int] == (from as int, to as int));
            assert(all_digits(token_view(input@, ls[y as int])));
        }
        let mut row: Vec<u32> = Vec::new();
        let mut k: usize = from;
        while k < to
            invariant
                from <= k <= to <= input@.len(),
                ls == line_ranges(input@),
                0 <= y < ls.len(),
                ls[y as int] == (from as int, to as int),
                all_digits(token_view(input@, ls[y as int])),
                row@.len() == k - from,
                forall|j: int| 0 <= j < row@.len() ==> (#[trigger] row@[j]) as int == digit_val(
                    token_view(input@, ls[y as int])[j],
                ),
            decreases to - k,
        {
            proof {
                assert(token_view(input@, ls[y as int])[k - from] == input@[k as int]);
                assert(is_digit(input@[k as int]));
            }
            let c = input.get_char(k);
            row.push((c as u32) - 48);
            k = k + 1;
        }
        g.push(row);
        y = y + 1;
    }
    g
}

/// The boundaries of the space-separated fields of `s`, scanning from
/// `cur`, with `start` the beginning of the field being read, if one is.
/// Runs of spaces separate fields, and empty fields do not arise.
pub open spec fn fields_from(s: Seq<char>, start: Option<int>, cur: int) -> Seq<(int, int)>
    decreases s.len() - cur,
{
    if cur < 0 || cur >= s.len() {
        match start {
            Some(st) => seq![(st, s.len() as int)],
            None => Seq::empty(),
        }
    } else if s[cur] == ' ' {
        match start {
            Some(st) => seq![(st, cur)] + fields_from(s, None, cur + 1),
            None => fields_from(s, None, cur + 1),
        }
    } else {
        match start {
            Some(_) => fields_from(s, start, cur + 1),
            None => fields_from(s, Some(cur), cur + 1),
        }
    }
}

/// The boundaries of the space-separated fields of `s`.
pub open spec fn fields(s: Seq<char>) -> Seq<(int, int)> {
    fields_from(s, None, 0)
}

/// Splits `s` into space-separated fields, returning their boundaries.
pub fn split_fields(s: &str) -> (r: Vec<(usize, usize)>)
    ensures
        r@.map_values(|b: (usize, usize)| (b.0 as int, b.1 as int)) == fields(s@),
        forall|k: int| 0 <= k < r@.len() ==> (#[trigger] r@[k]).0 <= r@[k].1 <= s@.len(),
{
    let n = s.unicode_len();
    let mut r: Vec<(usize, usize)> = Vec::new();
    let mut start: Option<usize> = None;
    let mut cur: usize = 0;
    while cur < n
        invariant
            0 <= cur <= n,
            n == s@.len(),
            match start {
                Some(st) => st < cur,
                None => true,
            },
            forall|k: int| 0 <= k < r@.len() ==> (#[trigger] r@[k]).0 <= r@[k].1 <= n,
            fields(s@) == r@.map_values(|b: (usize, usize)| (b.0 as int, b.1 as int))
                + fields_from(
                s@,
                match start {
                    Some(st) => Some(st as int),
                    None => None,
                },
                cur as int,
            ),
        decreases n - cur,
    {
        let c = s.get_char(cur);
        let ghost before = r@.map_values(|b: (usize, usize)| (b.0 as int, b.1 as int));
        if c == ' ' {
            if let Some(st) = start {
                r.push((st, cur));
                proof {
                    assert(r@.map_values(|b: (usize, usize)| (b.0 as int, b.1 as int)) =~= before
                        + seq![(st as int, cur as int)]);
                }
                start = None;
            }
        } else {
            if start.is_none() {
                start = Some(cur);
            }
        }
        cur = cur + 1;
    }
    if let Some(st) = start {
        let ghost before = r@.map_values(|b: (usize, usize)| (b.0 as int, b.1 as int));
        r.push((st, n));
        proof {
            assert(r@.map_values(|b: (usize, usize)| (b.0 as int, b.1 as int)) =~= before + seq![
                (st as int, n as int),
            ]);
        }
    }
    r
}

/// Whether two strings hold the same characters.
pub fn str_eq(a: &str, b: &str) -> (r: bool)
    ensures
        r == (a@ == b@),
{
    let n = a.unicode_len();
    let r = range_eq(a, 0, n, b);
    proof {
        assert(a@.subrange(0, n as int) =~= a@);
    }
    r
}

} // verus!
