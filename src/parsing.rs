use vstd::prelude::*;

verus! {

/// An ASCII white-space byte: tab, line feed, vertical tab, form feed, carriage
/// return, space.
pub open spec fn is_ascii_blank(b: u8) -> bool {
    (9 <= b <= 13) || b == 32
}

/// The UTF-8 encoding of U+0085 or U+00A0.
pub open spec fn is_blank2(a: u8, b: u8) -> bool {
    a == 0xC2 && (b == 0x85 || b == 0xA0)
}

/// The UTF-8 encoding of U+1680, U+2000 to U+200A, U+2028, U+2029, U+202F, U+205F
/// or U+3000.
pub open spec fn is_blank3(a: u8, b: u8, c: u8) -> bool {
    ||| (a == 0xE1 && b == 0x9A && c == 0x80)
    ||| (a == 0xE2 && b == 0x80 && ((0x80 <= c <= 0x8A) || c == 0xA8 || c == 0xA9 || c == 0xAF))
    ||| (a == 0xE2 && b == 0x81 && c == 0x9F)
    ||| (a == 0xE3 && b == 0x80 && c == 0x80)
}

/// Length in bytes of the Unicode white-space character that starts `s` in UTF-8;
/// 0 when `s` starts with none.
pub open spec fn blank_prefix_len(s: Seq<u8>) -> nat {
    if s.len() >= 1 && is_ascii_blank(s[0]) {
        1
    } else if s.len() >= 2 && is_blank2(s[0], s[1]) {
        2
    } else if s.len() >= 3 && is_blank3(s[0], s[1], s[2]) {
        3
    } else {
        0
    }
}

/// Length in bytes of the Unicode white-space character that ends `s` in UTF-8; 0
/// when `s` ends with none.
pub open spec fn blank_suffix_len(s: Seq<u8>) -> nat {
    let n = s.len() as int;
    if n >= 1 && is_ascii_blank(s[n - 1]) {
        1
    } else if n >= 2 && is_blank2(s[n - 2], s[n - 1]) {
        2
    } else if n >= 3 && is_blank3(s[n - 3], s[n - 2], s[n - 1]) {
        3
    } else {
        0
    }
}

pub open spec fn is_digit(b: u8) -> bool {
    48 <= b <= 57
}

pub open spec fn all_digits(s: Seq<u8>) -> bool {
    forall|i: int| 0 <= i < s.len() ==> is_digit(#[trigger] s[i])
}

/// The number that a string of decimal digits spells.
pub open spec fn decimal_value(s: Seq<u8>) -> nat
    decreases s.len(),
{
    if s.len() == 0 {
        0
    } else {
        decimal_value(s.drop_last()) * 10 + (s.last() - 48) as nat
    }
}

/// The unsigned number that `t` spells, when it is an optional `+` followed by one
/// or more decimal digits and the value is at most `limit`.
pub open spec fn number_of(t: Seq<u8>, limit: nat) -> Option<nat> {
    let d = if t.len() > 0 && t[0] == 43 {
        t.drop_first()
    } else {
        t
    };
    if d.len() >= 1 && all_digits(d) && decimal_value(d) <= limit {
        Some(decimal_value(d))
    } else {
        None
    }
}

/// `s` without white space at either end.
pub open spec fn trim_blank(s: Seq<u8>) -> Seq<u8>
    decreases s.len(),
{
    if blank_prefix_len(s) > 0 {
        trim_blank(s.subrange(blank_prefix_len(s) as int, s.len() as int))
    } else if blank_suffix_len(s) > 0 {
        trim_blank(s.subrange(0, s.len() - blank_suffix_len(s)))
    } else {
        s
    }
}

/// Length of the run of bytes that starts `s` and holds no white-space character.
pub open spec fn token_len(s: Seq<u8>) -> nat
    decreases s.len(),
{
    if s.len() == 0 || blank_prefix_len(s) > 0 {
        0
    } else {
        1 + token_len(s.drop_first())
    }
}

/// The values of the white-space separated tokens of `s` that spell a `u32`, in
/// order; the other tokens are skipped.
pub open spec fn row_values(s: Seq<u8>) -> Seq<u32>
    decreases s.len(),
    via row_values_decreases
{
    if s.len() == 0 {
        seq![]
    } else if blank_prefix_len(s) > 0 {
        row_values(s.subrange(blank_prefix_len(s) as int, s.len() as int))
    } else {
        let k = token_len(s) as int;
        let rest = row_values(s.subrange(k, s.len() as int));
        match number_of(s.subrange(0, k), u32::MAX as nat) {
            Some(v) => seq![v as u32] + rest,
            None => rest,
        }
    }
}

proof fn lemma_token_len(s: Seq<u8>)
    ensures
        token_len(s) <= s.len(),
        s.len() > 0 && blank_prefix_len(s) == 0 ==> token_len(s) >= 1,
    decreases s.len(),
{
    if s.len() > 0 && blank_prefix_len(s) == 0 {
        lemma_token_len(s.drop_first());
    }
}

#[via_fn]
proof fn row_values_decreases(s: Seq<u8>) {
    if s.len() > 0 && blank_prefix_len(s) == 0 {
        lemma_token_len(s);
    }
}

/// A prefix of a digit string spells at most the whole string's value.
proof fn lemma_decimal_prefix(s: Seq<u8>, i: int)
    requires
        0 <= i <= s.len(),
        all_digits(s),
    ensures
        decimal_value(s.take(i)) <= decimal_value(s),
    decreases s.len(),
{
    if i < s.len() {
        assert(s.drop_last().take(i) == s.take(i));
        lemma_decimal_prefix(s.drop_last(), i);
    } else {
        assert(s.take(i) == s);
    }
}

/// The `u64` value of `text[start..end]` read as by `number_of` with `limit`.
pub fn parse_number(text: &[u8], start: usize, end: usize, limit: u64) -> (r: Option<u64>)
    requires
        start <= end <= text@.len(),
    ensures
        match number_of(text@.subrange(start as int, end as int), limit as nat) {
            Some(v) => r == Some(v as u64),
            None => r is None,
        },
{
    let ghost t = text@.subrange(start as int, end as int);
    let mut first = start;
    if first < end && text[first] == 43 {
        first = first + 1;
    }
    let ghost d = text@.subrange(first as int, end as int);
    assert(d == if t.len() > 0 && t[0] == 43 {
        t.drop_first()
    } else {
        t
    });
    if first == end {
        return None;
    }
    let mut value: u64 = 0;
    let mut i: usize = first;
    while i < end
        invariant
            start <= first < end <= text@.len(),
            d == text@.subrange(first as int, end as int),
            t == text@.subrange(start as int, end as int),
            d == if t.len() > 0 && t[0] == 43 {
                t.drop_first()
            } else {
                t
            },
            first <= i <= end,
            all_digits(d.take(i - first)),
            value == decimal_value(d.take(i - first)),
            value <= limit,
        decreases end - i,
    {
        let b = text[i];
        assert(b == d[i - first]);
        if b < 48 || b > 57 {
            assert(!all_digits(d));
            return None;
        }
        let digit = (b - 48) as u64;
        assert(d.take(i + 1 - first).drop_last() == d.take(i - first));
        if digit > limit || value > (limit - digit) / 10 {
            proof {
                assert(value * 10 + digit > limit) by (nonlinear_arith)
                    requires
                        digit > limit || value > (limit - digit) / 10,
                        digit <= limit ==> limit - digit >= 0,
                ;
                if all_digits(d) {
                    lemma_decimal_prefix(d, i + 1 - first);
                }
            }
            return None;
        }
        assert(value * 10 + digit <= limit) by (nonlinear_arith)
            requires
                digit <= limit,
                value <= (limit - digit) / 10,
        ;
        value = value * 10 + digit;
        i = i + 1;
        assert(all_digits(d.take(i - first))) by {
            assert forall|j: int| 0 <= j < i - first implies is_digit(#[trigger] d.take(i - first)[j]) by {
                if j < i - 1 - first {
                    assert(d.take(i - first)[j] == d.take(i - 1 - first)[j]);
                }
            }
        }
    }
    assert(d.take(i - first) == d);
    Some(value)
}

fn ascii_blank(b: u8) -> (r: bool)
    ensures
        r == is_ascii_blank(b),
{
    (9 <= b && b <= 13) || b == 32
}

fn blank2(a: u8, b: u8) -> (r: bool)
    ensures
        r == is_blank2(a, b),
{
    a == 0xC2 && (b == 0x85 || b == 0xA0)
}

fn blank3(a: u8, b: u8, c: u8) -> (r: bool)
    ensures
        r == is_blank3(a, b, c),
{
    (a == 0xE1 && b == 0x9A && c == 0x80) || (a == 0xE2 && b == 0x80 && ((0x80 <= c && c <= 0x8A)
        || c == 0xA8 || c == 0xA9 || c == 0xAF)) || (a == 0xE2 && b == 0x81 && c == 0x9F) || (a
        == 0xE3 && b == 0x80 && c == 0x80)
}

/// `blank_prefix_len` of `text[start..end]`.
pub fn blank_prefix(text: &[u8], start: usize, end: usize) -> (r: usize)
    requires
        start <= end <= text@.len(),
    ensures
        r == blank_prefix_len(text@.subrange(start as int, end as int)),
{
    let n = end - start;
    if n >= 1 && ascii_blank(text[start]) {
        1
    } else if n >= 2 && blank2(text[start], text[start + 1]) {
        2
    } else if n >= 3 && blank3(text[start], text[start + 1], text[start + 2]) {
        3
    } else {
        0
    }
}

/// `blank_suffix_len` of `text[start..end]`.
pub fn blank_suffix(text: &[u8], start: usize, end: usize) -> (r: usize)
    requires
        start <= end <= text@.len(),
    ensures
        r == blank_suffix_len(text@.subrange(start as int, end as int)),
{
    let n = end - start;
    if n >= 1 && ascii_blank(text[end - 1]) {
        1
    } else if n >= 2 && blank2(text[end - 2], text[end - 1]) {
        2
    } else if n >= 3 && blank3(text[end - 3], text[end - 2], text[end - 1]) {
        3
    } else {
        0
    }
}

/// The bounds of `text[start..end]` without white space at either end.
pub fn trim_bounds(text: &[u8], start: usize, end: usize) -> (r: (usize, usize))
    requires
        start <= end <= text@.len(),
    ensures
        start <= r.0 <= r.1 <= end,
        text@.subrange(r.0 as int, r.1 as int) == trim_blank(text@.subrange(start as int, end as int)),
{
    let mut a = start;
    let mut p = blank_prefix(text, a, end);
    while p > 0
        invariant
            start <= a <= end <= text@.len(),
            p == blank_prefix_len(text@.subrange(a as int, end as int)),
            trim_blank(text@.subrange(start as int, end as int)) == trim_blank(
                text@.subrange(a as int, end as int),
            ),
        decreases end - a,
    {
        assert(text@.subrange(a as int, end as int).subrange(p as int, end - a) == text@.subrange(
            a + p,
            end as int,
        ));
        a = a + p;
        p = blank_prefix(text, a, end);
    }
    let mut b = end;
    let mut q = blank_suffix(text, a, b);
    while q > 0
        invariant
            start <= a <= b <= end <= text@.len(),
            blank_prefix_len(text@.subrange(a as int, b as int)) == 0,
            q == blank_suffix_len(text@.subrange(a as int, b as int)),
            trim_blank(text@.subrange(start as int, end as int)) == trim_blank(
                text@.subrange(a as int, b as int),
            ),
        decreases b - a,
    {
        let ghost longer = text@.subrange(a as int, b as int);
        assert(longer.subrange(0, b - a - q) == text@.subrange(a as int, b - q));
        b = b - q;
        let ghost shorter = text@.subrange(a as int, b as int);
        assert(blank_prefix_len(shorter) == 0) by {
            if shorter.len() >= 1 {
                assert(shorter[0] == longer[0]);
            }
            if shorter.len() >= 2 {
                assert(shorter[1] == longer[1]);
            }
            if shorter.len() >= 3 {
                assert(shorter[2] == longer[2]);
            }
        }
        q = blank_suffix(text, a, b);
    }
    (a, b)
}

/// The `u32` that `line` spells once the white space at both ends is removed.
pub fn parse_u32_line(line: &[u8]) -> (r: Option<u32>)
    ensures
        match number_of(trim_blank(line@), u32::MAX as nat) {
            Some(v) => r == Some(v as u32),
            None => r is None,
        },
{
    let (a, b) = trim_bounds(line, 0, line.len());
    assert(line@.subrange(0, line@.len() as int) == line@);
    match parse_number(line, a, b, 4294967295) {
        Some(v) => Some(v as u32),
        None => None,
    }
}

/// The `usize` that `line` spells once the white space at both ends is removed.
pub fn parse_usize_line(line: &[u8]) -> (r: Option<usize>)
    ensures
        match number_of(trim_blank(line@), usize::MAX as nat) {
            Some(v) => r == Some(v as usize),
            None => r is None,
        },
{
    let (a, b) = trim_bounds(line, 0, line.len());
    assert(line@.subrange(0, line@.len() as int) == line@);
    match parse_number(line, a, b, usize::MAX as u64) {
        Some(v) => Some(v as usize),
        None => None,
    }
}

/// The values of the `u32` tokens of `text[start..end]`, as `row_values` gives them.
pub fn parse_row(text: &[u8], start: usize, end: usize) -> (r: Vec<u32>)
    requires
        start <= end <= text@.len(),
    ensures
        r@ == row_values(text@.subrange(start as int, end as int)),
{
    let mut r: Vec<u32> = Vec::new();
    let mut i = start;
    while i < end
        invariant
            start <= i <= end <= text@.len(),
            row_values(text@.subrange(start as int, end as int)) == r@ + row_values(
                text@.subrange(i as int, end as int),
            ),
        decreases end - i,
    {
        let ghost s = text@.subrange(i as int, end as int);
        let p = blank_prefix(text, i, end);
        if p > 0 {
            assert(s.subrange(p as int, s.len() as int) == text@.subrange(i + p, end as int));
            i = i + p;
        } else {
            let mut j = i;
            while j < end && blank_prefix(text, j, end) == 0
                invariant
                    i <= j <= end <= text@.len(),
                    s == text@.subrange(i as int, end as int),
                    token_len(s) == (j - i) + token_len(text@.subrange(j as int, end as int)),
                decreases end - j,
            {
                assert(text@.subrange(j as int, end as int).drop_first() == text@.subrange(
                    j + 1,
                    end as int,
                ));
                j = j + 1;
            }
            assert(token_len(text@.subrange(j as int, end as int)) == 0);
            assert(s.subrange(0, (j - i) as int) == text@.subrange(i as int, j as int));
            assert(s.subrange((j - i) as int, s.len() as int) == text@.subrange(j as int, end as int));
            let ghost before = r@;
            match parse_number(text, i, j, 4294967295) {
                Some(v) => {
                    r.push(v as u32);
                    assert(r@ + row_values(text@.subrange(j as int, end as int)) == before + (seq![
                        v as u32,
                    ] + row_values(text@.subrange(j as int, end as int))));
                },
                None => {},
            }
            i = j;
        }
    }
    assert(r@ + row_values(text@.subrange(i as int, end as int)) == r@);
    r
}

/// Length of the line that starts `s`: the bytes before the first line feed.
pub open spec fn line_len(s: Seq<u8>) -> nat
    decreases s.len(),
{
    if s.len() == 0 || s[0] == 10 {
        0
    } else {
        1 + line_len(s.drop_first())
    }
}

proof fn lemma_line_len(s: Seq<u8>)
    ensures
        line_len(s) <= s.len(),
        line_len(s) < s.len() ==> s[line_len(s) as int] == 10,
    decreases s.len(),
{
    if s.len() > 0 && s[0] != 10 {
        lemma_line_len(s.drop_first());
    }
}

/// The rows of a matrix written as text: one row per line, lines split at each line
/// feed (a final line feed ends the last line and starts no new one), each row the
/// `row_values` of its line. A carriage return before a line feed is white space and
/// so drops out.
pub open spec fn matrix_rows(s: Seq<u8>) -> Seq<Seq<u32>>
    decreases s.len(),
    via matrix_rows_decreases
{
    if s.len() == 0 {
        seq![]
    } else {
        let k = line_len(s) as int;
        let row = row_values(s.subrange(0, k));
        if k >= s.len() {
            seq![row]
        } else {
            seq![row] + matrix_rows(s.subrange(k + 1, s.len() as int))
        }
    }
}

#[via_fn]
proof fn matrix_rows_decreases(s: Seq<u8>) {
    lemma_line_len(s);
}

/// The rows of the matrix that `text` holds, as `matrix_rows` gives them.
pub fn parse_rows(text: &[u8]) -> (r: Vec<Vec<u32>>)
    ensures
        r@.len() == matrix_rows(text@).len(),
        forall|i: int| 0 <= i < r@.len() ==> (#[trigger] r@[i])@ == matrix_rows(text@)[i],
{
    let mut rows: Vec<Vec<u32>> = Vec::new();
    let ghost done: Seq<Seq<u32>> = seq![];
    let mut pos: usize = 0;
    assert(text@.subrange(0, text@.len() as int) == text@);
    while pos < text.len()
        invariant
            pos <= text@.len(),
            rows@.len() == done.len(),
            forall|i: int| 0 <= i < rows@.len() ==> (#[trigger] rows@[i])@ == done[i],
            matrix_rows(text@) == done + matrix_rows(text@.subrange(pos as int, text@.len() as int)),
        decreases text@.len() - pos,
    {
        let ghost s = text@.subrange(pos as int, text@.len() as int);
        let mut end = pos;
        while end < text.len() && text[end] != 10
            invariant
                pos <= end <= text@.len(),
                s == text@.subrange(pos as int, text@.len() as int),
                line_len(s) == (end - pos) + line_len(text@.subrange(end as int, text@.len() as int)),
            decreases text@.len() - end,
        {
            assert(text@.subrange(end as int, text@.len() as int).drop_first() == text@.subrange(
                end + 1,
                text@.len() as int,
            ));
            end = end + 1;
        }
        assert(line_len(text@.subrange(end as int, text@.len() as int)) == 0);
        assert(s.subrange(0, (end - pos) as int) == text@.subrange(pos as int, end as int));
        let row = parse_row(text, pos, end);
        proof {
            done = done.push(row@);
        }
        rows.push(row);
        if end < text.len() {
            assert(s.subrange((end - pos) + 1, s.len() as int) == text@.subrange(
                end + 1,
                text@.len() as int,
            ));
            pos = end + 1;
        } else {
            assert(text@.subrange(text@.len() as int, text@.len() as int) == Seq::<u8>::empty());
            pos = end;
        }
    }
    assert(done + matrix_rows(text@.subrange(pos as int, text@.len() as int)) == done);
    rows
}

} // verus!
