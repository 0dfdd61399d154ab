use vstd::prelude::*;

verus! {

/// Whether a character is an ASCII decimal digit.
pub open spec fn is_digit(c: char) -> bool {
    '0' <= c && c <= '9'
}

/// One or more decimal digits, nothing else.
pub open spec fn all_digits(d: Seq<char>) -> bool {
    d.len() > 0 && forall|i: int| 0 <= i < d.len() ==> is_digit(#[trigger] d[i])
}

/// Zero or more decimal digits, nothing else.
pub open spec fn digits_or_empty(d: Seq<char>) -> bool {
    forall|i: int| 0 <= i < d.len() ==> is_digit(#[trigger] d[i])
}

/// The number that a string of decimal digits writes.
pub open spec fn digits_value(d: Seq<char>) -> int
    decreases d.len(),
{
    if d.len() == 0 {
        0
    } else {
        digits_value(d.drop_last()) * 10 + (d.last() as u32 - '0' as u32)
    }
}

/// The integer that text writes as an optional `+` or `-` and then decimal digits.
pub open spec fn signed_value(w: Seq<char>) -> Option<int> {
    if w.len() > 0 && (w[0] == '+' || w[0] == '-') {
        if all_digits(w.drop_first()) {
            if w[0] == '-' {
                Some(-digits_value(w.drop_first()))
            } else {
                Some(digits_value(w.drop_first()))
            }
        } else {
            None
        }
    } else if all_digits(w) {
        Some(digits_value(w))
    } else {
        None
    }
}

/// What `str::parse::<i64>` gives for the text: the integer it writes, when it fits.
pub open spec fn int_of(w: Seq<char>) -> Option<i64> {
    match signed_value(w) {
        Some(v) => if i64::MIN <= v <= i64::MAX {
            Some(v as i64)
        } else {
            None
        },
        None => None,
    }
}

/// What `str::parse::<u64>` gives for the text: an optional `+` and decimal digits
/// whose number fits.
pub open spec fn row_of(w: Seq<char>) -> Option<u64> {
    let d = if w.len() > 0 && w[0] == '+' {
        w.drop_first()
    } else {
        w
    };
    if all_digits(d) && digits_value(d) <= u64::MAX {
        Some(digits_value(d) as u64)
    } else {
        None
    }
}

proof fn lemma_digits_value_nonneg(d: Seq<char>)
    requires
        digits_or_empty(d),
    ensures
        digits_value(d) >= 0,
    decreases d.len(),
{
    if d.len() > 0 {
        lemma_digits_value_nonneg(d.drop_last());
    }
}

proof fn lemma_digits_value_grows(d: Seq<char>, i: int)
    requires
        digits_or_empty(d),
        0 <= i <= d.len(),
    ensures
        digits_value(d.subrange(0, i)) <= digits_value(d),
    decreases d.len() - i,
{
    if i < d.len() {
        lemma_digits_value_grows(d, i + 1);
        assert(d.subrange(0, i + 1).drop_last() =~= d.subrange(0, i));
        lemma_digits_value_nonneg(d.subrange(0, i));
    } else {
        assert(d.subrange(0, i) =~= d);
    }
}

/// The number written by `w[from..]` when it is one or more digits not above
/// `limit`; `None` otherwise.
fn digits_at_most(w: &Vec<char>, from: usize, limit: u64) -> (r: Option<u64>)
    requires
        from <= w@.len(),
        limit >= 9,
    ensures
        ({
            let d = w@.subrange(from as int, w@.len() as int);
            match r {
                Some(v) => all_digits(d) && digits_value(d) == v && v <= limit,
                None => !(all_digits(d) && digits_value(d) <= limit),
            }
        }),
{
    let ghost d = w@.subrange(from as int, w@.len() as int);
    if from == w.len() {
        return None;
    }
    let mut acc: u64 = 0;
    let mut i: usize = from;
    while i < w.len()
        invariant
            from <= i <= w@.len(),
            d == w@.subrange(from as int, w@.len() as int),
            digits_or_empty(w@.subrange(from as int, i as int)),
            acc == digits_value(w@.subrange(from as int, i as int)),
            acc <= limit,
            limit >= 9,
        decreases w@.len() - i,
    {
        let c = w[i];
        assert(w@.subrange(from as int, i + 1).drop_last() =~= w@.subrange(from as int, i as int));
        if c < '0' || c > '9' {
            assert(d[i - from] == c);
            return None;
        }
        let digit: u64 = (c as u32 - '0' as u32) as u64;
        if acc > (limit - digit) / 10 {
            proof {
                assert(digits_or_empty(w@.subrange(from as int, i + 1)));
                assert(digits_value(w@.subrange(from as int, i + 1)) == acc * 10 + digit);
                assert(acc * 10 + digit > limit) by (nonlinear_arith)
                    requires
                        acc > (limit - digit) / 10,
                        digit <= limit || acc * 10 + digit > limit,
                ;
                if all_digits(d) {
                    assert(d.subrange(0, i + 1 - from) =~= w@.subrange(from as int, i + 1));
                    lemma_digits_value_grows(d, i + 1 - from);
                }
            }
            return None;
        }
        proof {
            assert(acc * 10 + digit <= limit) by (nonlinear_arith)
                requires
                    acc <= (limit - digit) / 10,
                    digit <= limit,
            ;
        }
        acc = acc * 10 + digit;
        i = i + 1;
        assert(digits_or_empty(w@.subrange(from as int, i as int)));
    }
    assert(w@.subrange(from as int, i as int) =~= d);
    Some(acc)
}

/// Reads a decimal integer in the range of `i64`, as `str::parse::<i64>` does.
pub fn parse_int(w: &Vec<char>) -> (r: Option<i64>)
    ensures
        r == int_of(w@),
{
    let n = w.len();
    if n > 0 && (w[0] == '+' || w[0] == '-') {
        assert(w@.drop_first() =~= w@.subrange(1, n as int));
        if w[0] == '-' {
            match digits_at_most(w, 1, 0x8000_0000_0000_0000) {
                Some(v) => {
                    if v == 0x8000_0000_0000_0000 {
                        Some(i64::MIN)
                    } else {
                        Some(-(v as i64))
                    }
                },
                None => None,
            }
        } else {
            match digits_at_most(w, 1, 0x7fff_ffff_ffff_ffff) {
                Some(v) => Some(v as i64),
                None => None,
            }
        }
    } else {
        assert(w@ =~= w@.subrange(0, n as int));
        match digits_at_most(w, 0, 0x7fff_ffff_ffff_ffff) {
            Some(v) => Some(v as i64),
            None => None,
        }
    }
}

/// Reads a row number as `str::parse::<u64>` does: an optional `+`, then digits.
pub fn parse_row(w: &Vec<char>) -> (r: Option<u64>)
    ensures
        r == row_of(w@),
{
    let n = w.len();
    if n > 0 && w[0] == '+' {
        assert(w@.drop_first() =~= w@.subrange(1, n as int));
        digits_at_most(w, 1, u64::MAX)
    } else {
        assert(w@ =~= w@.subrange(0, n as int));
        digits_at_most(w, 0, u64::MAX)
    }
}

/// ASCII letters folded to lower case; other characters kept.
pub open spec fn ascii_lower(c: char) -> char {
    if 'A' <= c && c <= 'Z' {
        (((c as u8) + 32) as u8) as char
    } else {
        c
    }
}

/// Whether text equals a lower-case ASCII word, ignoring ASCII case.
pub open spec fn eq_ignore_case(w: Seq<char>, word: Seq<char>) -> bool {
    w.len() == word.len() && forall|i: int| 0 <= i < w.len() ==> ascii_lower(#[trigger] w[i]) == word[i]
}

/// The index of the first character of `w` that `c` or `d` is, or the length.
pub open spec fn first_of(w: Seq<char>, c: char, d: char) -> int
    decreases w.len(),
{
    if w.len() == 0 {
        0
    } else if w[0] == c || w[0] == d {
        0
    } else {
        1 + first_of(w.drop_first(), c, d)
    }
}

/// A mantissa: digits, with at most one `.` among them, and at least one digit.
pub open spec fn is_mantissa(m: Seq<char>) -> bool {
    let p = first_of(m, '.', '.');
    if p == m.len() {
        all_digits(m)
    } else {
        digits_or_empty(m.subrange(0, p)) && digits_or_empty(m.subrange(p + 1, m.len() as int))
            && m.len() >= 2
    }
}

/// An exponent: `e` or `E`, an optional sign, then digits.
pub open spec fn is_exponent(x: Seq<char>) -> bool {
    x.len() >= 2 && (x[0] == 'e' || x[0] == 'E') && (all_digits(x.drop_first()) || (
    x.drop_first()[0] == '+' || x.drop_first()[0] == '-') && all_digits(x.drop_first().drop_first()))
}

/// A decimal number: a mantissa and, from the first `e` or `E`, an exponent.
pub open spec fn is_number(w: Seq<char>) -> bool {
    let e = first_of(w, 'e', 'E');
    is_mantissa(w.subrange(0, e)) && (e == w.len() || is_exponent(w.subrange(e, w.len() as int)))
}

/// The text that `str::parse::<f64>` accepts: an optional sign, then `inf`,
/// `infinity` or `nan` in any case, or a decimal number.
pub open spec fn is_float_text(w: Seq<char>) -> bool {
    let u = if w.len() > 0 && (w[0] == '+' || w[0] == '-') {
        w.drop_first()
    } else {
        w
    };
    eq_ignore_case(u, "inf"@) || eq_ignore_case(u, "infinity"@) || eq_ignore_case(u, "nan"@)
        || is_number(u)
}

fn is_ascii_digit(c: char) -> (r: bool)
    ensures
        r == is_digit(c),
{
    '0' <= c && c <= '9'
}

/// Whether `w[from..to]` is made of digits only (or is empty).
fn digits_between(w: &Vec<char>, from: usize, to: usize) -> (r: bool)
    requires
        from <= to <= w@.len(),
    ensures
        r == digits_or_empty(w@.subrange(from as int, to as int)),
{
    let mut i: usize = from;
    while i < to
        invariant
            from <= i <= to <= w@.len(),
            digits_or_empty(w@.subrange(from as int, i as int)),
        decreases to - i,
    {
        if !is_ascii_digit(w[i]) {
            assert(w@.subrange(from as int, to as int)[i - from] == w@[i as int]);
            return false;
        }
        i = i + 1;
        assert(digits_or_empty(w@.subrange(from as int, i as int)));
    }
    true
}

/// The first index in `w[from..to]` holding `c` or `d`, or `to`.
pub(crate) fn find_either(w: &Vec<char>, from: usize, to: usize, c: char, d: char) -> (r: usize)
    requires
        from <= to <= w@.len(),
    ensures
        from <= r <= to,
        r - from == first_of(w@.subrange(from as int, to as int), c, d),
{
    let mut i: usize = to;
    let mut found: usize = to;
    while i > from
        invariant
            from <= i <= found <= to <= w@.len(),
            found - i == first_of(w@.subrange(i as int, to as int), c, d),
        decreases i - from,
    {
        i = i - 1;
        assert(w@.subrange(i as int, to as int).drop_first() =~= w@.subrange(i + 1, to as int));
        if w[i] == c || w[i] == d {
            found = i;
        }
    }
    found
}

fn lower_ascii(c: char) -> (r: char)
    ensures
        r == ascii_lower(c),
{
    if 'A' <= c && c <= 'Z' {
        ((c as u8) + 32) as char
    } else {
        c
    }
}

/// Whether `w[from..]` equals the lower-case ASCII `word`, ignoring ASCII case.
fn tail_is(w: &Vec<char>, from: usize, word: &str) -> (r: bool)
    requires
        from <= w@.len(),
    ensures
        r == eq_ignore_case(w@.subrange(from as int, w@.len() as int), word@),
{
    let ghost u = w@.subrange(from as int, w@.len() as int);
    let m = word.unicode_len();
    let n = w.len();
    if n - from != m {
        return false;
    }
    let mut i: usize = 0;
    while i < m
        invariant
            m == word@.len(),
            from + m == n,
            n == w@.len(),
            u == w@.subrange(from as int, w@.len() as int),
            u.len() == m,
            i <= m,
            forall|j: int| 0 <= j < i ==> ascii_lower(#[trigger] u[j]) == word@[j],
        decreases m - i,
    {
        if lower_ascii(w[from + i]) != word.get_char(i) {
            assert(u[i as int] == w@[from + i]);
            return false;
        }
        assert(u[i as int] == w@[from + i]);
        i = i + 1;
    }
    true
}

/// Whether `w[from..to]` is an exponent.
fn exponent_between(w: &Vec<char>, from: usize, to: usize) -> (r: bool)
    requires
        from <= to <= w@.len(),
    ensures
        r == is_exponent(w@.subrange(from as int, to as int)),
{
    let ghost x = w@.subrange(from as int, to as int);
    if to - from < 2 || !(w[from] == 'e' || w[from] == 'E') {
        return false;
    }
    assert(x.drop_first() =~= w@.subrange(from + 1, to as int));
    assert(x.drop_first().drop_first() =~= w@.subrange(from + 2, to as int));
    let unsigned = digits_between(w, from + 1, to);
    let signed = (w[from + 1] == '+' || w[from + 1] == '-') && to - from >= 3 && digits_between(w, from + 2, to);
    unsigned || signed
}

/// Whether `w[from..to]` is a mantissa.
fn mantissa_between(w: &Vec<char>, from: usize, to: usize) -> (r: bool)
    requires
        from <= to <= w@.len(),
    ensures
        r == is_mantissa(w@.subrange(from as int, to as int)),
{
    let ghost m = w@.subrange(from as int, to as int);
    let p = find_either(w, from, to, '.', '.');
    if p == to {
        to > from && digits_between(w, from, to)
    } else {
        assert(m.subrange(0, p - from) =~= w@.subrange(from as int, p as int));
        assert(m.subrange(p - from + 1, m.len() as int) =~= w@.subrange(p + 1, to as int));
        digits_between(w, from, p) && digits_between(w, p + 1, to) && to - from >= 2
    }
}

/// Whether text is accepted by `str::parse::<f64>`.
pub fn is_float_literal(w: &Vec<char>) -> (r: bool)
    ensures
        r == is_float_text(w@),
{
    let n = w.len();
    let start: usize = if n > 0 && (w[0] == '+' || w[0] == '-') {
        1
    } else {
        0
    };
    let ghost u = w@.subrange(start as int, n as int);
    assert(start == 1 ==> w@.drop_first() =~= u);
    assert(start == 0 ==> w@ =~= u);
    if tail_is(w, start, "inf") || tail_is(w, start, "infinity") || tail_is(w, start, "nan") {
        return true;
    }
    let e = find_either(w, start, n, 'e', 'E');
    assert(u.subrange(0, e - start) =~= w@.subrange(start as int, e as int));
    assert(u.subrange(e - start, u.len() as int) =~= w@.subrange(e as int, n as int));
    mantissa_between(w, start, e) && (e == n || exponent_between(w, e, n))
}

} // verus!
