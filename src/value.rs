use vstd::prelude::*;

verus! {

/// The identity of a record: the table it lives in and its row.
#[derive(Debug, Clone, PartialEq, Eq)]
pub struct RecordId {
    pub table_name: String,
    pub row: u64,
}

/// A value held on the stack or in a record's field.
///
/// A floating-point value is held as its IEEE-754 binary64 bit pattern.
#[derive(Debug, Clone, PartialEq, Eq)]
pub enum Value {
    Id(RecordId),
    Int(i64),
    Float(u64),
    String(String),
}

/// The mathematical form of a `Value`.
pub enum ValueView {
    Id(Seq<char>, u64),
    Int(i64),
    Float(u64),
    Text(Seq<char>),
}

impl View for RecordId {
    type V = (Seq<char>, u64);

    open spec fn view(&self) -> (Seq<char>, u64) {
        (self.table_name@, self.row)
    }
}

impl View for Value {
    type V = ValueView;

    open spec fn view(&self) -> ValueView {
        match self {
            Value::Id(id) => ValueView::Id(id.table_name@, id.row),
            Value::Int(n) => ValueView::Int(*n),
            Value::Float(b) => ValueView::Float(*b),
            Value::String(s) => ValueView::Text(s@),
        }
    }
}

impl RecordId {
    /// The identity of `row` in `table_name`.
    pub fn new(table_name: String, row: u64) -> (r: RecordId)
        ensures
            r@ == (table_name@, row),
    {
        RecordId { table_name, row }
    }

    /// A copy of the identity.
    pub fn copy(&self) -> (r: RecordId)
        ensures
            r@ == self@,
    {
        RecordId { table_name: self.table_name.clone(), row: self.row }
    }
}

impl Value {
    /// A copy of the value.
    pub fn copy(&self) -> (r: Value)
        ensures
            r@ == self@,
    {
        match self {
            Value::Id(id) => Value::Id(id.copy()),
            Value::Int(n) => Value::Int(*n),
            Value::Float(b) => Value::Float(*b),
            Value::String(s) => Value::String(s.clone()),
        }
    }
}

/// Three-way order as an integer: -1, 0 or 1.
pub open spec fn int_cmp(a: int, b: int) -> int {
    if a < b {
        -1
    } else if a == b {
        0
    } else {
        1
    }
}

/// Lexicographic order of two strings, by code point.
pub open spec fn text_cmp(a: Seq<char>, b: Seq<char>) -> int
    decreases a.len(),
{
    if a.len() == 0 {
        if b.len() == 0 {
            0
        } else {
            -1
        }
    } else if b.len() == 0 {
        1
    } else if a[0] < b[0] {
        -1
    } else if a[0] > b[0] {
        1
    } else {
        text_cmp(a.drop_first(), b.drop_first())
    }
}

pub const SIGN_BIT: u64 = 0x8000_0000_0000_0000;

pub const MANTISSA_SPAN: u64 = 0x0010_0000_0000_0000;

pub const EXPONENT_ALL_ONES: u64 = 0x7ff;

/// A binary64 bit pattern that encodes NaN: every exponent bit set, a non-zero mantissa.
pub open spec fn is_nan_bits(b: u64) -> bool {
    (b % SIGN_BIT) / MANTISSA_SPAN == EXPONENT_ALL_ONES && b % MANTISSA_SPAN != 0
}

/// The position of a non-NaN binary64 value on the number line: its magnitude bits,
/// negated when the sign bit is set, so that both zeros meet at 0.
pub open spec fn float_key(b: u64) -> int {
    if b >= SIGN_BIT {
        -((b % SIGN_BIT) as int)
    } else {
        b as int
    }
}

/// IEEE-754 comparison of two binary64 values; `None` when either is NaN.
pub open spec fn float_cmp(a: u64, b: u64) -> Option<int> {
    if is_nan_bits(a) || is_nan_bits(b) {
        None
    } else {
        Some(int_cmp(float_key(a), float_key(b)))
    }
}

/// How two values compare: values of one variant by what they hold, values of
/// different variants never.
pub open spec fn value_cmp(a: ValueView, b: ValueView) -> Option<int> {
    match (a, b) {
        (ValueView::Id(t1, r1), ValueView::Id(t2, r2)) => {
            if t1 != t2 {
                Some(text_cmp(t1, t2))
            } else {
                Some(int_cmp(r1 as int, r2 as int))
            }
        },
        (ValueView::Int(x), ValueView::Int(y)) => Some(int_cmp(x as int, y as int)),
        (ValueView::Float(x), ValueView::Float(y)) => float_cmp(x, y),
        (ValueView::Text(x), ValueView::Text(y)) => Some(text_cmp(x, y)),
        _ => None,
    }
}

proof fn lemma_text_cmp_equal(a: Seq<char>, b: Seq<char>)
    ensures
        (text_cmp(a, b) == 0) == (a == b),
    decreases a.len(),
{
    if a.len() == 0 || b.len() == 0 {
        if a.len() != b.len() {
            assert(a.len() != b.len());
        } else {
            assert(a =~= b);
        }
    } else if a[0] != b[0] {
        assert(a[0] != b[0]);
    } else {
        lemma_text_cmp_equal(a.drop_first(), b.drop_first());
        assert(a =~= seq![a[0]] + a.drop_first());
        assert(b =~= seq![b[0]] + b.drop_first());
    }
}

fn compare_ints(a: i128, b: i128) -> (r: i8)
    ensures
        r as int == int_cmp(a as int, b as int),
{
    if a < b {
        -1
    } else if a == b {
        0
    } else {
        1
    }
}

/// Compares two strings lexicographically by code point.
pub fn compare_text(a: &String, b: &String) -> (r: i8)
    ensures
        r as int == text_cmp(a@, b@),
{
    let n = a.as_str().unicode_len();
    let m = b.as_str().unicode_len();
    let mut i: usize = 0;
    assert(a@.subrange(0, n as int) =~= a@);
    assert(b@.subrange(0, m as int) =~= b@);
    while i < n && i < m
        invariant
            n == a@.len(),
            m == b@.len(),
            i <= n,
            i <= m,
            a@.subrange(0, i as int) == b@.subrange(0, i as int),
            text_cmp(a@, b@) == text_cmp(a@.subrange(i as int, n as int), b@.subrange(i as int, m as int)),
        decreases n - i,
    {
        let c = a.as_str().get_char(i);
        let d = b.as_str().get_char(i);
        let ghost sa = a@.subrange(i as int, n as int);
        let ghost sb = b@.subrange(i as int, m as int);
        if c < d {
            assert(sa[0] == c && sb[0] == d);
            return -1;
        } else if c > d {
            assert(sa[0] == c && sb[0] == d);
            return 1;
        }
        assert(sa.drop_first() =~= a@.subrange(i + 1, n as int));
        assert(sb.drop_first() =~= b@.subrange(i + 1, m as int));
        assert(a@.subrange(0, i + 1) =~= a@.subrange(0, i as int).push(c));
        assert(b@.subrange(0, i + 1) =~= b@.subrange(0, i as int).push(d));
        i = i + 1;
    }
    if i == n && i == m {
        0
    } else if i == n {
        -1
    } else {
        1
    }
}

/// Whether a binary64 bit pattern encodes NaN.
pub fn is_nan_float(b: u64) -> (r: bool)
    ensures
        r == is_nan_bits(b),
{
    (b % SIGN_BIT) / MANTISSA_SPAN == EXPONENT_ALL_ONES && b % MANTISSA_SPAN != 0
}

/// IEEE-754 comparison of two binary64 bit patterns: -1, 0 or 1, or `None` for NaN.
pub fn compare_floats(a: u64, b: u64) -> (r: Option<i8>)
    ensures
        r matches Some(x) ==> float_cmp(a, b) == Some(x as int),
        r is None <==> float_cmp(a, b) is None,
{
    if is_nan_float(a) || is_nan_float(b) {
        return None;
    }
    let ka: i128 = if a >= SIGN_BIT {
        -((a % SIGN_BIT) as i128)
    } else {
        a as i128
    };
    let kb: i128 = if b >= SIGN_BIT {
        -((b % SIGN_BIT) as i128)
    } else {
        b as i128
    };
    Some(compare_ints(ka, kb))
}

/// Compares two values; values of different variants are incomparable.
pub fn compare_values(a: &Value, b: &Value) -> (r: Option<i8>)
    ensures
        r matches Some(x) ==> value_cmp(a@, b@) == Some(x as int),
        r is None <==> value_cmp(a@, b@) is None,
{
    match (a, b) {
        (Value::Id(x), Value::Id(y)) => {
            let c = compare_text(&x.table_name, &y.table_name);
            proof {
                lemma_text_cmp_equal(x.table_name@, y.table_name@);
            }
            if c != 0 {
                Some(c)
            } else {
                Some(compare_ints(x.row as i128, y.row as i128))
            }
        },
        (Value::Int(x), Value::Int(y)) => Some(compare_ints(*x as i128, *y as i128)),
        (Value::Float(x), Value::Float(y)) => compare_floats(*x, *y),
        (Value::String(x), Value::String(y)) => Some(compare_text(x, y)),
        _ => None,
    }
}

} // verus!
