//! Logical property types and their canonical UTF-8 spellings.
//!
//! Values are stored as strings. A typed property accepts only its canonical
//! spelling: `true`/`false`; a decimal integer in `i64` range without sign
//! noise or leading zeros; a decimal with exactly `scale` fraction digits;
//! or a UTC timestamp `YYYY-MM-DDTHH:MM:SS.mmmZ`. A write of a timestamp may
//! give any RFC 3339 date-time; it is stored in that UTC form.

use vstd::prelude::*;
use vstd::utf8::*;

use crate::props::key_lt;
use crate::timestamp::{canonical_timestamp, canonical_timestamp_ok, timestamp_write, write_timestamp};
use crate::text::{
    concat_str, decimal, decimal_string, lemma_bytes_lt_total, parse_i64, parse_i64_bytes, str_eq,
    str_less,
};

verus! {

broadcast use {encode_utf8_decode_utf8, encode_utf8_valid_utf8};

/// A declared property type.
#[derive(Clone, Copy, Debug, PartialEq, Eq, Structural)]
pub enum PropertyType {
    String,
    Boolean,
    Integer,
    Timestamp,
    Decimal { scale: u8 },
}

/// A parsed canonical value.
#[derive(Debug)]
pub enum PropertyValue {
    Text(String),
    Bool(bool),
    Int(i64),
    /// The value times `10^scale`.
    Decimal(i64),
    Timestamp(String),
}

/// Three-way comparison result.
#[derive(Clone, Copy, Debug, PartialEq, Eq, Structural)]
pub enum Order {
    Less,
    Equal,
    Greater,
}

/// Decimal text of an integer: a `-` for negatives, then its digits.
pub open spec fn int_text(v: int) -> Seq<char> {
    if v < 0 {
        seq!['-'] + decimal((-v) as nat)
    } else {
        decimal(v as nat)
    }
}

/// `digits` left-padded with `0` to at least `n` characters.
pub open spec fn pad_zeros(digits: Seq<char>, n: nat) -> Seq<char>
    decreases n - digits.len(),
{
    if digits.len() >= n {
        digits
    } else {
        pad_zeros(seq!['0'] + digits, n)
    }
}

/// The text of mantissa `m` at `scale` fraction digits.
pub open spec fn dec_text(m: int, scale: nat) -> Seq<char> {
    let abs = if m < 0 { -m } else { m };
    let digits = pad_zeros(decimal(abs as nat), scale + 1);
    let body = if scale == 0 {
        digits
    } else {
        digits.subrange(0, digits.len() - scale) + seq!['.'] + digits.subrange(
            digits.len() - scale,
            digits.len() as int,
        )
    };
    if m < 0 {
        seq!['-'] + body
    } else {
        body
    }
}

/// The characters of `s` with the `.` that stands `scale` places from the end
/// left out.
pub open spec fn without_point(s: Seq<char>, scale: nat) -> Seq<char> {
    if scale == 0 || s.len() <= scale {
        s
    } else {
        s.subrange(0, s.len() - scale - 1) + s.subrange(s.len() - scale, s.len() as int)
    }
}

/// Whether `c` is an ASCII digit.
pub open spec fn is_digit(c: char) -> bool {
    '0' <= c <= '9'
}

/// The value a canonical spelling stands for.
pub enum ValueView {
    Text(Seq<char>),
    Bool(bool),
    Int(i64),
    Decimal(i64),
    Timestamp(Seq<char>),
}

pub open spec fn value_view(v: PropertyValue) -> ValueView {
    match v {
        PropertyValue::Text(s) => ValueView::Text(s@),
        PropertyValue::Bool(b) => ValueView::Bool(b),
        PropertyValue::Int(i) => ValueView::Int(i),
        PropertyValue::Decimal(m) => ValueView::Decimal(m),
        PropertyValue::Timestamp(s) => ValueView::Timestamp(s@),
    }
}

/// The value of `s` when it is the canonical spelling of a `ty` value.
pub open spec fn canonical(ty: PropertyType, s: Seq<char>) -> Option<ValueView> {
    match ty {
        PropertyType::String => Some(ValueView::Text(s)),
        PropertyType::Boolean => if s == seq!['t', 'r', 'u', 'e'] {
            Some(ValueView::Bool(true))
        } else if s == seq!['f', 'a', 'l', 's', 'e'] {
            Some(ValueView::Bool(false))
        } else {
            None
        },
        PropertyType::Integer => match parse_i64_bytes(encode_utf8(s)) {
            Some(v) => if s == int_text(v as int) {
                Some(ValueView::Int(v))
            } else {
                None
            },
            None => None,
        },
        PropertyType::Decimal { scale } => match parse_i64_bytes(
            encode_utf8(without_point(s, scale as nat)),
        ) {
            Some(m) => if s == dec_text(m as int, scale as nat) {
                Some(ValueView::Decimal(m))
            } else {
                None
            },
            None => None,
        },
        PropertyType::Timestamp => if canonical_timestamp(s) {
            Some(ValueView::Timestamp(s))
        } else {
            None
        },
    }
}

/// What a write of `s` stores for a `ty` property, when `ty` accepts it.
pub open spec fn write_form(ty: PropertyType, s: Seq<char>) -> Option<Seq<char>> {
    if ty == PropertyType::Timestamp {
        timestamp_write(s)
    } else if canonical(ty, s) is Some {
        Some(s)
    } else {
        None
    }
}

/// Order of two values of one type: text and timestamps by bytes, numbers by
/// value, `false` before `true`.
pub open spec fn value_order(a: ValueView, b: ValueView) -> Order {
    match (a, b) {
        (ValueView::Text(x), ValueView::Text(y)) => str_order_spec(x, y),
        (ValueView::Timestamp(x), ValueView::Timestamp(y)) => str_order_spec(x, y),
        (ValueView::Int(x), ValueView::Int(y)) => int_order_spec(x as int, y as int),
        (ValueView::Decimal(x), ValueView::Decimal(y)) => int_order_spec(x as int, y as int),
        (ValueView::Bool(x), ValueView::Bool(y)) => int_order_spec(
            if x { 1 } else { 0 },
            if y { 1 } else { 0 },
        ),
        _ => Order::Equal,
    }
}

pub open spec fn int_order_spec(x: int, y: int) -> Order {
    if x < y {
        Order::Less
    } else if x == y {
        Order::Equal
    } else {
        Order::Greater
    }
}

pub open spec fn str_order_spec(x: Seq<char>, y: Seq<char>) -> Order {
    if x == y {
        Order::Equal
    } else if key_lt(x, y) {
        Order::Less
    } else {
        Order::Greater
    }
}

fn int_order(x: i64, y: i64) -> (c: Order)
    ensures
        c == int_order_spec(x as int, y as int),
{
    if x < y {
        Order::Less
    } else if x == y {
        Order::Equal
    } else {
        Order::Greater
    }
}

/// Three-way `str` order.
pub fn str_order(x: &str, y: &str) -> (c: Order)
    ensures
        c == str_order_spec(x@, y@),
{
    if str_eq(x, y) {
        Order::Equal
    } else if str_less(x, y) {
        Order::Less
    } else {
        Order::Greater
    }
}

/// Decimal text of `v`.
pub fn int_string(v: i64) -> (s: String)
    ensures
        s@ == int_text(v as int),
{
    if v < 0 {
        let abs: u64 = if v == i64::MIN {
            9223372036854775808u64
        } else {
            (-v) as u64
        };
        let digits = decimal_string(abs);
        proof {
            reveal_strlit("-");
            assert("-"@ =~= seq!['-']);
        }
        concat_str("-", digits.as_str())
    } else {
        decimal_string(v as u64)
    }
}

fn pad_zeros_string(digits: String, n: usize) -> (s: String)
    ensures
        s@ == pad_zeros(digits@, n as nat),
    decreases n - digits@.len(),
{
    if digits.unicode_len() >= n {
        digits
    } else {
        proof {
            reveal_strlit("0");
            assert("0"@ =~= seq!['0']);
        }
        let padded = concat_str("0", digits.as_str());
        assert(padded@ == seq!['0'] + digits@);
        pad_zeros_string(padded, n)
    }
}

/// Text of mantissa `m` at `scale` fraction digits.
pub fn dec_string(m: i64, scale: u8) -> (s: String)
    ensures
        s@ == dec_text(m as int, scale as nat),
{
    let abs: u64 = if m == i64::MIN {
        9223372036854775808u64
    } else if m < 0 {
        (-m) as u64
    } else {
        m as u64
    };
    let digits = pad_zeros_string(decimal_string(abs), scale as usize + 1);
    proof {
        lemma_pad_zeros_len(decimal(abs as nat), (scale + 1) as nat);
    }
    let body = if scale == 0 {
        digits
    } else {
        let n = digits.unicode_len();
        let cut = n - scale as usize;
        let head = digits.as_str().substring_char(0, cut);
        let tail = digits.as_str().substring_char(cut, n);
        let mut b = concat_str(head, ".");
        b.append(tail);
        proof {
            reveal_strlit(".");
        }
        b
    };
    if m < 0 {
        proof {
            reveal_strlit("-");
        }
        concat_str("-", body.as_str())
    } else {
        body
    }
}

proof fn lemma_pad_zeros_len(digits: Seq<char>, n: nat)
    ensures
        pad_zeros(digits, n).len() >= n,
        pad_zeros(digits, n).len() >= digits.len(),
    decreases n - digits.len(),
{
    if digits.len() < n {
        lemma_pad_zeros_len(seq!['0'] + digits, n);
    }
}

/// The schema token of a type: `string`, `boolean`, `integer`, `timestamp`,
/// or `decimal:<scale>`.
pub open spec fn type_token(t: PropertyType) -> Seq<char> {
    match t {
        PropertyType::String => seq!['s', 't', 'r', 'i', 'n', 'g'],
        PropertyType::Boolean => seq!['b', 'o', 'o', 'l', 'e', 'a', 'n'],
        PropertyType::Integer => seq!['i', 'n', 't', 'e', 'g', 'e', 'r'],
        PropertyType::Timestamp => seq!['t', 'i', 'm', 'e', 's', 't', 'a', 'm', 'p'],
        PropertyType::Decimal { scale } => seq!['d', 'e', 'c', 'i', 'm', 'a', 'l', ':'] + decimal(
            scale as nat,
        ),
    }
}

pub open spec fn decimal_prefix() -> Seq<char> {
    seq!['d', 'e', 'c', 'i', 'm', 'a', 'l', ':']
}

/// The values of one type, compared with `value_order`, form a total order.
pub proof fn lemma_value_order(t: PropertyType, x: Seq<char>, y: Seq<char>, z: Seq<char>)
    requires
        canonical(t, x) is Some,
        canonical(t, y) is Some,
        canonical(t, z) is Some,
    ensures
        ({
            let a = canonical(t, x).unwrap();
            let b = canonical(t, y).unwrap();
            let c = canonical(t, z).unwrap();
            &&& (value_order(a, b) == Order::Less <==> value_order(b, a) == Order::Greater)
            &&& (value_order(a, b) == Order::Equal <==> value_order(b, a) == Order::Equal)
            &&& (value_order(a, b) != Order::Greater && value_order(b, c) != Order::Greater ==> value_order(a, c)
                != Order::Greater)
            &&& (value_order(a, b) == Order::Less && value_order(b, c) != Order::Greater ==> value_order(a, c)
                == Order::Less)
            &&& (value_order(a, b) != Order::Greater && value_order(b, c) == Order::Less ==> value_order(a, c)
                == Order::Less)
            &&& value_order(a, a) == Order::Equal
        }),
{
    let a = canonical(t, x).unwrap();
    let b = canonical(t, y).unwrap();
    let c = canonical(t, z).unwrap();
    match t {
        PropertyType::String | PropertyType::Timestamp => {
            let (p, q, r) = match (a, b, c) {
                (ValueView::Text(p), ValueView::Text(q), ValueView::Text(r)) => (p, q, r),
                (ValueView::Timestamp(p), ValueView::Timestamp(q), ValueView::Timestamp(r)) => (p, q, r),
                _ => (x, y, z),
            };
            crate::props::lemma_key_lt_total(p, q);
            crate::props::lemma_key_lt_total(q, r);
            crate::props::lemma_key_lt_total(p, r);
            crate::props::lemma_key_lt_irreflexive(p);
            if crate::props::key_lt(p, q) {
                crate::props::lemma_key_lt_asymmetric(p, q);
            }
            if crate::props::key_lt(q, p) {
                crate::props::lemma_key_lt_asymmetric(q, p);
            }
            if crate::props::key_lt(p, q) && crate::props::key_lt(q, r) {
                crate::props::lemma_key_lt_transitive(p, q, r);
            }
            if crate::props::key_lt(r, p) && crate::props::key_lt(p, q) {
                crate::props::lemma_key_lt_transitive(r, p, q);
            }
            if crate::props::key_lt(q, r) && crate::props::key_lt(r, p) {
                crate::props::lemma_key_lt_transitive(q, r, p);
            }
        },
        _ => {},
    }
}

/// Distinct types have distinct tokens.
pub proof fn lemma_type_token_injective(a: PropertyType, b: PropertyType)
    requires
        type_token(a) == type_token(b),
    ensures
        a == b,
{
    match (a, b) {
        (PropertyType::Decimal { scale: x }, PropertyType::Decimal { scale: y }) => {
            crate::text::lemma_decimal_parses(x as nat);
            crate::text::lemma_decimal_parses(y as nat);
            assert(type_token(a).subrange(8, type_token(a).len() as int) =~= decimal(x as nat));
            assert(type_token(b).subrange(8, type_token(b).len() as int) =~= decimal(y as nat));
        },
        (PropertyType::Decimal { scale: x }, _) => {
            crate::text::lemma_decimal_ascii_digits(x as nat);
            assert(type_token(a)[0] == 'd');
            assert(type_token(a).len() >= 9);
        },
        (_, PropertyType::Decimal { scale: y }) => {
            crate::text::lemma_decimal_ascii_digits(y as nat);
            assert(type_token(b)[0] == 'd');
            assert(type_token(b).len() >= 9);
        },
        _ => {
            if a != b {
                assert(type_token(a)[0] != type_token(b)[0] || type_token(a).len() != type_token(b).len()
                    || type_token(a)[1] != type_token(b)[1]);
            }
        },
    }
}

impl PropertyType {
    /// The schema token of this type.
    pub fn token(&self) -> (s: String)
        ensures
            s@ == type_token(*self),
    {
        proof {
            reveal_strlit("string");
            reveal_strlit("boolean");
            reveal_strlit("integer");
            reveal_strlit("timestamp");
            reveal_strlit("decimal:");
        }
        match self {
            PropertyType::String => {
                let s = String::from_str("string");
                assert(s@ =~= type_token(*self));
                s
            },
            PropertyType::Boolean => {
                let s = String::from_str("boolean");
                assert(s@ =~= type_token(*self));
                s
            },
            PropertyType::Integer => {
                let s = String::from_str("integer");
                assert(s@ =~= type_token(*self));
                s
            },
            PropertyType::Timestamp => {
                let s = String::from_str("timestamp");
                assert(s@ =~= type_token(*self));
                s
            },
            PropertyType::Decimal { scale } => {
                let digits = decimal_string(*scale as u64);
                let s = concat_str("decimal:", digits.as_str());
                assert(s@ =~= type_token(*self));
                s
            },
        }
    }

    /// The type a schema token names; fails on any other token.
    pub fn from_token(token: &str) -> (r: Result<PropertyType, String>)
        ensures
            match r {
                Ok(t) => type_token(t) == token@,
                Err(_) => forall|t: PropertyType| type_token(t) != token@,
            },
    {
        proof {
            reveal_strlit("string");
            reveal_strlit("boolean");
            reveal_strlit("integer");
            reveal_strlit("timestamp");
            reveal_strlit("decimal:");
            assert("string"@ =~= type_token(PropertyType::String));
            assert("boolean"@ =~= type_token(PropertyType::Boolean));
            assert("integer"@ =~= type_token(PropertyType::Integer));
            assert("timestamp"@ =~= type_token(PropertyType::Timestamp));
            assert("decimal:"@ =~= decimal_prefix());
        }
        if str_eq(token, "string") {
            return Ok(PropertyType::String);
        }
        if str_eq(token, "boolean") {
            return Ok(PropertyType::Boolean);
        }
        if str_eq(token, "integer") {
            return Ok(PropertyType::Integer);
        }
        if str_eq(token, "timestamp") {
            return Ok(PropertyType::Timestamp);
        }
        let n = token.unicode_len();
        if n > 8 && str_eq(token.substring_char(0, 8), "decimal:") {
            let rest = token.substring_char(8, n);
            assert(token@ =~= decimal_prefix() + rest@);
            match parse_i64(rest) {
                Some(v) => {
                    if 0 <= v && v <= 255 {
                        let text = int_string(v);
                        if str_eq(text.as_str(), rest) {
                            let t = PropertyType::Decimal { scale: v as u8 };
                            assert(type_token(t) =~= token@);
                            return Ok(t);
                        }
                    }
                },
                None => {},
            }
            proof {
                assert forall|t: PropertyType| type_token(t) != token@ by {
                    if let PropertyType::Decimal { scale } = t {
                        if type_token(t) == token@ {
                            assert(rest@ =~= decimal(scale as nat));
                            crate::text::lemma_decimal_parses(scale as nat);
                        }
                    }
                }
            }
        } else {
            proof {
                assert forall|t: PropertyType| type_token(t) != token@ by {
                    if let PropertyType::Decimal { scale } = t {
                        if type_token(t) == token@ {
                            crate::text::lemma_decimal_parses(scale as nat);
                            assert(token@.subrange(0, 8) =~= decimal_prefix());
                        }
                    }
                }
            }
        }
        Err(concat_str("unknown property type ", token))
    }

    /// Parse the canonical spelling of a value of this type; any other
    /// spelling fails.
    pub fn parse_canonical(&self, value: &str) -> (r: Result<PropertyValue, String>)
        ensures
            match r {
                Ok(v) => canonical(*self, value@) == Some(value_view(v)),
                Err(_) => canonical(*self, value@) is None,
            },
    {
        proof {
            reveal_strlit("true");
            reveal_strlit("false");
            assert("true"@ =~= seq!['t', 'r', 'u', 'e']);
            assert("false"@ =~= seq!['f', 'a', 'l', 's', 'e']);
        }
        match self {
            PropertyType::String => Ok(PropertyValue::Text(value.to_owned())),
            PropertyType::Boolean => {
                if str_eq(value, "true") {
                    Ok(PropertyValue::Bool(true))
                } else if str_eq(value, "false") {
                    Ok(PropertyValue::Bool(false))
                } else {
                    Err(concat_str("invalid boolean ", value))
                }
            },
            PropertyType::Integer => {
                match parse_i64(value) {
                    Some(v) => {
                        let text = int_string(v);
                        if str_eq(text.as_str(), value) {
                            Ok(PropertyValue::Int(v))
                        } else {
                            Err(named("integer ", value, " is not canonical"))
                        }
                    },
                    None => Err(named("integer ", value, " is not canonical")),
                }
            },
            PropertyType::Decimal { scale } => {
                let n = value.unicode_len();
                let sc = *scale as usize;
                let digits: String = if sc == 0 || n <= sc {
                    value.to_owned()
                } else {
                    let head = value.substring_char(0, n - sc - 1);
                    let tail = value.substring_char(n - sc, n);
                    concat_str(head, tail)
                };
                assert(digits@ == without_point(value@, *scale as nat));
                match parse_i64(digits.as_str()) {
                    Some(m) => {
                        let text = dec_string(m, *scale);
                        if str_eq(text.as_str(), value) {
                            Ok(PropertyValue::Decimal(m))
                        } else {
                            Err(named("decimal ", value, " is not canonical"))
                        }
                    },
                    None => Err(named("decimal ", value, " is not canonical")),
                }
            },
            PropertyType::Timestamp => {
                if canonical_timestamp_ok(value) {
                    Ok(PropertyValue::Timestamp(value.to_owned()))
                } else {
                    Err(named("timestamp ", value, " is not canonical"))
                }
            },
        }
    }

    /// The value to store for a write of `value`; fails when the type does
    /// not accept it.
    pub fn canonicalize_write(&self, value: &str) -> (r: Result<String, String>)
        ensures
            match r {
                Ok(s) => write_form(*self, value@) == Some(s@),
                Err(_) => write_form(*self, value@) is None,
            },
    {
        if let PropertyType::Timestamp = self {
            return match write_timestamp(value) {
                Some(t) => Ok(t),
                None => Err(named("timestamp ", value, " is not RFC 3339")),
            };
        }
        self.parse_canonical(value)?;
        Ok(value.to_owned())
    }

    /// Order of two canonical spellings of this type; fails when either is not canonical.
    pub fn compare_canonical(&self, left: &str, right: &str) -> (r: Result<Order, String>)
        ensures
            match r {
                Ok(c) => canonical(*self, left@) is Some && canonical(*self, right@) is Some
                    && c == value_order(canonical(*self, left@).unwrap(), canonical(*self, right@).unwrap()),
                Err(_) => canonical(*self, left@) is None || canonical(*self, right@) is None,
            },
    {
        let a = self.parse_canonical(left)?;
        let b = self.parse_canonical(right)?;
        Ok(order_values(&a, &b))
    }

    /// Whether `stored` lies between the optional inclusive bounds; fails when
    /// any of them is not canonical.
    pub fn in_range(&self, stored: &str, min: Option<&str>, max: Option<&str>) -> (r: Result<bool, String>)
        ensures
            match r {
                Ok(b) => canonical(*self, stored@) is Some
                    && (min matches Some(lo) ==> canonical(*self, lo@) is Some)
                    && (max matches Some(hi) ==> canonical(*self, hi@) is Some)
                    && b == ((min matches Some(lo) ==> value_order(canonical(*self, lo@).unwrap(), canonical(*self, stored@).unwrap()) != Order::Greater)
                        && (max matches Some(hi) ==> value_order(canonical(*self, stored@).unwrap(), canonical(*self, hi@).unwrap()) != Order::Greater)),
                Err(_) => canonical(*self, stored@) is None
                    || (min matches Some(lo) && canonical(*self, lo@) is None)
                    || (max matches Some(hi) && canonical(*self, hi@) is None),
            },
    {
        let v = self.parse_canonical(stored)?;
        let lower_ok = match min {
            None => true,
            Some(lo) => {
                let l = self.parse_canonical(lo)?;
                order_values(&l, &v) != Order::Greater
            },
        };
        let upper_ok = match max {
            None => true,
            Some(hi) => {
                let h = self.parse_canonical(hi)?;
                order_values(&v, &h) != Order::Greater
            },
        };
        Ok(lower_ok && upper_ok)
    }
}

/// Order two values.
pub fn order_values(a: &PropertyValue, b: &PropertyValue) -> (c: Order)
    ensures
        c == value_order(value_view(*a), value_view(*b)),
{
    match (a, b) {
        (PropertyValue::Text(x), PropertyValue::Text(y)) => str_order(x.as_str(), y.as_str()),
        (PropertyValue::Timestamp(x), PropertyValue::Timestamp(y)) => str_order(x.as_str(), y.as_str()),
        (PropertyValue::Int(x), PropertyValue::Int(y)) => int_order(*x, *y),
        (PropertyValue::Decimal(x), PropertyValue::Decimal(y)) => int_order(*x, *y),
        (PropertyValue::Bool(x), PropertyValue::Bool(y)) => int_order(
            if *x { 1 } else { 0 },
            if *y { 1 } else { 0 },
        ),
        _ => Order::Equal,
    }
}

/// Whether two values are the same value.
pub fn same_value(a: &PropertyValue, b: &PropertyValue) -> (r: bool)
    ensures
        r == (value_view(*a) == value_view(*b)),
{
    match (a, b) {
        (PropertyValue::Text(x), PropertyValue::Text(y)) => str_eq(x.as_str(), y.as_str()),
        (PropertyValue::Timestamp(x), PropertyValue::Timestamp(y)) => str_eq(x.as_str(), y.as_str()),
        (PropertyValue::Int(x), PropertyValue::Int(y)) => *x == *y,
        (PropertyValue::Decimal(x), PropertyValue::Decimal(y)) => *x == *y,
        (PropertyValue::Bool(x), PropertyValue::Bool(y)) => *x == *y,
        _ => false,
    }
}

/// `prefix`, `name` and `suffix` in a row.
fn named(prefix: &str, name: &str, suffix: &str) -> (s: String)
    ensures
        s@ == prefix@ + name@ + suffix@,
{
    let mut m = concat_str(prefix, name);
    m.append(suffix);
    m
}

/// Zero padding keeps digits digits and lengthens to `n` exactly when short.
proof fn lemma_pad_zeros_digits(digits: Seq<char>, n: nat)
    requires
        forall|i: int| 0 <= i < digits.len() ==> '0' <= #[trigger] digits[i] <= '9',
    ensures
        forall|i: int| 0 <= i < pad_zeros(digits, n).len() ==> '0' <= #[trigger] pad_zeros(digits, n)[i] <= '9',
        digits.len() >= n ==> pad_zeros(digits, n) == digits,
        digits.len() < n ==> pad_zeros(digits, n).len() == n,
    decreases n - digits.len(),
{
    if digits.len() < n {
        let d2 = seq!['0'] + digits;
        assert forall|i: int| 0 <= i < d2.len() implies '0' <= #[trigger] d2[i] <= '9' by {
            if i > 0 {
                assert(d2[i] == digits[i - 1]);
            }
        }
        lemma_pad_zeros_digits(d2, n);
    }
}

/// The text of a positive number does not start with `0`.
proof fn lemma_decimal_lead(n: nat)
    requires
        n >= 1,
    ensures
        decimal(n)[0] != '0',
    decreases n,
{
    if n >= 10 {
        lemma_decimal_lead(n / 10);
        crate::text::lemma_decimal_ascii_digits(n / 10);
        assert(decimal(n) == decimal(n / 10).push(crate::text::digit_char(n % 10)));
        assert(decimal(n)[0] == decimal(n / 10)[0]);
    }
}

/// The stored text of a decimal at a positive scale is an optional minus,
/// then at least one digit, a point, and exactly `scale` digits; its integer
/// part starts with `0` only when it is `0` itself. So one half at scale 2
/// is stored as `0.50`, never `.50`.
pub proof fn law_decimal_text_shape(m: int, scale: nat)
    requires
        scale > 0,
    ensures
        ({
            let t = dec_text(m, scale);
            let b = if m < 0 { t.subrange(1, t.len() as int) } else { t };
            &&& m < 0 ==> t.len() >= 1 && t[0] == '-'
            &&& b.len() >= scale + 2
            &&& b[b.len() - scale - 1] == '.'
            &&& forall|i: int| 0 <= i < b.len() && i != b.len() - scale - 1 ==> '0' <= #[trigger] b[i] <= '9'
            &&& b[0] == '0' ==> b.len() == scale + 2
        }),
{
    let abs = if m < 0 { -m } else { m };
    let d = decimal(abs as nat);
    crate::text::lemma_decimal_ascii_digits(abs as nat);
    lemma_pad_zeros_digits(d, scale + 1);
    let digits = pad_zeros(d, scale + 1);
    lemma_pad_zeros_len(d, scale + 1);
    let body = digits.subrange(0, digits.len() - scale) + seq!['.'] + digits.subrange(
        digits.len() - scale,
        digits.len() as int,
    );
    let t = dec_text(m, scale);
    let b = if m < 0 { t.subrange(1, t.len() as int) } else { t };
    assert(b =~= body);
    assert(body.len() == digits.len() + 1);
    assert(body[digits.len() - scale] == '.');
    assert forall|i: int| 0 <= i < body.len() && i != body.len() - scale - 1 implies '0' <= #[trigger] body[i] <= '9' by {
        if i < digits.len() - scale {
            assert(body[i] == digits[i]);
        } else {
            assert(body[i] == digits[i - 1]);
        }
    }
    if body[0] == '0' {
        assert(body[0] == digits[0]);
        if d.len() >= scale + 1 {
            assert(digits == d);
            if abs >= 1 {
                lemma_decimal_lead(abs as nat);
            } else {
                assert(d == seq![crate::text::digit_char(0)]);
            }
        }
    }
}

} // verus!
