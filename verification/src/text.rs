//! Byte-order comparison and small string helpers shared by the codecs.

use vstd::prelude::*;
use vstd::utf8::{encode_utf8, encode_utf8_decode_utf8};

verus! {

/// Lexicographic order on byte strings; a proper prefix sorts first.
/// This is the order of `str`'s `Ord` on the UTF-8 bytes.
pub open spec fn bytes_lt(a: Seq<u8>, b: Seq<u8>) -> bool
    decreases a.len(),
{
    if a.len() == 0 {
        b.len() > 0
    } else if b.len() == 0 {
        false
    } else if a[0] < b[0] {
        true
    } else if a[0] > b[0] {
        false
    } else {
        bytes_lt(a.drop_first(), b.drop_first())
    }
}

pub proof fn lemma_bytes_lt_irreflexive(a: Seq<u8>)
    ensures
        !bytes_lt(a, a),
    decreases a.len(),
{
    if a.len() > 0 {
        lemma_bytes_lt_irreflexive(a.drop_first());
    }
}

pub proof fn lemma_bytes_lt_asymmetric(a: Seq<u8>, b: Seq<u8>)
    requires
        bytes_lt(a, b),
    ensures
        !bytes_lt(b, a),
    decreases a.len(),
{
    if a.len() > 0 && b.len() > 0 && a[0] == b[0] {
        lemma_bytes_lt_asymmetric(a.drop_first(), b.drop_first());
    }
}

pub proof fn lemma_bytes_lt_transitive(a: Seq<u8>, b: Seq<u8>, c: Seq<u8>)
    requires
        bytes_lt(a, b),
        bytes_lt(b, c),
    ensures
        bytes_lt(a, c),
    decreases a.len(),
{
    if a.len() > 0 && b.len() > 0 && c.len() > 0 && a[0] == b[0] && b[0] == c[0] {
        lemma_bytes_lt_transitive(a.drop_first(), b.drop_first(), c.drop_first());
    }
}

pub proof fn lemma_bytes_lt_total(a: Seq<u8>, b: Seq<u8>)
    ensures
        a == b || bytes_lt(a, b) || bytes_lt(b, a),
    decreases a.len(),
{
    if a.len() == 0 {
        if b.len() == 0 {
            assert(a =~= b);
        }
    } else if b.len() == 0 {
    } else if a[0] != b[0] {
    } else {
        let a1 = a.drop_first();
        let b1 = b.drop_first();
        lemma_bytes_lt_total(a1, b1);
        if a1 == b1 {
            assert forall|k: int| 0 <= k < a.len() implies a[k] == b[k] by {
                if k > 0 {
                    assert(a[k] == a1[k - 1]);
                    assert(b[k] == b1[k - 1]);
                }
            }
            assert(a =~= b);
        }
    }
}

proof fn lemma_bytes_lt_skip(a: Seq<u8>, b: Seq<u8>, i: int)
    requires
        0 <= i <= a.len(),
        i <= b.len(),
        a.subrange(0, i) =~= b.subrange(0, i),
    ensures
        bytes_lt(a, b) == bytes_lt(a.subrange(i, a.len() as int), b.subrange(i, b.len() as int)),
    decreases i,
{
    if i > 0 {
        assert(a[0] == a.subrange(0, i)[0]);
        assert(b[0] == b.subrange(0, i)[0]);
        assert(a.drop_first().subrange(0, i - 1) =~= b.drop_first().subrange(0, i - 1)) by {
            assert forall|k: int| 0 <= k < i - 1 implies a.drop_first()[k] == b.drop_first()[k] by {
                assert(a.subrange(0, i)[k + 1] == b.subrange(0, i)[k + 1]);
            }
        }
        lemma_bytes_lt_skip(a.drop_first(), b.drop_first(), i - 1);
        assert(a.drop_first().subrange(i - 1, a.len() - 1) =~= a.subrange(i, a.len() as int));
        assert(b.drop_first().subrange(i - 1, b.len() - 1) =~= b.subrange(i, b.len() as int));
    } else {
        assert(a.subrange(0, a.len() as int) =~= a);
        assert(b.subrange(0, b.len() as int) =~= b);
    }
}

/// Byte-lexicographic comparison of two byte strings.
pub fn bytes_less(a: &[u8], b: &[u8]) -> (r: bool)
    ensures
        r == bytes_lt(a@, b@),
{
    let mut i: usize = 0;
    while i < a.len() && i < b.len()
        invariant
            i <= a@.len(),
            i <= b@.len(),
            a@.subrange(0, i as int) =~= b@.subrange(0, i as int),
        decreases a@.len() - i,
    {
        if a[i] != b[i] {
            proof {
                lemma_bytes_lt_skip(a@, b@, i as int);
            }
            return a[i] < b[i];
        }
        proof {
            assert(a@.subrange(0, i + 1) =~= a@.subrange(0, i as int).push(a@[i as int]));
            assert(b@.subrange(0, i + 1) =~= b@.subrange(0, i as int).push(b@[i as int]));
        }
        i = i + 1;
    }
    proof {
        lemma_bytes_lt_skip(a@, b@, i as int);
    }
    i < b.len()
}

/// `a < b` in the order of `str`'s `Ord`, which compares UTF-8 bytes.
pub fn str_less(a: &str, b: &str) -> (r: bool)
    ensures
        r == bytes_lt(encode_utf8(a@), encode_utf8(b@)),
{
    bytes_less(a.as_bytes(), b.as_bytes())
}

/// Whether two byte strings are equal.
pub fn bytes_eq(a: &[u8], b: &[u8]) -> (r: bool)
    ensures
        r == (a@ == b@),
{
    if a.len() != b.len() {
        return false;
    }
    let mut i: usize = 0;
    while i < a.len()
        invariant
            i <= a@.len(),
            a@.len() == b@.len(),
            forall|k: int| 0 <= k < i ==> a@[k] == b@[k],
        decreases a@.len() - i,
    {
        if a[i] != b[i] {
            return false;
        }
        i = i + 1;
    }
    assert(a@ =~= b@);
    true
}

/// Whether two strings hold the same characters.
pub fn str_eq(a: &str, b: &str) -> (r: bool)
    ensures
        r == (a@ == b@),
{
    let r = bytes_eq(a.as_bytes(), b.as_bytes());
    proof {
        encode_utf8_decode_utf8(a@);
        encode_utf8_decode_utf8(b@);
    }
    r
}

/// The ASCII digit for `d < 10`.
pub open spec fn digit_char(d: nat) -> char {
    (48 + d) as char
}

/// Decimal digits of `n`, most significant first, without leading zeros.
pub open spec fn decimal(n: nat) -> Seq<char>
    decreases n,
{
    if n < 10 {
        seq![digit_char(n)]
    } else {
        decimal(n / 10).push(digit_char(n % 10))
    }
}

pub fn digit_str(d: u64) -> (s: &'static str)
    requires
        d < 10,
    ensures
        s@ == seq![digit_char(d as nat)],
{
    proof {
        reveal_strlit("0");
        reveal_strlit("1");
        reveal_strlit("2");
        reveal_strlit("3");
        reveal_strlit("4");
        reveal_strlit("5");
        reveal_strlit("6");
        reveal_strlit("7");
        reveal_strlit("8");
        reveal_strlit("9");
    }
    let s = if d == 0 {
        "0"
    } else if d == 1 {
        "1"
    } else if d == 2 {
        "2"
    } else if d == 3 {
        "3"
    } else if d == 4 {
        "4"
    } else if d == 5 {
        "5"
    } else if d == 6 {
        "6"
    } else if d == 7 {
        "7"
    } else if d == 8 {
        "8"
    } else {
        "9"
    };
    assert(s@ =~= seq![digit_char(d as nat)]);
    s
}

pub proof fn lemma_decimal_ascii_digits(n: nat)
    ensures
        forall|i: int| 0 <= i < decimal(n).len() ==> '0' <= #[trigger] decimal(n)[i] <= '9',
        decimal(n).len() >= 1,
    decreases n,
{
    if n >= 10 {
        lemma_decimal_ascii_digits(n / 10);
        assert forall|i: int| 0 <= i < decimal(n).len() implies '0' <= #[trigger] decimal(n)[i] <= '9' by {
            if i < decimal(n / 10).len() {
                assert(decimal(n)[i] == decimal(n / 10)[i]);
            }
        }
    }
}

/// The decimal text of `n` reads back as `n`.
pub proof fn lemma_decimal_parses(n: nat)
    requires
        n <= i64::MAX,
    ensures
        parse_i64_bytes(encode_utf8(decimal(n))) == Some(n as i64),
        all_digits(encode_utf8(decimal(n))),
        digits_value(encode_utf8(decimal(n))) == n,
        encode_utf8(decimal(n)).len() == decimal(n).len(),
    decreases n,
{
    lemma_decimal_ascii_digits(n);
    let d = decimal(n);
    assert(vstd::utf8::is_ascii_chars(d));
    vstd::utf8::is_ascii_chars_encode_utf8(d);
    let b = encode_utf8(d);
    assert(all_digits(b)) by {
        assert forall|i: int| 0 <= i < b.len() implies 48 <= #[trigger] b[i] <= 57 by {
            assert(d[i] as u8 == b[i]);
        }
    }
    if n >= 10 {
        lemma_decimal_parses(n / 10);
        let d0 = decimal(n / 10);
        lemma_decimal_ascii_digits(n / 10);
        assert(vstd::utf8::is_ascii_chars(d0));
        vstd::utf8::is_ascii_chars_encode_utf8(d0);
        let b0 = encode_utf8(d0);
        assert(b.drop_last() =~= b0) by {
            assert forall|i: int| 0 <= i < b0.len() implies b.drop_last()[i] == b0[i] by {
                assert(d[i] == d0[i]);
                assert(d[i] as u8 == b[i]);
                assert(d0[i] as u8 == b0[i]);
            }
        }
        assert(b.last() == d.last() as u8);
        assert(d.last() == digit_char(n % 10));
        assert(digit_char(n % 10) as u8 == 48 + n % 10);
        assert(digits_value(b) == digits_value(b0) * 10 + (b.last() - 48));
    } else {
        assert(b.drop_last() =~= Seq::<u8>::empty());
        assert(b.last() == d[0] as u8);
        assert(d[0] == digit_char(n));
        assert(digit_char(n) as u8 == 48 + n);
        assert(digits_value(b.drop_last()) == 0);
    }
    assert(b[0] == d[0] as u8);
    assert(b[0] != 45u8 && b[0] != 43u8);
}

/// `n` written in decimal.
pub fn decimal_string(n: u64) -> (s: String)
    ensures
        s@ == decimal(n as nat),
    decreases n,
{
    let mut s = if n >= 10 {
        decimal_string(n / 10)
    } else {
        String::new()
    };
    s.append(digit_str(n % 10));
    assert(s@ =~= decimal(n as nat));
    s
}

/// `a` followed by `b`.
pub fn concat_str(a: &str, b: &str) -> (s: String)
    ensures
        s@ == a@ + b@,
{
    let mut s = a.to_owned();
    s.append(b);
    s
}

/// Whether every byte is an ASCII digit.
pub open spec fn all_digits(d: Seq<u8>) -> bool {
    forall|i: int| 0 <= i < d.len() ==> 48 <= #[trigger] d[i] <= 57
}

/// The number the ASCII digits spell.
pub open spec fn digits_value(d: Seq<u8>) -> int
    decreases d.len(),
{
    if d.len() == 0 {
        0
    } else {
        digits_value(d.drop_last()) * 10 + (d.last() - 48)
    }
}

/// What `i64`'s `FromStr` accepts: an optional `+` or `-`, then one or more
/// ASCII digits, naming a value in range.
pub open spec fn parse_i64_bytes(b: Seq<u8>) -> Option<i64> {
    let neg = b.len() > 0 && b[0] == 45u8;
    let signed = b.len() > 0 && (b[0] == 45u8 || b[0] == 43u8);
    let d = if signed { b.drop_first() } else { b };
    if d.len() == 0 || !all_digits(d) {
        None
    } else {
        let v = if neg { -digits_value(d) } else { digits_value(d) };
        if i64::MIN <= v <= i64::MAX {
            Some(v as i64)
        } else {
            None
        }
    }
}

proof fn lemma_digits_value_nonneg(d: Seq<u8>)
    requires
        all_digits(d),
    ensures
        digits_value(d) >= 0,
    decreases d.len(),
{
    if d.len() > 0 {
        assert(all_digits(d.drop_last())) by {
            assert forall|i: int| 0 <= i < d.drop_last().len() implies 48 <= #[trigger] d.drop_last()[i] <= 57 by {
                assert(d.drop_last()[i] == d[i]);
            }
        }
        lemma_digits_value_nonneg(d.drop_last());
        assert(48 <= d[d.len() - 1] <= 57);
    }
}

proof fn lemma_digits_value_grows(d: Seq<u8>, i: int)
    requires
        all_digits(d),
        0 <= i <= d.len(),
    ensures
        digits_value(d.subrange(0, i)) <= digits_value(d),
    decreases d.len() - i,
{
    if i < d.len() {
        lemma_digits_value_grows(d, i + 1);
        let s = d.subrange(0, i + 1);
        assert(s.drop_last() =~= d.subrange(0, i));
        assert(all_digits(d.subrange(0, i))) by {
            assert forall|k: int| 0 <= k < i implies 48 <= #[trigger] d.subrange(0, i)[k] <= 57 by {
                assert(d.subrange(0, i)[k] == d[k]);
            }
        }
        lemma_digits_value_nonneg(d.subrange(0, i));
        assert(48 <= d[i] <= 57);
    } else {
        assert(d.subrange(0, i) =~= d);
    }
}

/// `s.parse::<i64>()`, over the string's UTF-8 bytes.
pub fn parse_i64(s: &str) -> (r: Option<i64>)
    ensures
        r == parse_i64_bytes(encode_utf8(s@)),
{
    let b = s.as_bytes();
    let n = b.len();
    let neg = n > 0 && b[0] == 45u8;
    let signed = n > 0 && (b[0] == 45u8 || b[0] == 43u8);
    let start: usize = if signed { 1 } else { 0 };
    let ghost d = if signed { b@.drop_first() } else { b@ };
    assert(d =~= b@.subrange(start as int, n as int));
    if start == n {
        return None;
    }
    let limit: u128 = if neg { 9223372036854775808u128 } else { 9223372036854775807u128 };
    let mut mag: u128 = 0;
    let mut i: usize = start;
    while i < n
        invariant
            start <= i <= n,
            n == b@.len(),
            b@ == encode_utf8(s@),
            neg == (b@.len() > 0 && b@[0] == 45u8),
            signed == (b@.len() > 0 && (b@[0] == 45u8 || b@[0] == 43u8)),
            start == (if signed { 1usize } else { 0usize }),
            d == (if signed { b@.drop_first() } else { b@ }),
            limit == (if neg { 9223372036854775808u128 } else { 9223372036854775807u128 }),
            d == b@.subrange(start as int, n as int),
            all_digits(d.subrange(0, i - start)),
            mag as int == digits_value(d.subrange(0, i - start)),
            mag <= limit,
            limit <= 9223372036854775808u128,
        decreases n - i,
    {
        let c = b[i];
        if c < 48u8 || c > 57u8 {
            proof {
                assert(d[i - start] == c);
            }
            return None;
        }
        let next = mag * 10 + (c - 48u8) as u128;
        proof {
            let k = (i - start) as int;
            assert(d.subrange(0, k + 1).drop_last() =~= d.subrange(0, k));
            assert(d.subrange(0, k + 1).last() == c);
            assert(all_digits(d.subrange(0, k + 1))) by {
                assert forall|j: int| 0 <= j < k + 1 implies 48 <= #[trigger] d.subrange(0, k + 1)[j] <= 57 by {
                    if j < k {
                        assert(d.subrange(0, k + 1)[j] == d.subrange(0, k)[j]);
                    }
                }
            }
        }
        if next > limit {
            proof {
                let k = (i - start) as int;
                let rest_ok = all_digits(d);
                if rest_ok {
                    lemma_digits_value_grows(d, k + 1);
                    assert(digits_value(d) > limit);
                }
            }
            return None;
        }
        mag = next;
        i = i + 1;
    }
    assert(d.subrange(0, n - start) =~= d);
    if neg {
        if mag == 9223372036854775808u128 {
            Some(i64::MIN)
        } else {
            Some(-(mag as i64))
        }
    } else {
        Some(mag as i64)
    }
}

/// The pieces of `s` between occurrences of `c`, as `str::split` gives them.
pub open spec fn split_on(s: Seq<char>, c: char) -> Seq<Seq<char>>
    decreases s.len(),
{
    if s.len() == 0 {
        seq![seq![]]
    } else {
        let parts = split_on(s.drop_last(), c);
        if s.last() == c {
            parts.push(seq![])
        } else {
            parts.update(parts.len() - 1, parts.last().push(s.last()))
        }
    }
}

pub proof fn lemma_split_on_nonempty(s: Seq<char>, c: char)
    ensures
        split_on(s, c).len() >= 1,
    decreases s.len(),
{
    if s.len() > 0 {
        lemma_split_on_nonempty(s.drop_last(), c);
    }
}

/// The pieces of `s` between occurrences of `c`.
pub fn split_chars(s: &str, c: char) -> (r: Vec<String>)
    ensures
        r@.map_values(|x: String| x@) == split_on(s@, c),
{
    let n = s.unicode_len();
    let mut parts: Vec<String> = Vec::new();
    let mut start: usize = 0;
    let mut i: usize = 0;
    proof {
        assert(s@.subrange(0, 0) =~= Seq::<char>::empty());
        assert(split_on(Seq::<char>::empty(), c) == seq![Seq::<char>::empty()]);
        assert(parts@.map_values(|x: String| x@).push(s@.subrange(0, 0)) =~= seq![Seq::<char>::empty()]);
    }
    while i < n
        invariant
            start <= i <= n,
            n == s@.len(),
            split_on(s@.subrange(0, i as int), c) == parts@.map_values(|x: String| x@).push(
                s@.subrange(start as int, i as int),
            ),
        decreases n - i,
    {
        let ch = s.get_char(i);
        let ghost pv = parts@.map_values(|x: String| x@);
        proof {
            assert(s@.subrange(0, i + 1).drop_last() =~= s@.subrange(0, i as int));
            assert(s@.subrange(0, i + 1).last() == ch);
            lemma_split_on_nonempty(s@.subrange(0, i as int), c);
        }
        if ch == c {
            let piece = s.substring_char(start, i).to_owned();
            parts.push(piece);
            proof {
                assert(parts@.map_values(|x: String| x@) =~= pv.push(s@.subrange(start as int, i as int)));
                assert(s@.subrange(i + 1, i + 1) =~= Seq::<char>::empty());
            }
            start = i + 1;
        } else {
            proof {
                assert(s@.subrange(start as int, i + 1) =~= s@.subrange(start as int, i as int).push(ch));
                assert(pv.push(s@.subrange(start as int, i as int)).update(pv.len() as int, s@.subrange(start as int, i as int).push(ch)) =~= pv.push(s@.subrange(start as int, i + 1)));
            }
        }
        i = i + 1;
    }
    let piece = s.substring_char(start, n).to_owned();
    let ghost pv = parts@.map_values(|x: String| x@);
    parts.push(piece);
    proof {
        assert(s@.subrange(0, n as int) =~= s@);
        assert(parts@.map_values(|x: String| x@) =~= pv.push(s@.subrange(start as int, n as int)));
    }
    parts
}

/// Unicode `White_Space`, the characters `char::is_whitespace` accepts.
pub open spec fn is_white_space(c: char) -> bool {
    ||| '\t' <= c <= '\r'
    ||| c == ' '
    ||| c == '\u{85}'
    ||| c == '\u{a0}'
    ||| c == '\u{1680}'
    ||| '\u{2000}' <= c <= '\u{200a}'
    ||| c == '\u{2028}'
    ||| c == '\u{2029}'
    ||| c == '\u{202f}'
    ||| c == '\u{205f}'
    ||| c == '\u{3000}'
}

/// `s` without its leading white space.
pub open spec fn trim_start_of(s: Seq<char>) -> Seq<char>
    decreases s.len(),
{
    if s.len() > 0 && is_white_space(s[0]) {
        trim_start_of(s.drop_first())
    } else {
        s
    }
}

/// `s` without its trailing white space.
pub open spec fn trim_end_of(s: Seq<char>) -> Seq<char>
    decreases s.len(),
{
    if s.len() > 0 && is_white_space(s.last()) {
        trim_end_of(s.drop_last())
    } else {
        s
    }
}

/// What `str::trim` leaves of a string: the string without leading and
/// trailing white space.
pub open spec fn trimmed(s: Seq<char>) -> Seq<char> {
    trim_end_of(trim_start_of(s))
}

/// A string that neither starts nor ends with white space is its own trim.
pub proof fn lemma_trimmed_unchanged(s: Seq<char>)
    requires
        s.len() > 0 ==> !is_white_space(s[0]) && !is_white_space(s.last()),
    ensures
        trimmed(s) == s,
{
}

/// `str::trim`: the string without leading and trailing white space.
#[verifier::external_body]
pub fn trim_str(s: &str) -> (r: &str)
    ensures
        r@ == trimmed(s@),
{
    s.trim()
}

} // verus!
