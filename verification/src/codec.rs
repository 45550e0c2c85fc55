//! The text form of stored objects: compact JSON, byte for byte as serde_json
//! writes it. Writing calls serde_json for strings and integers; reading is
//! the exact inverse of writing, so a text is accepted if and only if it is
//! the written form of some value.
use vstd::prelude::*;
use vstd::utf8::*;

verus! {

pub const QUOTE: u8 = 0x22;
pub const BACKSLASH: u8 = 0x5c;
pub const MINUS: u8 = 0x2d;
pub const COMMA: u8 = 0x2c;
pub const COLON: u8 = 0x3a;
pub const OPEN_BRACKET: u8 = 0x5b;
pub const CLOSE_BRACKET: u8 = 0x5d;
pub const OPEN_BRACE: u8 = 0x7b;
pub const CLOSE_BRACE: u8 = 0x7d;

pub open spec fn is_digit(b: u8) -> bool {
    48 <= b <= 57
}

/// 10 to the power `k`.
pub open spec fn pow10(k: nat) -> nat
    decreases k,
{
    if k == 0 {
        1
    } else {
        10 * pow10((k - 1) as nat)
    }
}

/// The decimal digits of `n`, most significant first, without leading zeros.
pub open spec fn digit_bytes(n: nat) -> Seq<u8>
    decreases n,
{
    if n < 10 {
        seq![(48 + n) as u8]
    } else {
        digit_bytes(n / 10) + seq![(48 + n % 10) as u8]
    }
}

/// The decimal text of an integer, with a leading `-` when it is negative.
pub open spec fn decimal(n: int) -> Seq<u8> {
    if n < 0 {
        seq![MINUS] + digit_bytes((-n) as nat)
    } else {
        digit_bytes(n as nat)
    }
}

/// The value of a sequence of decimal digits.
pub open spec fn digits_value(s: Seq<u8>) -> nat
    decreases s.len(),
{
    if s.len() == 0 {
        0
    } else {
        digits_value(s.drop_last()) * 10 + (s.last() - 48) as nat
    }
}

/// A digit sequence as `digit_bytes` writes it: non-empty, all digits, and no
/// leading zero unless it is the single digit `0`.
pub open spec fn canonical_digits(s: Seq<u8>) -> bool {
    &&& s.len() > 0
    &&& forall|i: int| 0 <= i < s.len() ==> is_digit(#[trigger] s[i])
    &&& s.len() > 1 ==> s[0] != 48
}

pub proof fn lemma_digit_bytes(n: nat)
    ensures
        canonical_digits(digit_bytes(n)),
        digits_value(digit_bytes(n)) == n,
        n >= 1 ==> digit_bytes(n)[0] != 48,
        forall|k: nat| n < pow10(k) && k > 0 ==> digit_bytes(n).len() <= k,
    decreases n,
{
    if n >= 10 {
        lemma_digit_bytes(n / 10);
        let s = digit_bytes(n);
        let p = digit_bytes(n / 10);
        assert(s.drop_last() =~= p);
        assert(s.last() == (48 + n % 10) as u8);
        assert(digits_value(s) == digits_value(p) * 10 + (s.last() - 48) as nat);
        assert((n / 10) * 10 + n % 10 == n) by (nonlinear_arith);
        assert forall|i: int| 0 <= i < s.len() implies is_digit(#[trigger] s[i]) by {
            if i < p.len() {
                assert(s[i] == p[i]);
            }
        }
        assert(s[0] == p[0]);
        assert forall|k: nat| n < pow10(k) && k > 0 implies digit_bytes(n).len() <= k by {
            if k == 1 {
                assert(pow10(1) == 10) by {
                    reveal_with_fuel(pow10, 2);
                }
            } else {
                assert(pow10(k) == 10 * pow10((k - 1) as nat));
                assert(n / 10 < pow10((k - 1) as nat));
            }
        }
    } else {
        let s = digit_bytes(n);
        assert(s.drop_last().len() == 0);
        assert(digits_value(s) == digits_value(s.drop_last()) * 10 + (s.last() - 48) as nat);
        assert forall|k: nat| n < pow10(k) && k > 0 implies digit_bytes(n).len() <= k by {}
    }
}

proof fn lemma_canonical_value_bound(s: Seq<u8>)
    requires
        canonical_digits(s),
        s.len() > 1,
    ensures
        digits_value(s) >= 10,
    decreases s.len(),
{
    let p = s.drop_last();
    assert(p[0] == s[0]);
    assert forall|i: int| 0 <= i < p.len() implies is_digit(#[trigger] p[i]) by {
        assert(p[i] == s[i]);
    }
    if p.len() > 1 {
        lemma_canonical_value_bound(p);
    } else {
        assert(p =~= seq![s[0]]);
        assert(digits_value(p) == digits_value(p.drop_last()) * 10 + (p.last() - 48) as nat);
        assert(p.drop_last().len() == 0);
    }
}

/// A canonical digit sequence is the text `digit_bytes` writes for its value.
pub proof fn lemma_canonical_digits(s: Seq<u8>)
    requires
        canonical_digits(s),
    ensures
        digit_bytes(digits_value(s)) == s,
    decreases s.len(),
{
    if s.len() == 1 {
        assert(s.drop_last().len() == 0);
        assert(is_digit(s[0]));
        assert(s.last() == s[0]);
        let v = digits_value(s);
        assert(v == digits_value(s.drop_last()) * 10 + (s.last() - 48) as nat);
        assert(v == (s[0] - 48) as nat);
        assert(v < 10);
        assert(digit_bytes(v) == seq![(48 + v) as u8]);
        assert(digit_bytes(v) =~= s);
    } else {
        let p = s.drop_last();
        assert(p[0] == s[0]);
        assert forall|i: int| 0 <= i < p.len() implies is_digit(#[trigger] p[i]) by {
            assert(p[i] == s[i]);
        }
        lemma_canonical_digits(p);
        lemma_canonical_value_bound(s);
        let v = digits_value(s);
        let a = digits_value(p);
        let d = (s.last() - 48) as nat;
        assert(is_digit(s[s.len() - 1]));
        assert(v == a * 10 + d);
        assert(v / 10 == a && v % 10 == d) by (nonlinear_arith)
            requires
                v == a * 10 + d,
                d < 10,
        ;
        assert(digit_bytes(v) =~= s);
    }
}

/// Calls `serde_json::to_vec` on an `i64`. The contract claims that the text
/// is the decimal form of the number: serde_json writes integers with `itoa`,
/// which prints a leading `-` for negative numbers and no leading zeros.
#[verifier::external_body]
fn json_integer(n: i64) -> (res: Vec<u8>)
    ensures
        res@ == decimal(n as int),
{
    serde_json::to_vec(&n).unwrap_or_default()
}

/// Appends the decimal text of `n` to `out`.
pub fn write_integer(out: &mut Vec<u8>, n: i64)
    ensures
        final(out)@ == old(out)@ + decimal(n as int),
{
    let mut text = json_integer(n);
    out.append(&mut text);
}

/// `t` holds `lit` at position `pos`.
pub open spec fn has_at(t: Seq<u8>, pos: int, lit: Seq<u8>) -> bool {
    0 <= pos && pos + lit.len() <= t.len() && t.subrange(pos, pos + lit.len()) == lit
}

/// The position right after an integer text that starts at `pos`: the text is
/// followed by the end of `t` or by a byte that is not a digit.
pub open spec fn number_ends(t: Seq<u8>, end: int) -> bool {
    end == t.len() || (end < t.len() && !is_digit(t[end]))
}

#[verifier::spinoff_prover]
#[verifier::rlimit(40)]
/// Reads the integer whose decimal text starts at `pos` and returns it with the
/// position after its text. Only the text `decimal` writes is accepted, and only
/// for values in `lo..=hi`.
pub fn read_integer(t: &[u8], pos: usize, lo: i64, hi: i64) -> (res: Option<(i64, usize)>)
    ensures
        res matches Some((v, end)) ==> {
            &&& lo <= v <= hi
            &&& pos <= end <= t@.len()
            &&& t@.subrange(pos as int, end as int) == decimal(v as int)
            &&& number_ends(t@, end as int)
        },
        forall|v: i64|
            lo <= v <= hi && has_at(t@, pos as int, decimal(v as int)) && number_ends(
                t@,
                pos + decimal(v as int).len(),
            ) ==> res == Some((v, (pos + decimal(v as int).len()) as usize)),
{
    let len = t.len();
    if pos >= len {
        return None;
    }
    let mut i = pos;
    let neg = t[i] == MINUS;
    if neg {
        i = i + 1;
    }
    let start = i;
    while i < len && 48 <= t[i] && t[i] <= 57
        invariant
            start <= i <= len,
            len == t@.len(),
            forall|j: int| start <= j < i ==> is_digit(#[trigger] t@[j]),
        decreases len - i,
    {
        i = i + 1;
    }
    let ghost digits = t@.subrange(start as int, i as int);
    let n = i - start;
    proof {
        reveal_with_fuel(pow10, 20);
        assert(pow10(19) == 10000000000000000000nat);
        lemma_number_scan(t@, pos as int, start as int, i as int, neg, lo as int, hi as int);
        if n > 1 {
            assert(digits[0] == t@[start as int]);
        }
    }
    if n == 0 || n > 19 || (n > 1 && t[start] == 48) {
        return None;
    }
    let mut v: u64 = 0;
    let mut j = start;
    while j < i
        invariant
            start <= j <= i <= len,
            len == t@.len(),
            i - start <= 19,
            forall|k: int| start <= k < i ==> is_digit(#[trigger] t@[k]),
            v == digits_value(t@.subrange(start as int, j as int)),
            v < pow10((j - start) as nat),
        decreases i - j,
    {
        proof {
            reveal_with_fuel(pow10, 20);
            assert(pow10(18) == 1000000000000000000u64);
            lemma_pow10_mono((j - start) as nat, 18);
            assert(t@.subrange(start as int, j + 1).drop_last() =~= t@.subrange(start as int, j as int));
            assert(is_digit(t@[j as int]));
        }
        v = v * 10 + (t[j] - 48) as u64;
        j = j + 1;
    }
    assert(t@.subrange(start as int, j as int) =~= digits);
    let value: i64;
    if neg {
        if v == 0 || v > 9223372036854775808 {
            return None;
        }
        if v == 9223372036854775808 {
            value = i64::MIN;
        } else {
            value = -(v as i64);
        }
    } else {
        if v > 9223372036854775807 {
            return None;
        }
        value = v as i64;
    }
    if value < lo || value > hi {
        return None;
    }
    proof {
        lemma_canonical_digits(digits);
        if neg {
            assert(t@.subrange(pos as int, i as int) =~= seq![MINUS] + digits);
        } else {
            assert(t@.subrange(pos as int, i as int) =~= digits);
        }
    }
    Some((value, i))
}

proof fn lemma_pow10_mono(a: nat, b: nat)
    requires
        a <= b,
    ensures
        pow10(a) <= pow10(b),
    decreases b,
{
    if a < b {
        lemma_pow10_mono(a, (b - 1) as nat);
    }
}

/// What the digit scan of `read_integer` finds when the text of an in-range
/// value stands at `pos`.
proof fn lemma_number_scan(t: Seq<u8>, pos: int, start: int, i: int, neg: bool, lo: int, hi: int)
    requires
        0 <= pos < t.len(),
        neg == (t[pos] == MINUS),
        start == if neg { pos + 1 } else { pos },
        start <= i <= t.len(),
        forall|j: int| start <= j < i ==> is_digit(#[trigger] t[j]),
        i == t.len() || !is_digit(t[i]),
        pow10(19) == 10000000000000000000nat,
    ensures
        forall|v: i64|
            lo <= v <= hi && has_at(t, pos, decimal(v as int)) && number_ends(t, pos + decimal(v as int).len())
            ==> {
                &&& neg == (v < 0)
                &&& i == pos + decimal(v as int).len()
                &&& i - start <= 19
                &&& canonical_digits(t.subrange(start, i))
                &&& digits_value(t.subrange(start, i)) == if v < 0 { -v } else { v as int }
            },
{
    assert forall|v: i64|
        lo <= v <= hi && has_at(t, pos, decimal(v as int)) && number_ends(t, pos + decimal(v as int).len())
        implies {
            &&& neg == (v < 0)
            &&& i == pos + decimal(v as int).len()
            &&& i - start <= 19
            &&& canonical_digits(t.subrange(start, i))
            &&& digits_value(t.subrange(start, i)) == if v < 0 { -v } else { v as int }
        } by {
        let m: nat = if v < 0 { (-v) as nat } else { v as nat };
        let d = digit_bytes(m);
        lemma_digit_bytes(m);
        let e = pos + decimal(v as int).len();
        let dec = decimal(v as int);
        assert(t.subrange(pos, e) == dec);
        if v < 0 {
            assert(dec =~= seq![MINUS] + d);
            assert(dec[0] == MINUS);
            assert(t[pos] == dec[0]);
            assert forall|j: int| start <= j < e implies is_digit(t[j]) by {
                assert(t[j] == t.subrange(pos, e)[j - pos]);
                assert(dec[j - pos] == d[j - pos - 1]);
            }
        } else {
            assert(dec == d);
            assert(is_digit(d[0]));
            assert(t[pos] == t.subrange(pos, e)[0]);
            assert forall|j: int| start <= j < e implies is_digit(t[j]) by {
                assert(t[j] == t.subrange(pos, e)[j - pos]);
            }
        }
        if i < e {
            assert(is_digit(t[i]));
        }
        if i > e {
            assert(is_digit(t[e]));
        }
        assert(i == e);
        assert(m < pow10(19));
        if v < 0 {
            assert(t.subrange(start, i) =~= d) by {
                assert forall|j: int| 0 <= j < d.len() implies t.subrange(start, i)[j] == d[j] by {
                    assert(t.subrange(start, i)[j] == t.subrange(pos, e)[j + 1]);
                }
            }
        } else {
            assert(t.subrange(start, i) =~= d);
        }
    }
}


pub proof fn lemma_has_at(t: Seq<u8>, pos: int, lit: Seq<u8>)
    ensures
        has_at(t, pos, lit) <==> (0 <= pos && pos + lit.len() <= t.len() && forall|j: int|
            0 <= j < lit.len() ==> #[trigger] t[pos + j] == lit[j]),
{
    if 0 <= pos && pos + lit.len() <= t.len() && forall|j: int|
        0 <= j < lit.len() ==> #[trigger] t[pos + j] == lit[j] {
        assert(t.subrange(pos, pos + lit.len()) =~= lit) by {
            assert forall|j: int| 0 <= j < lit.len() implies t.subrange(pos, pos + lit.len())[j]
                == lit[j] by {
                assert(t[pos + j] == lit[j]);
            }
        }
    }
    if has_at(t, pos, lit) {
        assert forall|j: int| 0 <= j < lit.len() implies #[trigger] t[pos + j] == lit[j] by {
            assert(t.subrange(pos, pos + lit.len())[j] == t[pos + j]);
        }
    }
}

/// The lower-case hexadecimal digit for `d` in `0..16`.
pub open spec fn hex_digit(d: int) -> u8 {
    if d < 10 {
        (48 + d) as u8
    } else {
        (87 + d) as u8
    }
}

/// How a JSON string writes one byte of its UTF-8 text: `"` and `\` behind a
/// backslash, the control bytes with a short escape where one exists and as
/// `\u00xx` otherwise, every other byte as itself.
pub open spec fn escape_byte(b: u8) -> Seq<u8> {
    if b == QUOTE {
        seq![BACKSLASH, QUOTE]
    } else if b == BACKSLASH {
        seq![BACKSLASH, BACKSLASH]
    } else if b == 0x08 {
        seq![BACKSLASH, 0x62u8]
    } else if b == 0x09 {
        seq![BACKSLASH, 0x74u8]
    } else if b == 0x0a {
        seq![BACKSLASH, 0x6eu8]
    } else if b == 0x0c {
        seq![BACKSLASH, 0x66u8]
    } else if b == 0x0d {
        seq![BACKSLASH, 0x72u8]
    } else if b < 0x20 {
        seq![BACKSLASH, 0x75u8, 48u8, 48u8, hex_digit((b / 16) as int), hex_digit((b % 16) as int)]
    } else {
        seq![b]
    }
}

pub open spec fn escape_bytes(s: Seq<u8>) -> Seq<u8>
    decreases s.len(),
{
    if s.len() == 0 {
        seq![]
    } else {
        escape_bytes(s.drop_last()) + escape_byte(s.last())
    }
}

/// The JSON string literal of a UTF-8 byte sequence.
pub open spec fn quoted(s: Seq<u8>) -> Seq<u8> {
    seq![QUOTE] + escape_bytes(s) + seq![QUOTE]
}

/// The JSON string literal of a text.
pub open spec fn json_string(s: Seq<char>) -> Seq<u8> {
    quoted(encode_utf8(s))
}

pub proof fn lemma_escape_concat(a: Seq<u8>, b: Seq<u8>)
    ensures
        escape_bytes(a + b) == escape_bytes(a) + escape_bytes(b),
    decreases b.len(),
{
    if b.len() == 0 {
        assert(a + b =~= a);
        assert(escape_bytes(a) + escape_bytes(b) =~= escape_bytes(a));
    } else {
        lemma_escape_concat(a, b.drop_last());
        assert((a + b).drop_last() =~= a + b.drop_last());
        assert((a + b).last() == b.last());
    }
}

/// Calls `serde_json::to_vec` on a `str`. The contract claims the text that
/// serde_json's compact formatter writes: a quote, each byte of the UTF-8 text
/// escaped by the `ESCAPE` table of `serde_json::ser`, and a closing quote.
#[verifier::external_body]
fn json_str(s: &str) -> (res: Vec<u8>)
    ensures
        res@ == json_string(s@),
{
    serde_json::to_vec(s).unwrap_or_default()
}

/// Appends the JSON string literal of `s` to `out`.
pub fn write_string(out: &mut Vec<u8>, s: &str)
    ensures
        final(out)@ == old(out)@ + json_string(s@),
{
    let mut text = json_str(s);
    out.append(&mut text);
}

/// Reads the one escaped byte whose text starts at `i` inside a string literal.
fn read_escaped_byte(t: &[u8], i: usize) -> (res: Option<(u8, usize)>)
    requires
        i < t@.len(),
    ensures
        res matches Some((b, j)) ==> i < j <= t@.len() && t@.subrange(i as int, j as int)
            == escape_byte(b),
        forall|b: u8| has_at(t@, i as int, escape_byte(b)) ==> res == Some(
            (b, (i + escape_byte(b).len()) as usize),
        ),
        t@[i as int] == QUOTE ==> res is None,
{
    let len = t.len();
    let c = t[i];
    proof {
        assert forall|b: u8| has_at(t@, i as int, escape_byte(b)) implies t@[i as int] == escape_byte(b)[0]
            && (escape_byte(b).len() > 1 ==> t@[i + 1] == escape_byte(b)[1]) && (escape_byte(b).len()
            > 2 ==> t@[i + 2] == escape_byte(b)[2] && t@[i + 3] == escape_byte(b)[3] && t@[i + 4]
            == escape_byte(b)[4] && t@[i + 5] == escape_byte(b)[5]) by {
            lemma_has_at(t@, i as int, escape_byte(b));
            assert(t@[i + 0] == escape_byte(b)[0]);
            if escape_byte(b).len() > 1 {
                assert(t@[i + 1] == escape_byte(b)[1]);
            }
            if escape_byte(b).len() > 2 {
                assert(t@[i + 2] == escape_byte(b)[2]);
                assert(t@[i + 3] == escape_byte(b)[3]);
                assert(t@[i + 4] == escape_byte(b)[4]);
                assert(t@[i + 5] == escape_byte(b)[5]);
            }
        }
    }
    if c == BACKSLASH {
        if i + 1 >= len {
            return None;
        }
        let e = t[i + 1];
        let short: Option<u8> = if e == QUOTE {
            Some(QUOTE)
        } else if e == BACKSLASH {
            Some(BACKSLASH)
        } else if e == 0x62 {
            Some(0x08)
        } else if e == 0x74 {
            Some(0x09)
        } else if e == 0x6e {
            Some(0x0a)
        } else if e == 0x66 {
            Some(0x0c)
        } else if e == 0x72 {
            Some(0x0d)
        } else {
            None
        };
        if let Some(b) = short {
            assert(t@.subrange(i as int, i + 2) =~= escape_byte(b));
            return Some((b, i + 2));
        }
        if e != 0x75 || len - i <= 5 {
            return None;
        }
        if t[i + 2] != 48 || t[i + 3] != 48 {
            return None;
        }
        let h1 = t[i + 4];
        let h2 = t[i + 5];
        let high: u8 = if h1 == 48 {
            0
        } else if h1 == 49 {
            1
        } else {
            return None;
        };
        let low: u8 = if 48 <= h2 && h2 <= 57 {
            h2 - 48
        } else if 97 <= h2 && h2 <= 102 {
            h2 - 87
        } else {
            return None;
        };
        let b = high * 16 + low;
        if b == 0x08 || b == 0x09 || b == 0x0a || b == 0x0c || b == 0x0d {
            return None;
        }
        assert(b / 16 == high && b % 16 == low);
        assert(t@.subrange(i as int, i + 6) =~= escape_byte(b));
        Some((b, i + 6))
    } else if c == QUOTE || c < 0x20 {
        None
    } else {
        assert(t@.subrange(i as int, i + 1) =~= escape_byte(c));
        Some((c, i + 1))
    }
}


/// Calls `String::from_utf8`, which the standard library documents as
/// returning the text of the bytes exactly when they are valid UTF-8.
#[verifier::external_body]
fn string_from_utf8(bytes: Vec<u8>) -> (res: Option<String>)
    ensures
        res is Some <==> valid_utf8(bytes@),
        res matches Some(s) ==> s@ == decode_utf8(bytes@),
{
    String::from_utf8(bytes).ok()
}

/// Reads the JSON string literal that starts at `pos`, as `write_string` writes
/// it, and returns its text with the position after the closing quote.
pub fn read_string(t: &[u8], pos: usize) -> (res: Option<(String, usize)>)
    ensures
        res matches Some((s, end)) ==> pos <= end <= t@.len() && t@.subrange(pos as int, end as int)
            == json_string(s@),
        forall|s: Seq<char>| #[trigger]
            has_at(t@, pos as int, json_string(s)) ==> (res matches Some((r, end)) && r@ == s && end
                == pos + json_string(s).len()),
{
    let len = t.len();
    if pos >= len || t[pos] != QUOTE {
        proof {
            assert forall|s: Seq<char>| #[trigger] has_at(t@, pos as int, json_string(s)) implies false by {
                lemma_has_at(t@, pos as int, json_string(s));
                assert(t@[pos + 0] == json_string(s)[0]);
            }
        }
        return None;
    }
    let mut out: Vec<u8> = Vec::new();
    let mut i = pos + 1;
    proof {
        assert(t@.subrange(pos + 1, i as int) =~= escape_bytes(out@));
    }
    loop
        invariant
            pos < i <= len,
            len == t@.len(),
            t@[pos as int] == QUOTE,
            escape_bytes(out@) == t@.subrange(pos + 1, i as int),
            forall|b: Seq<u8>| #[trigger]
                has_at(t@, pos as int, quoted(b)) ==> out@.len() <= b.len() && out@ == b.take(
                    out@.len() as int,
                ),
        ensures
            i < len,
            t@[i as int] == QUOTE,
        decreases len - i,
    {
        if i >= len {
            proof {
                assert forall|b: Seq<u8>| #[trigger] has_at(t@, pos as int, quoted(b)) implies false by {
                    lemma_quoted_prefix(t@, pos as int, b, out@);
                }
            }
            return None;
        }
        if t[i] == QUOTE {
            break;
        }
        match read_escaped_byte(t, i) {
            None => {
                proof {
                    assert forall|b: Seq<u8>| #[trigger] has_at(t@, pos as int, quoted(b)) implies false by {
                        lemma_quoted_prefix(t@, pos as int, b, out@);
                    }
                }
                return None;
            },
            Some((b, j)) => {
                proof {
                    assert forall|c: Seq<u8>| #[trigger] has_at(t@, pos as int, quoted(c)) implies out@.len()
                        < c.len() && c[out@.len() as int] == b by {
                        lemma_quoted_prefix(t@, pos as int, c, out@);
                    }
                }
                let ghost old_out = out@;
                out.push(b);
                proof {
                    assert(out@.drop_last() =~= old_out);
                    assert(t@.subrange(pos + 1, j as int) =~= t@.subrange(pos + 1, i as int)
                        + t@.subrange(i as int, j as int));
                    assert forall|c: Seq<u8>| #[trigger] has_at(t@, pos as int, quoted(c)) implies out@.len()
                        <= c.len() && out@ == c.take(out@.len() as int) by {
                        assert(out@ =~= c.take(out@.len() as int));
                    }
                }
                i = j;
            },
        }
    }
    let ghost bytes = out@;
    match string_from_utf8(out) {
        None => {
            proof {
                assert forall|s: Seq<char>| #[trigger] has_at(t@, pos as int, json_string(s)) implies false by {
                    lemma_quoted_prefix(t@, pos as int, encode_utf8(s), bytes);
                    assert(bytes =~= encode_utf8(s));
                    encode_utf8_valid_utf8(s);
                }
            }
            None
        },
        Some(s) => {
            proof {
                decode_utf8_encode_utf8(bytes);
                assert(t@.subrange(pos as int, i + 1) =~= quoted(bytes));
                assert forall|r: Seq<char>| #[trigger] has_at(t@, pos as int, json_string(r)) implies s@
                    == r && i + 1 == pos + json_string(r).len() by {
                    let e = encode_utf8(r);
                    lemma_quoted_prefix(t@, pos as int, e, bytes);
                    assert(bytes.len() == e.len());
                    assert(bytes =~= e);
                    encode_utf8_decode_utf8(r);
                }
            }
            Some((s, i + 1))
        },
    }
}

/// When the literal of `b` stands at `pos` and the bytes read so far are a
/// prefix `out` of `b`: either `out` is all of `b` and the closing quote follows,
/// or the escaped text of the next byte of `b` follows.
proof fn lemma_quoted_prefix(t: Seq<u8>, pos: int, b: Seq<u8>, out: Seq<u8>)
    requires
        has_at(t, pos, quoted(b)),
        out.len() <= b.len(),
        out == b.take(out.len() as int),
    ensures
        ({
            let i = pos + 1 + escape_bytes(out).len();
            &&& i < t.len()
            &&& out.len() == b.len() ==> t[i] == QUOTE
            &&& out.len() < b.len() ==> has_at(t, i, escape_byte(b[out.len() as int])) && t[i]
                != QUOTE
        }),
{
    let k = out.len() as int;
    let rest = b.skip(k);
    assert(b =~= out + rest);
    lemma_escape_concat(out, rest);
    let q = quoted(b);
    assert(q =~= seq![QUOTE] + escape_bytes(out) + escape_bytes(rest) + seq![QUOTE]);
    lemma_has_at(t, pos, q);
    let i = pos + 1 + escape_bytes(out).len();
    if k == b.len() {
        assert(rest.len() == 0);
        assert(escape_bytes(rest).len() == 0);
        assert(t[pos + (q.len() - 1)] == q[q.len() - 1]);
    } else {
        let first = seq![b[k]];
        assert(rest =~= first + rest.skip(1));
        lemma_escape_concat(first, rest.skip(1));
        assert(first.drop_last() =~= Seq::<u8>::empty());
        assert(escape_bytes(first.drop_last()) =~= Seq::<u8>::empty());
        assert(first.last() == b[k]);
        assert(escape_bytes(first) =~= escape_byte(b[k]));
        let e = escape_byte(b[k]);
        assert forall|j: int| 0 <= j < e.len() implies #[trigger] t[i + j] == e[j] by {
            assert(t[pos + (1 + escape_bytes(out).len() + j)] == q[1 + escape_bytes(out).len() + j]);
        }
        lemma_has_at(t, i, e);
        assert(t[i + 0] == e[0]);
    }
}


/// The elements after the first one of a JSON array: each behind a comma.
pub open spec fn tail_items(r: Seq<Seq<u8>>) -> Seq<u8>
    decreases r.len(),
{
    if r.len() == 0 {
        seq![]
    } else {
        seq![COMMA] + r[0] + tail_items(r.drop_first())
    }
}

/// The texts of the elements of a JSON array, separated by commas.
pub open spec fn join_items(s: Seq<Seq<u8>>) -> Seq<u8> {
    if s.len() == 0 {
        seq![]
    } else {
        s[0] + tail_items(s.drop_first())
    }
}

/// A JSON array whose elements have the texts `s`.
pub open spec fn json_array(s: Seq<Seq<u8>>) -> Seq<u8> {
    seq![OPEN_BRACKET] + join_items(s) + seq![CLOSE_BRACKET]
}

pub proof fn lemma_tail_push(r: Seq<Seq<u8>>, x: Seq<u8>)
    ensures
        tail_items(r.push(x)) == tail_items(r) + seq![COMMA] + x,
    decreases r.len(),
{
    if r.len() == 0 {
        assert(r.push(x).drop_first() =~= Seq::<Seq<u8>>::empty());
        assert(tail_items(r.push(x).drop_first()) =~= Seq::<u8>::empty());
        assert(tail_items(r) =~= Seq::<u8>::empty());
        assert(r.push(x)[0] == x);
        assert(tail_items(r.push(x)) =~= tail_items(r) + seq![COMMA] + x);
    } else {
        lemma_tail_push(r.drop_first(), x);
        assert(r.push(x).drop_first() =~= r.drop_first().push(x));
        assert(tail_items(r.push(x)) =~= tail_items(r) + seq![COMMA] + x);
    }
}

pub proof fn lemma_join_push(s: Seq<Seq<u8>>, x: Seq<u8>)
    ensures
        join_items(s.push(x)) == if s.len() == 0 {
            x
        } else {
            join_items(s) + seq![COMMA] + x
        },
{
    if s.len() == 0 {
        assert(s.push(x).drop_first() =~= Seq::<Seq<u8>>::empty());
        assert(join_items(s.push(x)) =~= x);
    } else {
        lemma_tail_push(s.drop_first(), x);
        assert(s.push(x).drop_first() =~= s.drop_first().push(x));
        assert(join_items(s.push(x)) =~= join_items(s) + seq![COMMA] + x);
    }
}

/// The text of an array's elements from the `k`-th on, as a reader meets it
/// after the first `k`.
pub open spec fn rest_items(s: Seq<Seq<u8>>, k: int) -> Seq<u8> {
    if k == 0 {
        join_items(s)
    } else {
        tail_items(s.skip(k))
    }
}

pub proof fn lemma_rest_items_step(s: Seq<Seq<u8>>, k: int)
    requires
        0 <= k < s.len(),
    ensures
        rest_items(s, k) == (if k == 0 {
            seq![]
        } else {
            seq![COMMA]
        }) + s[k] + rest_items(s, k + 1),
{
    if k == 0 {
        assert(s.skip(1) =~= s.drop_first());
    } else {
        assert(s.skip(k).drop_first() =~= s.skip(k + 1));
        assert(s.skip(k)[0] == s[k]);
    }
    assert(rest_items(s, k) =~= (if k == 0 {
        seq![]
    } else {
        seq![COMMA]
    }) + s[k] + rest_items(s, k + 1));
}

pub proof fn lemma_rest_items_end(s: Seq<Seq<u8>>)
    ensures
        rest_items(s, s.len() as int) == Seq::<u8>::empty(),
{
    if s.len() > 0 {
        assert(s.skip(s.len() as int) =~= Seq::<Seq<u8>>::empty());
    }
}

/// Reads the single byte `b` at `pos`.
pub fn read_byte(t: &[u8], pos: usize, b: u8) -> (res: bool)
    ensures
        res <==> has_at(t@, pos as int, seq![b]),
        res ==> pos < t@.len(),
        t@.len() <= usize::MAX,
{
    let _len = t.len();
    proof {
        lemma_has_at(t@, pos as int, seq![b]);
    }
    if pos < t.len() && t[pos] == b {
        assert(t@[pos + 0] == b);
        true
    } else {
        proof {
            if has_at(t@, pos as int, seq![b]) {
                assert(t@[pos + 0] == seq![b][0]);
            }
        }
        false
    }
}

pub proof fn lemma_has_at_concat(t: Seq<u8>, pos: int, a: Seq<u8>, b: Seq<u8>)
    ensures
        has_at(t, pos, a + b) <==> has_at(t, pos, a) && has_at(t, pos + a.len(), b),
{
    lemma_has_at(t, pos, a + b);
    lemma_has_at(t, pos, a);
    lemma_has_at(t, pos + a.len(), b);
    if has_at(t, pos, a) && has_at(t, pos + a.len(), b) {
        assert forall|j: int| 0 <= j < (a + b).len() implies #[trigger] t[pos + j] == (a + b)[j] by {
            if j < a.len() {
                assert(t[pos + j] == a[j]);
            } else {
                assert(t[(pos + a.len()) + (j - a.len())] == b[j - a.len()]);
            }
        }
    }
    if has_at(t, pos, a + b) {
        assert forall|j: int| 0 <= j < a.len() implies #[trigger] t[pos + j] == a[j] by {
            assert(t[pos + j] == (a + b)[j]);
        }
        assert forall|j: int| 0 <= j < b.len() implies #[trigger] t[(pos + a.len()) + j] == b[j] by {
            assert(t[pos + (a.len() + j)] == (a + b)[a.len() + j]);
        }
    }
}


/// Reads the JSON string literal of `key` at `pos` and returns the position
/// after it.
pub fn read_key(t: &[u8], pos: usize, key: &str) -> (res: Option<usize>)
    ensures
        res matches Some(end) ==> has_at(t@, pos as int, json_string(key@)) && end == pos + json_string(
            key@,
        ).len(),
        has_at(t@, pos as int, json_string(key@)) ==> res == Some((pos + json_string(key@).len()) as usize),
{
    let k = String::from_str(key);
    match read_string(t, pos) {
        None => None,
        Some((s, end)) => {
            if s == k {
                proof {
                    lemma_has_at(t@, pos as int, json_string(key@));
                    assert forall|j: int| 0 <= j < json_string(key@).len() implies #[trigger] t@[pos + j]
                        == json_string(key@)[j] by {
                        assert(t@[pos + j] == t@.subrange(pos as int, end as int)[j]);
                    }
                }
                Some(end)
            } else {
                None
            }
        },
    }
}

/// Reads the bytes `lit` at `pos`.
pub fn read_literal(t: &[u8], pos: usize, lit: &[u8]) -> (res: bool)
    ensures
        res <==> has_at(t@, pos as int, lit@),
        res ==> pos + lit@.len() <= t@.len(),
        t@.len() <= usize::MAX,
{
    proof {
        lemma_has_at(t@, pos as int, lit@);
    }
    let n = lit.len();
    let len = t.len();
    if pos > len || len - pos < n {
        return false;
    }
    let mut k: usize = 0;
    while k < n
        invariant
            k <= n,
            n == lit@.len(),
            len == t@.len(),
            pos + n <= len,
            forall|j: int| 0 <= j < k ==> #[trigger] t@[pos + j] == lit@[j],
        decreases n - k,
    {
        if t[pos + k] != lit[k] {
            return false;
        }
        k = k + 1;
    }
    true
}

/// The text `null`.
pub open spec fn null_text() -> Seq<u8> {
    seq![0x6eu8, 0x75u8, 0x6cu8, 0x6cu8]
}

/// Appends the text `null`.
pub fn write_null(out: &mut Vec<u8>)
    ensures
        final(out)@ == old(out)@ + null_text(),
{
    out.push(0x6e);
    out.push(0x75);
    out.push(0x6c);
    out.push(0x6c);
    assert(out@ =~= old(out)@ + null_text());
}

/// Reads the text `null` at `pos`.
pub fn read_null(t: &[u8], pos: usize) -> (res: bool)
    ensures
        res <==> has_at(t@, pos as int, null_text()),
        res ==> pos + 4 <= t@.len(),
        t@.len() <= usize::MAX,
{
    let lit: Vec<u8> = vec![0x6e, 0x75, 0x6c, 0x6c];
    assert(lit@ =~= null_text());
    read_literal(t, pos, lit.as_slice())
}

} // verus!
