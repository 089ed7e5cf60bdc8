use vstd::prelude::*;
use crate::json::{Json, JsonValue};
use crate::text::{chars_of, string_from_chars};

verus! {

pub open spec fn is_digit(c: char) -> bool {
    '0' <= c && c <= '9'
}

pub open spec fn digit_value(c: char) -> int {
    (c as int) - ('0' as int)
}

pub open spec fn digit_char(d: int) -> char {
    (d + ('0' as int)) as char
}

/// The value of a run of decimal digits.
pub open spec fn digits_value(d: Seq<char>) -> int
    decreases d.len(),
{
    if d.len() == 0 {
        0
    } else {
        digits_value(d.drop_last()) * 10 + digit_value(d.last())
    }
}

pub open spec fn all_digits(d: Seq<char>) -> bool {
    forall|i: int| 0 <= i < d.len() ==> is_digit(#[trigger] d[i])
}

/// What `str::parse::<i64>` gives: an optional `+` or `-`, then one or more
/// ASCII digits, whose value fits in an `i64`.
pub open spec fn parse_i64(s: Seq<char>) -> Option<int> {
    let neg = s.len() > 0 && s[0] == '-';
    let signed = s.len() > 0 && (s[0] == '-' || s[0] == '+');
    let d = if signed { s.drop_first() } else { s };
    if d.len() == 0 || !all_digits(d) {
        None
    } else {
        let v = if neg { -digits_value(d) } else { digits_value(d) };
        if i64::MIN <= v <= i64::MAX {
            Some(v)
        } else {
            None
        }
    }
}

/// The decimal digits of a natural number, without leading zeros.
pub open spec fn nat_digits(n: nat) -> Seq<char>
    decreases n,
{
    if n < 10 {
        seq![digit_char(n as int)]
    } else {
        nat_digits(n / 10).push(digit_char((n % 10) as int))
    }
}

/// The decimal text of an integer, as `i64`'s `Display` writes it.
pub open spec fn decimal(n: int) -> Seq<char> {
    if n < 0 {
        seq!['-'] + nat_digits((-n) as nat)
    } else {
        nat_digits(n as nat)
    }
}

pub open spec fn true_text() -> Seq<char> {
    seq!['t', 'r', 'u', 'e']
}

pub open spec fn false_text() -> Seq<char> {
    seq!['f', 'a', 'l', 's', 'e']
}

/// One or more ASCII digits.
pub open spec fn is_digits(s: Seq<char>) -> bool {
    s.len() > 0 && all_digits(s)
}

/// The integer part of a JSON number: `0`, or digits without a leading zero.
pub open spec fn json_int_part(s: Seq<char>) -> bool {
    s == seq!['0'] || (is_digits(s) && s[0] != '0')
}

/// The fraction part of a JSON number, which may be absent: `.` and digits.
pub open spec fn json_frac_part(s: Seq<char>) -> bool {
    s.len() == 0 || (s[0] == '.' && is_digits(s.drop_first()))
}

/// The exponent part of a JSON number, which may be absent: `e` or `E`, an
/// optional sign, and digits.
pub open spec fn json_exp_part(s: Seq<char>) -> bool {
    s.len() == 0 || ((s[0] == 'e' || s[0] == 'E') && {
        let t = s.drop_first();
        is_digits(t) || (t.len() > 0 && (t[0] == '+' || t[0] == '-') && is_digits(t.drop_first()))
    })
}

/// Whether a text is, whole, a number by JSON's grammar without its sign:
/// the integer part, then an optional fraction and an optional exponent.
#[verifier::opaque]
pub open spec fn is_unsigned_json_number(u: Seq<char>) -> bool {
    exists|i: int, j: int|
        #![trigger u.subrange(i, j)]
        0 <= i <= j <= u.len() && json_int_part(u.take(i)) && json_frac_part(u.subrange(i, j))
            && json_exp_part(u.skip(j))
}

/// Whether a text is, whole, a number by JSON's grammar: an optional `-`,
/// then the integer part, an optional fraction and an optional exponent.
#[verifier::opaque]
pub open spec fn is_json_number(t: Seq<char>) -> bool {
    if t.len() > 0 && t[0] == '-' {
        is_unsigned_json_number(t.drop_first())
    } else {
        is_unsigned_json_number(t)
    }
}

/// What `serde_json` reads from a whole text as a JSON number
/// (`serde_json::Number`'s `FromStr`), taken by the canonical text that the
/// number's `Display` writes; `None` where the text is no JSON number.
pub uninterp spec fn json_number_text(text: Seq<char>) -> Option<Seq<char>>;

/// `str::parse::<serde_json::Number>`, the number written back as text:
/// named `json_number_text`. Its reader (`parse_any_signed_number` and the
/// functions it calls) takes only a text that is, whole, a number by JSON's
/// grammar; it may still refuse such a text, one whose value is out of
/// range for instance, so the converse is not stated.
#[verifier::external_body]
fn read_json_number(text: &str) -> (r: Option<String>)
    ensures
        match json_number_text(text@) {
            Some(t) => r matches Some(s) && s@ == t,
            None => r is None,
        },
        r is Some ==> is_json_number(text@),
{
    match text.parse::<serde_json::Number>() {
        Ok(n) => Some(n.to_string()),
        Err(_) => None,
    }
}

/// The JSON value that a `.properties` value becomes: a boolean when it
/// reads as one (`str::parse::<bool>`), else an integer when it reads as an
/// `i64`, else a number when it is a JSON number (a decimal or an integer
/// past `i64`) that the JSON reader takes, kept in the reader's canonical
/// text, else the text itself.
pub open spec fn scalar_of(v: Seq<char>) -> Json {
    if v == true_text() {
        Json::Bool(true)
    } else if v == false_text() {
        Json::Bool(false)
    } else {
        match parse_i64(v) {
            Some(n) => Json::Number(decimal(n)),
            None => if is_json_number(v) {
                match json_number_text(v) {
                    Some(t) => Json::Number(t),
                    None => Json::Str(v),
                }
            } else {
                Json::Str(v)
            },
        }
    }
}

proof fn lemma_digits_value_nonneg(d: Seq<char>)
    requires
        all_digits(d),
    ensures
        digits_value(d) >= 0,
    decreases d.len(),
{
    if d.len() > 0 {
        assert(all_digits(d.drop_last())) by {
            assert forall|i: int| 0 <= i < d.drop_last().len() implies is_digit(
                #[trigger] d.drop_last()[i],
            ) by {
                assert(d.drop_last()[i] == d[i]);
            }
        }
        lemma_digits_value_nonneg(d.drop_last());
    }
}

/// A longer run of digits is worth at least as much as any prefix of it.
proof fn lemma_digits_value_prefix(d: Seq<char>, k: int)
    requires
        all_digits(d),
        0 <= k <= d.len(),
    ensures
        digits_value(d.take(k)) <= digits_value(d),
    decreases d.len(),
{
    if k < d.len() {
        assert(all_digits(d.drop_last())) by {
            assert forall|i: int| 0 <= i < d.drop_last().len() implies is_digit(
                #[trigger] d.drop_last()[i],
            ) by {
                assert(d.drop_last()[i] == d[i]);
            }
        }
        lemma_digits_value_prefix(d.drop_last(), k);
        assert(d.drop_last().take(k) =~= d.take(k));
        lemma_digits_value_nonneg(d.drop_last());
        assert(is_digit(d[d.len() - 1]));
    } else {
        assert(d.take(k) =~= d);
    }
}

/// `str::parse::<i64>`, written out.
pub fn parse_i64_text(s: &[char]) -> (r: Option<i64>)
    ensures
        match r {
            Some(n) => parse_i64(s@) == Some(n as int),
            None => parse_i64(s@) is None,
        },
{
    let len = s.len();
    let neg = len > 0 && s[0] == '-';
    let signed = len > 0 && (s[0] == '-' || s[0] == '+');
    let start: usize = if signed { 1 } else { 0 };
    let ghost d = if signed { s@.drop_first() } else { s@ };
    assert(d =~= s@.subrange(start as int, len as int));
    if start == len {
        return None;
    }
    // Check that only digits follow.
    let mut i: usize = start;
    while i < len
        invariant
            start <= i <= len,
            len == s.len(),
            d == s@.subrange(start as int, len as int),
            forall|j: int| start <= j < i ==> is_digit(#[trigger] s@[j]),
            signed == (s@.len() > 0 && (s@[0] == '-' || s@[0] == '+')),
            neg == (s@.len() > 0 && s@[0] == '-'),
            d == (if signed { s@.drop_first() } else { s@ }),

        decreases len - i,
    {
        if !('0' <= s[i] && s[i] <= '9') {
            assert(!is_digit(d[i - start]));
            assert(!all_digits(d));
            return None;
        }
        i = i + 1;
    }
    assert(all_digits(d)) by {
        assert forall|j: int| 0 <= j < d.len() implies is_digit(#[trigger] d[j]) by {
            assert(d[j] == s@[start + j]);
        }
    }
    // Accumulate, stopping once the value passes 2^63.
    let limit: u64 = 0x8000_0000_0000_0000;
    let mut acc: u64 = 0;
    let mut i: usize = start;
    while i < len
        invariant
            start <= i <= len,
            len == s.len(),
            d == s@.subrange(start as int, len as int),
            all_digits(d),
            acc as int == digits_value(d.take(i - start)),
            acc <= limit,
            limit == 0x8000_0000_0000_0000u64,
            signed == (s@.len() > 0 && (s@[0] == '-' || s@[0] == '+')),
            neg == (s@.len() > 0 && s@[0] == '-'),
            d == (if signed { s@.drop_first() } else { s@ }),
        decreases len - i,
    {
        assert(d.take(i - start + 1).drop_last() =~= d.take(i - start));
        assert(d.take(i - start + 1).last() == s@[i as int]);
        assert(is_digit(d[i - start]));
        assert(d[i - start] == s@[i as int]);
        let dv = (s[i] as u64) - ('0' as u64);
        assert(dv <= 9);
        assert(dv == digit_value(d[i - start]));
        if acc > (limit - dv) / 10 {
            proof {
                lemma_digits_value_prefix(d, i - start + 1);
                assert(acc * 10 + dv > limit) by (nonlinear_arith)
                    requires
                        acc > (limit - dv) / 10,
                        dv <= 9,
                ;
                assert(digits_value(d.take(i - start + 1)) == acc * 10 + dv);
                assert(digits_value(d) > limit);
            }
            return None;
        }
        assert(acc * 10 + dv <= limit) by (nonlinear_arith)
            requires
                acc <= (limit - dv) / 10,
                dv <= 9,
        ;
        acc = acc * 10 + dv;
        i = i + 1;
    }
    assert(d.take(len - start) =~= d);
    if neg {
        assert(s@[0] == '-');
        if acc == limit {
            Some(i64::MIN)
        } else {
            Some(-(acc as i64))
        }
    } else {
        if acc == limit {
            None
        } else {
            Some(acc as i64)
        }
    }
}

/// The decimal text of an `i64`.
pub fn decimal_chars(n: i64) -> (r: Vec<char>)
    ensures
        r@ == decimal(n as int),
{
    let mut m: u64 = if n < 0 {
        if n == i64::MIN {
            0x8000_0000_0000_0000u64
        } else {
            (-n) as u64
        }
    } else {
        n as u64
    };
    let ghost mag: nat = if n < 0 { (-n) as nat } else { n as nat };
    assert(m == mag);
    // Digits, least significant first.
    let mut rev: Vec<char> = Vec::new();
    while m >= 10
        invariant
            nat_digits(mag) == nat_digits(m as nat) + rev@.reverse(),
        decreases m,
    {
        let d = m % 10;
        let c = ((d as u8) + ('0' as u8)) as char;
        assert(c == digit_char(d as int)) by {
            assert(d < 10);
        }
        assert(nat_digits(m as nat) == nat_digits((m / 10) as nat).push(c));
        let ghost old_rev = rev@;
        rev.push(c);
        assert(rev@.reverse() =~= seq![c] + old_rev.reverse());
        assert(nat_digits((m / 10) as nat).push(c) + old_rev.reverse() =~= nat_digits(
            (m / 10) as nat,
        ) + rev@.reverse());
        m = m / 10;
    }
    let mut out: Vec<char> = Vec::new();
    if n < 0 {
        out.push('-');
    }
    let c0 = ((m as u8) + ('0' as u8)) as char;
    assert(c0 == digit_char(m as int));
    out.push(c0);
    let ghost prefix = out@;
    assert(prefix == (if n < 0 { seq!['-'] } else { Seq::empty() }) + nat_digits(m as nat));
    let mut k: usize = rev.len();
    while k > 0
        invariant
            k <= rev.len(),
            out@ == prefix + rev@.reverse().take(rev.len() - k),
        decreases k,
    {
        assert(rev@.reverse().take(rev.len() - k + 1) =~= rev@.reverse().take(rev.len() - k).push(
            rev@[k - 1],
        ));
        out.push(rev[k - 1]);
        k = k - 1;
    }
    assert(rev@.reverse().take(rev.len() as int) =~= rev@.reverse());
    if n < 0 {
        assert(out@ =~= seq!['-'] + nat_digits(mag));
    } else {
        assert(out@ =~= nat_digits(mag));
    }
    out
}

/// Types a `.properties` value: `true`/`false` become booleans, text that
/// reads as an `i64` or as a JSON number becomes a number, anything else
/// stays text.
pub fn scalar_value(v: &str) -> (r: JsonValue)
    ensures
        r@ == scalar_of(v@),
{
    let cs = chars_of(v);
    let t: &[char] = &['t', 'r', 'u', 'e'];
    let f: &[char] = &['f', 'a', 'l', 's', 'e'];
    if crate::text::chars_eq(cs.as_slice(), t) {
        JsonValue::Bool(true)
    } else if crate::text::chars_eq(cs.as_slice(), f) {
        JsonValue::Bool(false)
    } else {
        match parse_i64_text(cs.as_slice()) {
            Some(n) => {
                let digits = decimal_chars(n);
                JsonValue::Number(string_from_chars(digits.as_slice()))
            },
            None => match read_json_number(v) {
                Some(t) => JsonValue::Number(t),
                None => JsonValue::Str(v.to_string()),
            },
        }
    }
}

proof fn lemma_nat_digits(m: nat)
    ensures
        nat_digits(m).len() >= 1,
        all_digits(nat_digits(m)),
        digits_value(nat_digits(m)) == m,
    decreases m,
{
    if m < 10 {
        let d = nat_digits(m);
        assert(d.drop_last() =~= Seq::<char>::empty());
        assert(d.last() == digit_char(m as int));
        assert(digit_value(digit_char(m as int)) == m);
        assert(digits_value(d) == digits_value(d.drop_last()) * 10 + digit_value(d.last()));
    } else {
        lemma_nat_digits(m / 10);
        let d = nat_digits(m);
        assert(d.drop_last() =~= nat_digits(m / 10));
        assert(d.last() == digit_char((m % 10) as int));
        assert(digit_value(digit_char((m % 10) as int)) == m % 10);
        assert((m / 10) * 10 + m % 10 == m);
        assert(digits_value(d) == digits_value(nat_digits(m / 10)) * 10 + m % 10);
        assert forall|i: int| 0 <= i < d.len() implies is_digit(#[trigger] d[i]) by {
            if i < d.len() - 1 {
                assert(d[i] == nat_digits(m / 10)[i]);
            }
        }
    }
}

proof fn lemma_nat_digits_lead(m: nat)
    ensures
        m >= 1 ==> nat_digits(m)[0] != '0',
        m == 0 ==> nat_digits(m) == seq!['0'],
    decreases m,
{
    if m >= 10 {
        lemma_nat_digits_lead(m / 10);
        assert(nat_digits(m)[0] == nat_digits(m / 10)[0]) by {
            lemma_nat_digits(m / 10);
        }
    } else if m >= 1 {
        assert(digit_char(m as int) != '0');
    }
}

/// The text of an integer is canonical, as `i64`'s `Display` writes it: a
/// `-` exactly for a negative number, then the digits of its magnitude,
/// with no leading zero but for zero itself; so JSON's grammar takes it as
/// a number.
pub proof fn law_decimal_canonical(n: int)
    ensures
        decimal(n).len() > 0,
        (decimal(n)[0] == '-') == (n < 0),
        ({
            let d = if n < 0 { decimal(n).drop_first() } else { decimal(n) };
            &&& is_digits(d)
            &&& digits_value(d) == (if n < 0 { -n } else { n })
            &&& (d[0] == '0' ==> d == seq!['0'] && n == 0)
        }),
        is_json_number(decimal(n)),
{
    reveal(is_json_number);
    reveal(is_unsigned_json_number);
    let mag: nat = if n < 0 { (-n) as nat } else { n as nat };
    let s = decimal(n);
    let d = nat_digits(mag);
    lemma_nat_digits(mag);
    lemma_nat_digits_lead(mag);
    if n < 0 {
        assert(s.drop_first() =~= d);
    }
    assert(is_digit(d[0]));
    let u = if s.len() > 0 && s[0] == '-' { s.drop_first() } else { s };
    assert(u =~= d);
    assert(json_int_part(u.take(u.len() as int))) by {
        assert(u.take(u.len() as int) =~= u);
    }
    assert(json_frac_part(u.subrange(u.len() as int, u.len() as int)));
    assert(json_exp_part(u.skip(u.len() as int)));
}

/// The decimal text of any `i64` is read back, when it stands as a
/// `.properties` value, as that very number.
pub proof fn law_integer_text_typed(n: int)
    requires
        i64::MIN <= n <= i64::MAX,
    ensures
        parse_i64(decimal(n)) == Some(n),
        scalar_of(decimal(n)) == Json::Number(decimal(n)),
{
    let s = decimal(n);
    if n < 0 {
        lemma_nat_digits((-n) as nat);
        assert(s.drop_first() =~= nat_digits((-n) as nat));
        assert(s[0] == '-');
        assert(s != true_text());
        assert(s != false_text());
    } else {
        lemma_nat_digits(n as nat);
        assert(is_digit(s[0]));
        assert(s[0] != 't' && s[0] != 'f' && s[0] != '-' && s[0] != '+');
        assert(s != true_text());
        assert(s != false_text());
    }
}

/// How any `.properties` value is typed: it is a boolean exactly when it is
/// `true` or `false`; it stays text exactly when it reads neither as an
/// `i64` nor as a JSON number; every other value becomes a number, whose
/// text is the integer's decimal text or else the JSON reader's canonical
/// text.
pub proof fn law_scalar_typing(v: Seq<char>)
    ensures
        scalar_of(v) is Bool <==> (v == true_text() || v == false_text()),
        scalar_of(v) is Str <==> (v != true_text() && v != false_text() && parse_i64(v) is None
            && !(is_json_number(v) && json_number_text(v) is Some)),
        scalar_of(v) is Str ==> scalar_of(v) == Json::Str(v),
        v != true_text() && v != false_text() ==> match parse_i64(v) {
            Some(n) => scalar_of(v) == Json::Number(decimal(n)),
            None => match json_number_text(v) {
                Some(t) => scalar_of(v) == if is_json_number(v) {
                    Json::Number(t)
                } else {
                    Json::Str(v)
                },
                None => scalar_of(v) == Json::Str(v),
            },
        },
{
}

/// A JSON number starts with `-` or a digit.
pub proof fn lemma_json_number_starts(t: Seq<char>)
    requires
        is_json_number(t),
    ensures
        t.len() > 0 && (t[0] == '-' || is_digit(t[0])),
{
    reveal(is_json_number);
    reveal(is_unsigned_json_number);
    let u = if t.len() > 0 && t[0] == '-' {
        t.drop_first()
    } else {
        t
    };
    let (i, j) = choose|i: int, j: int|
        #![trigger u.subrange(i, j)]
        0 <= i <= j <= u.len() && json_int_part(u.take(i)) && json_frac_part(u.subrange(i, j))
            && json_exp_part(u.skip(j));
    assert(u.take(i)[0] == u[0]);
    if !(t.len() > 0 && t[0] == '-') {
        assert(is_digit(u.take(i)[0]));
    }
}

/// A value that is not `true` or `false` and starts with neither a sign nor
/// a digit (an empty value too) stays text.
pub proof fn law_plain_text_stays_text(v: Seq<char>)
    requires
        v != true_text(),
        v != false_text(),
        v.len() == 0 || !(v[0] == '-' || v[0] == '+' || is_digit(v[0])),
    ensures
        scalar_of(v) == Json::Str(v),
{
    if is_json_number(v) {
        lemma_json_number_starts(v);
    }
    if v.len() > 0 {
        assert(!is_digit(v[0]));
    }
}

} // verus!
