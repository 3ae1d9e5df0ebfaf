//! The lexical pieces of a report line: literal text, decimal counters and
//! temperature readings, each recognised through nom.
use vstd::prelude::*;

verus! {

/// `p` starts `s`.
pub open spec fn starts_with(s: Seq<char>, p: Seq<char>) -> bool {
    p.len() <= s.len() && s.take(p.len() as int) == p
}

pub open spec fn is_digit(c: char) -> bool {
    '0' <= c && c <= '9'
}

/// The number of decimal digits at the start of `s`.
pub open spec fn digit_run(s: Seq<char>) -> nat
    decreases s.len(),
{
    if s.len() > 0 && is_digit(s[0]) {
        1 + digit_run(s.skip(1))
    } else {
        0
    }
}

pub open spec fn digit_of(c: char) -> nat {
    ((c as u32) - ('0' as u32)) as nat
}

/// The value of a string of decimal digits, most significant first.
pub open spec fn digits_value(s: Seq<char>) -> nat
    decreases s.len(),
{
    if s.len() == 0 {
        0
    } else {
        digits_value(s.drop_last()) * 10 + digit_of(s.last())
    }
}

/// A counter at the start of `s`: its value and the number of characters it
/// takes. There is none where `s` does not start with a digit, or where the
/// digits spell a number that does not fit in a `u32`.
pub open spec fn count_lexeme(s: Seq<char>) -> Option<(u32, nat)> {
    let k = digit_run(s);
    if k > 0 && digits_value(s.take(k as int)) <= u32::MAX {
        Some((digits_value(s.take(k as int)) as u32, k))
    } else {
        None
    }
}

/// One optional sign character.
pub open spec fn sign_len(s: Seq<char>) -> nat {
    if s.len() > 0 && (s[0] == '+' || s[0] == '-') {
        1
    } else {
        0
    }
}

/// Digits with an optional point and fraction (`12`, `12.`, `12.5`), or a
/// point followed by at least one digit (`.5`).
pub open spec fn mantissa_len(s: Seq<char>) -> Option<nat> {
    let d = digit_run(s);
    if d > 0 {
        if s.len() > d && s[d as int] == '.' {
            Some(d + 1 + digit_run(s.skip(d + 1 as int)))
        } else {
            Some(d)
        }
    } else if s.len() > 0 && s[0] == '.' && digit_run(s.skip(1)) > 0 {
        Some(1 + digit_run(s.skip(1)))
    } else {
        None
    }
}

/// An optional exponent (`e5`, `E-2`). An `e` or `E` that no digits follow
/// is a hard failure: `None`.
pub open spec fn exponent_len(s: Seq<char>) -> Option<nat> {
    if s.len() > 0 && (s[0] == 'e' || s[0] == 'E') {
        let t = s.skip(1);
        let d = digit_run(t.skip(sign_len(t) as int));
        if d > 0 {
            Some(1 + sign_len(t) + d)
        } else {
            None
        }
    } else {
        Some(0)
    }
}

/// The length of the temperature reading at the start of `s`, if there is
/// one: a decimal numeral with an optional sign, fraction and exponent.
pub open spec fn float_len(s: Seq<char>) -> Option<nat> {
    let a = sign_len(s);
    match mantissa_len(s.skip(a as int)) {
        Some(m) => match exponent_len(s.skip((a + m) as int)) {
            Some(e) => Some(a + m + e),
            None => None,
        },
        None => None,
    }
}

/// A character that ends a number: no digit, point or exponent mark.
pub open spec fn ends_number(c: char) -> bool {
    !is_digit(c) && c != '.' && c != 'e' && c != 'E'
}

/// `s` is empty or starts with a character that ends a number.
pub open spec fn stops_number(s: Seq<char>) -> bool {
    s.len() == 0 || ends_number(s[0])
}

pub open spec fn digit_char(d: nat) -> char {
    if d == 0 {
        '0'
    } else if d == 1 {
        '1'
    } else if d == 2 {
        '2'
    } else if d == 3 {
        '3'
    } else if d == 4 {
        '4'
    } else if d == 5 {
        '5'
    } else if d == 6 {
        '6'
    } else if d == 7 {
        '7'
    } else if d == 8 {
        '8'
    } else {
        '9'
    }
}

/// The decimal text of `n`, without leading zeros.
pub open spec fn decimal(n: nat) -> Seq<char>
    decreases n,
{
    if n < 10 {
        seq![digit_char(n)]
    } else {
        decimal(n / 10).push(digit_char(n % 10))
    }
}

pub proof fn lemma_digit_run_bound(s: Seq<char>)
    ensures
        digit_run(s) <= s.len(),
    decreases s.len(),
{
    if s.len() > 0 && is_digit(s[0]) {
        lemma_digit_run_bound(s.skip(1));
    }
}

/// Digits then `b`: the run reaches into `b` only where `a` is all digits.
pub proof fn lemma_digit_run_append(a: Seq<char>, b: Seq<char>)
    ensures
        digit_run(a + b) == if digit_run(a) < a.len() {
            digit_run(a)
        } else {
            a.len() + digit_run(b)
        },
    decreases a.len(),
{
    lemma_digit_run_bound(a);
    if a.len() == 0 {
        assert(a + b =~= b);
    } else {
        assert((a + b)[0] == a[0]);
        if is_digit(a[0]) {
            assert((a + b).skip(1) =~= a.skip(1) + b);
            lemma_digit_run_append(a.skip(1), b);
        }
    }
}

proof fn lemma_digit_char(d: nat)
    requires
        d < 10,
    ensures
        is_digit(digit_char(d)),
        digit_of(digit_char(d)) == d,
        digit_run(seq![digit_char(d)]) == 1,
        digits_value(seq![digit_char(d)]) == d,
{
    let s = seq![digit_char(d)];
    assert(s[0] == digit_char(d) && s.last() == digit_char(d));
    assert(s.skip(1).len() == 0);
    assert(digit_run(s.skip(1)) == 0);
    assert(s.drop_last().len() == 0);
    assert(digits_value(s.drop_last()) == 0);
}

proof fn lemma_decimal(n: nat)
    ensures
        decimal(n).len() > 0,
        digit_run(decimal(n)) == decimal(n).len(),
        digits_value(decimal(n)) == n,
    decreases n,
{
    if n < 10 {
        lemma_digit_char(n);
    } else {
        lemma_digit_char(n % 10);
        lemma_decimal(n / 10);
        let d = decimal(n);
        let c = digit_char(n % 10);
        assert(d.drop_last() =~= decimal(n / 10));
        lemma_digit_run_append(decimal(n / 10), seq![c]);
        assert(d =~= decimal(n / 10) + seq![c]);
        assert(seq![c].skip(1).len() == 0);
        assert(n == (n / 10) * 10 + n % 10);
    }
}

/// The decimal text of a `u32`, followed by text that ends the number, reads
/// back as that `u32`.
pub proof fn lemma_count_lexeme_of_decimal(n: u32, b: Seq<char>)
    requires
        stops_number(b),
    ensures
        count_lexeme(decimal(n as nat) + b) == Some((n, decimal(n as nat).len())),
        (decimal(n as nat) + b).skip(decimal(n as nat).len() as int) == b,
{
    let d = decimal(n as nat);
    lemma_decimal(n as nat);
    lemma_digit_run_append(d, b);
    assert((d + b).take(d.len() as int) =~= d);
    assert((d + b).skip(d.len() as int) =~= b);
}

/// A whole reading, followed by text that ends the number, reads back as
/// that reading.
#[verifier::rlimit(60)]
pub proof fn lemma_float_len_append(t: Seq<char>, b: Seq<char>)
    requires
        float_len(t) == Some(t.len()),
        stops_number(b),
    ensures
        float_len(t + b) == Some(t.len()),
{
    let s = t + b;
    let a = sign_len(t);
    assert(t.len() > 0);
    assert(sign_len(s) == a);
    let tm = t.skip(a as int);
    let sm = s.skip(a as int);
    assert(sm =~= tm + b);
    lemma_digit_run_append(tm, b);
    lemma_digit_run_bound(tm);
    let d = digit_run(tm);
    if d > 0 {
        if tm.len() > d && tm[d as int] == '.' {
            assert(sm.skip(d + 1 as int) =~= tm.skip(d + 1 as int) + b);
            lemma_digit_run_append(tm.skip(d + 1 as int), b);
            lemma_digit_run_bound(tm.skip(d + 1 as int));
        }
    } else if tm.len() > 0 && tm[0] == '.' {
        assert(sm.skip(1) =~= tm.skip(1) + b);
        lemma_digit_run_append(tm.skip(1), b);
        lemma_digit_run_bound(tm.skip(1));
    }
    assert(mantissa_len(sm) == mantissa_len(tm));
    if let Some(m) = mantissa_len(tm) {
        let te = t.skip((a + m) as int);
        let se = s.skip((a + m) as int);
        assert(se =~= te + b);
        if te.len() > 0 && (te[0] == 'e' || te[0] == 'E') {
            let tx = te.skip(1);
            let sx = se.skip(1);
            assert(sx =~= tx + b);
            assert(sign_len(tx) == sign_len(sx));
            assert(sx.skip(sign_len(tx) as int) =~= tx.skip(sign_len(tx) as int) + b);
            lemma_digit_run_append(tx.skip(sign_len(tx) as int), b);
            lemma_digit_run_bound(tx.skip(sign_len(tx) as int));
        }
        assert(exponent_len(se) == exponent_len(te));
    }
}

pub proof fn lemma_float_len_bound(s: Seq<char>)
    ensures
        float_len(s) matches Some(k) ==> k <= s.len(),
{
    let a = sign_len(s);
    let sm = s.skip(a as int);
    let d = digit_run(sm);
    lemma_digit_run_bound(sm);
    lemma_digit_run_bound(sm.skip(1));
    lemma_digit_run_bound(sm.skip(d + 1 as int));
    if let Some(m) = mantissa_len(sm) {
        let se = s.skip((a + m) as int);
        let sx = se.skip(1);
        lemma_digit_run_bound(sx.skip(sign_len(sx) as int));
    }
}

/// The text of a recognised reading is, alone, a whole reading.
#[verifier::rlimit(60)]
pub proof fn lemma_float_len_take(s: Seq<char>)
    requires
        float_len(s) is Some,
    ensures
        float_len(s.take(float_len(s)->0 as int)) == float_len(s),
{
    let k = float_len(s)->0;
    lemma_float_len_bound(s);
    let t = s.take(k as int);
    let b = s.skip(k as int);
    assert(s =~= t + b);
    let a = sign_len(s);
    assert(t.len() > 0);
    assert(sign_len(t) == a);
    let tm = t.skip(a as int);
    let sm = s.skip(a as int);
    assert(sm =~= tm + b);
    lemma_digit_run_append(tm, b);
    lemma_digit_run_bound(tm);
    lemma_digit_run_bound(sm);
    let d = digit_run(tm);
    if digit_run(sm) > 0 {
        if sm.len() > digit_run(sm) && sm[digit_run(sm) as int] == '.' {
            let e = digit_run(sm) + 1;
            assert(sm.skip(e as int) =~= tm.skip(e as int) + b);
            lemma_digit_run_append(tm.skip(e as int), b);
            lemma_digit_run_bound(tm.skip(e as int));
            lemma_digit_run_bound(sm.skip(e as int));
        }
    } else if sm.len() > 0 && sm[0] == '.' {
        assert(sm.skip(1) =~= tm.skip(1) + b);
        lemma_digit_run_append(tm.skip(1), b);
        lemma_digit_run_bound(tm.skip(1));
        lemma_digit_run_bound(sm.skip(1));
    }
    if let Some(m) = mantissa_len(sm) {
        assert(mantissa_len(tm) == Some(m));
        let te = t.skip((a + m) as int);
        let se = s.skip((a + m) as int);
        assert(se =~= te + b);
        if se.len() > 0 && (se[0] == 'e' || se[0] == 'E') {
            let tx = te.skip(1);
            let sx = se.skip(1);
            assert(sx =~= tx + b);
            assert(sign_len(tx) == sign_len(sx));
            assert(sx.skip(sign_len(tx) as int) =~= tx.skip(sign_len(tx) as int) + b);
            lemma_digit_run_append(tx.skip(sign_len(tx) as int), b);
            lemma_digit_run_bound(tx.skip(sign_len(tx) as int));
            lemma_digit_run_bound(sx.skip(sign_len(sx) as int));
        }
        assert(exponent_len(te) == exponent_len(se));
    } else {
        assert(mantissa_len(tm) is None);
    }
}

/// A character that can stand in a reading.
pub open spec fn reading_char(c: char) -> bool {
    is_digit(c) || c == '+' || c == '-' || c == '.' || c == 'e' || c == 'E'
}

pub proof fn lemma_digit_run_chars(s: Seq<char>)
    ensures
        forall|j: int| 0 <= j < digit_run(s) ==> is_digit(#[trigger] s[j]),
    decreases s.len(),
{
    lemma_digit_run_bound(s);
    if s.len() > 0 && is_digit(s[0]) {
        lemma_digit_run_chars(s.skip(1));
        assert forall|j: int| 0 <= j < digit_run(s) implies is_digit(#[trigger] s[j]) by {
            if j > 0 {
                assert(s[j] == s.skip(1)[j - 1]);
            }
        }
    }
}

/// A whole reading is made of reading characters only.
pub proof fn lemma_reading_chars(t: Seq<char>)
    requires
        float_len(t) == Some(t.len()),
    ensures
        forall|j: int| 0 <= j < t.len() ==> reading_char(#[trigger] t[j]),
{
    let a = sign_len(t);
    let tm = t.skip(a as int);
    let d = digit_run(tm);
    lemma_digit_run_chars(tm);
    lemma_digit_run_chars(tm.skip(1));
    lemma_digit_run_chars(tm.skip(d + 1 as int));
    lemma_digit_run_bound(tm);
    if let Some(m) = mantissa_len(tm) {
        let te = t.skip((a + m) as int);
        let tx = te.skip(1);
        lemma_digit_run_chars(tx.skip(sign_len(tx) as int));
        assert forall|j: int| 0 <= j < t.len() implies reading_char(#[trigger] t[j]) by {
            if j < a {
            } else if j < a + m {
                assert(t[j] == tm[j - a]);
                if d > 0 {
                    if j - a > d {
                        assert(tm[j - a] == tm.skip(d + 1 as int)[j - a - d - 1]);
                    }
                } else {
                    if j - a > 0 {
                        assert(tm[j - a] == tm.skip(1)[j - a - 1]);
                    }
                }
            } else {
                assert(t[j] == te[j - a - m]);
                if j - a - m > 0 {
                    assert(te[j - a - m] == tx[j - a - m - 1]);
                    if j - a - m - 1 >= sign_len(tx) {
                        assert(tx[j - a - m - 1] == tx.skip(sign_len(tx) as int)[j - a - m - 1
                            - sign_len(tx)]);
                    }
                }
            }
        }
    }
}

/// Relies on nom's `bytes::complete::tag`: it succeeds exactly when `lit`
/// starts the input, and hands back what follows it.
#[verifier::external_body]
pub(crate) fn take_literal<'a>(input: &'a str, lit: &str) -> (r: Option<&'a str>)
    ensures
        r is Some <==> starts_with(input@, lit@),
        r matches Some(rest) ==> rest@ == input@.skip(lit@.len() as int),
{
    match nom::bytes::complete::tag::<&str, &str, nom::error::Error<&str>>(lit)(input) {
        Ok((rest, _)) => Some(rest),
        Err(_) => None,
    }
}

/// Relies on nom's `character::complete::u32`: it reads the decimal digits
/// at the start of the input and fails where there are none or where their
/// value overflows a `u32`.
#[verifier::external_body]
pub(crate) fn take_count<'a>(input: &'a str) -> (r: Option<(&'a str, u32)>)
    ensures
        r is Some <==> count_lexeme(input@) is Some,
        r matches Some((rest, v)) ==> (count_lexeme(input@) matches Some((n, k)) && v == n
            && rest@ == input@.skip(k as int)),
{
    match nom::character::complete::u32::<&str, nom::error::Error<&str>>(input) {
        Ok((rest, v)) => Some((rest, v)),
        Err(_) => None,
    }
}

/// Relies on nom's `number::complete::recognize_float`: it hands back the
/// text of the decimal numeral at the start of the input and what follows
/// it, and fails where there is none or where an exponent mark has no digits.
#[verifier::external_body]
pub(crate) fn take_float_text<'a>(input: &'a str) -> (r: Option<(&'a str, &'a str)>)
    ensures
        r is Some <==> float_len(input@) is Some,
        r matches Some((rest, text)) ==> (float_len(input@) matches Some(n) && text@ == input@.take(
            n as int) && rest@ == input@.skip(n as int)),
{
    match nom::number::complete::recognize_float::<&str, nom::error::Error<&str>>(input) {
        Ok((rest, text)) => Some((rest, text)),
        Err(_) => None,
    }
}

} // verus!
