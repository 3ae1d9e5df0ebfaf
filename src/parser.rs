//! The report line's grammar and its decoder.
use vstd::prelude::*;
use crate::lexeme::{
    count_lexeme, decimal, ends_number, float_len, is_digit, lemma_count_lexeme_of_decimal,
    lemma_digit_run_append, lemma_digit_run_bound, lemma_digit_run_chars, lemma_float_len_append,
    lemma_float_len_bound,
    lemma_float_len_take, lemma_reading_chars, reading_char, starts_with, stops_number,
    take_count, take_float_text, take_literal,
};
use crate::snapshot::{Temperature, Tegrastats};

verus! {

/// One step of the grammar.
#[derive(Clone, Copy, PartialEq, Eq, Debug)]
pub enum Piece {
    /// This exact text.
    Literal(&'static str),
    /// A decimal counter that fits in a `u32`.
    Count,
    /// A temperature reading.
    Reading,
}

/// The report line, left to right. What follows the last piece is not read.
#[verifier::opaque]
pub open spec fn grammar() -> Seq<Piece> {
    seq![
        Piece::Literal("RAM "), Piece::Count, Piece::Literal("/"), Piece::Count,
        Piece::Literal("MB (lfb "), Piece::Count, Piece::Literal("x"), Piece::Count,
        Piece::Literal("MB) SWAP "), Piece::Count, Piece::Literal("/"), Piece::Count,
        Piece::Literal("MB (cached "), Piece::Count, Piece::Literal("MB) CPU ["),
        Piece::Count, Piece::Literal("%@"), Piece::Count, Piece::Literal(","),
        Piece::Count, Piece::Literal("%@"), Piece::Count, Piece::Literal(","),
        Piece::Count, Piece::Literal("%@"), Piece::Count, Piece::Literal(","),
        Piece::Count, Piece::Literal("%@"), Piece::Count, Piece::Literal("] EMC_FREQ "),
        Piece::Count, Piece::Literal("% GR3D_FREQ "), Piece::Count, Piece::Literal("% PLL@"),
        Piece::Reading, Piece::Literal("C CPU@"), Piece::Reading, Piece::Literal("C PMIC@"),
        Piece::Reading, Piece::Literal("C GPU@"), Piece::Reading, Piece::Literal("C AO@"),
        Piece::Reading, Piece::Literal("C thermal@"), Piece::Reading, Piece::Literal("C"),
    ]
}

fn grammar_pieces() -> (r: Vec<Piece>)
    ensures
        r@ == grammar(),
{
    let r = vec![
        Piece::Literal("RAM "), Piece::Count, Piece::Literal("/"), Piece::Count,
        Piece::Literal("MB (lfb "), Piece::Count, Piece::Literal("x"), Piece::Count,
        Piece::Literal("MB) SWAP "), Piece::Count, Piece::Literal("/"), Piece::Count,
        Piece::Literal("MB (cached "), Piece::Count, Piece::Literal("MB) CPU ["),
        Piece::Count, Piece::Literal("%@"), Piece::Count, Piece::Literal(","),
        Piece::Count, Piece::Literal("%@"), Piece::Count, Piece::Literal(","),
        Piece::Count, Piece::Literal("%@"), Piece::Count, Piece::Literal(","),
        Piece::Count, Piece::Literal("%@"), Piece::Count, Piece::Literal("] EMC_FREQ "),
        Piece::Count, Piece::Literal("% GR3D_FREQ "), Piece::Count, Piece::Literal("% PLL@"),
        Piece::Reading, Piece::Literal("C CPU@"), Piece::Reading, Piece::Literal("C PMIC@"),
        Piece::Reading, Piece::Literal("C GPU@"), Piece::Reading, Piece::Literal("C AO@"),
        Piece::Reading, Piece::Literal("C thermal@"), Piece::Reading, Piece::Literal("C"),
    ];
    proof {
        reveal(grammar);
    }
    assert(r@ =~= grammar());
    r
}

/// What the decoder was looking for where the line stopped matching.
#[derive(Clone, Copy, PartialEq, Eq, Debug)]
pub enum Expected {
    Literal,
    Count,
    Reading,
}

/// Why a line did not decode: the grammar step (an index into `grammar()`)
/// that failed, and what that step wanted.
#[derive(Clone, Copy, PartialEq, Eq, Debug)]
pub struct ParseError {
    pub step: usize,
    pub expected: Expected,
}

/// The fields read so far, and the text not yet read.
pub struct Decoded {
    pub counts: Seq<u32>,
    pub temps: Seq<Seq<char>>,
    pub rest: Seq<char>,
}

/// Fields read before `r`, put in front of what `r` read.
pub open spec fn prepend(
    counts: Seq<u32>,
    temps: Seq<Seq<char>>,
    r: Result<Decoded, (nat, Expected)>,
) -> Result<Decoded, (nat, Expected)> {
    match r {
        Ok(d) => Ok(Decoded { counts: counts + d.counts, temps: temps + d.temps, rest: d.rest }),
        Err(e) => Err(e),
    }
}

/// Decoding `s` against the grammar from step `i` on. The first step that
/// does not match ends it with that step's index.
pub open spec fn decode_from(s: Seq<char>, i: nat) -> Result<Decoded, (nat, Expected)>
    decreases grammar().len() - i,
{
    if i >= grammar().len() {
        Ok(Decoded { counts: seq![], temps: seq![], rest: s })
    } else {
        match grammar()[i as int] {
            Piece::Literal(t) => if starts_with(s, t@) {
                decode_from(s.skip(t@.len() as int), i + 1)
            } else {
                Err((i, Expected::Literal))
            },
            Piece::Count => match count_lexeme(s) {
                Some((v, k)) => prepend(seq![v], seq![], decode_from(s.skip(k as int), i + 1)),
                None => Err((i, Expected::Count)),
            },
            Piece::Reading => match float_len(s) {
                Some(k) => prepend(
                    seq![],
                    seq![s.take(k as int)],
                    decode_from(s.skip(k as int), i + 1),
                ),
                None => Err((i, Expected::Reading)),
            },
        }
    }
}

/// Decoding a whole line.
pub open spec fn decode_line(s: Seq<char>) -> Result<Decoded, (nat, Expected)> {
    decode_from(s, 0)
}

pub open spec fn counts_from(i: nat) -> nat
    decreases grammar().len() - i,
{
    if i >= grammar().len() {
        0
    } else {
        (if grammar()[i as int] is Count { 1nat } else { 0nat }) + counts_from(i + 1)
    }
}

pub open spec fn readings_from(i: nat) -> nat
    decreases grammar().len() - i,
{
    if i >= grammar().len() {
        0
    } else {
        (if grammar()[i as int] is Reading { 1nat } else { 0nat }) + readings_from(i + 1)
    }
}

proof fn lemma_decoded_lengths(s: Seq<char>, i: nat)
    ensures
        decode_from(s, i) matches Ok(d) ==> d.counts.len() == counts_from(i)
            && d.temps.len() == readings_from(i),
    decreases grammar().len() - i,
{
    if i < grammar().len() {
        match grammar()[i as int] {
            Piece::Literal(t) => lemma_decoded_lengths(s.skip(t@.len() as int), i + 1),
            Piece::Count => if let Some((v, k)) = count_lexeme(s) {
                lemma_decoded_lengths(s.skip(k as int), i + 1);
            },
            Piece::Reading => if let Some(k) = float_len(s) {
                lemma_decoded_lengths(s.skip(k as int), i + 1);
            },
        }
    }
}

proof fn lemma_grammar_fields()
    ensures
        counts_from(0) == 17,
        readings_from(0) == 6,
{
    reveal(grammar);
    reveal_with_fuel(counts_from, 48);
    reveal_with_fuel(readings_from, 48);
}

proof fn lemma_prepend_prepend(
    c1: Seq<u32>,
    t1: Seq<Seq<char>>,
    c2: Seq<u32>,
    t2: Seq<Seq<char>>,
    r: Result<Decoded, (nat, Expected)>,
)
    ensures
        prepend(c1, t1, prepend(c2, t2, r)) == prepend(c1 + c2, t1 + t2, r),
{
    if let Ok(d) = r {
        assert(c1 + (c2 + d.counts) =~= (c1 + c2) + d.counts);
        assert(t1 + (t2 + d.temps) =~= (t1 + t2) + d.temps);
    }
}

/// The line written from counters `c` and readings `t` with the grammar's
/// own text, from step `i` on.
pub open spec fn render_from(c: Seq<u32>, t: Seq<Seq<char>>, i: nat) -> Seq<char>
    decreases grammar().len() - i,
{
    if i >= grammar().len() {
        seq![]
    } else {
        match grammar()[i as int] {
            Piece::Literal(x) => x@ + render_from(c, t, i + 1),
            Piece::Count => decimal(c[0] as nat) + render_from(c.skip(1), t, i + 1),
            Piece::Reading => t[0] + render_from(c, t.skip(1), i + 1),
        }
    }
}

/// The line that reports `t`.
pub open spec fn render_line(t: Tegrastats) -> Seq<char> {
    render_from(t.counts(), t.temps(), 0)
}

/// Every number in the grammar is followed by text that starts with a
/// character that ends it.
proof fn lemma_numbers_are_closed(i: nat)
    requires
        i < grammar().len(),
        !(grammar()[i as int] is Literal),
    ensures
        i + 1 < grammar().len(),
        grammar()[i + 1 as int] matches Piece::Literal(x) && x@.len() > 0 && ends_number(x@[0])
            && !is_digit(x@[0]) && (grammar()[i as int] is Reading ==> x@[0] == 'C'),
{
    reveal(grammar);
    reveal_strlit("/");
    reveal_strlit("MB (lfb ");
    reveal_strlit("x");
    reveal_strlit("MB) SWAP ");
    reveal_strlit("MB (cached ");
    reveal_strlit("MB) CPU [");
    reveal_strlit("%@");
    reveal_strlit(",");
    reveal_strlit("] EMC_FREQ ");
    reveal_strlit("% GR3D_FREQ ");
    reveal_strlit("% PLL@");
    reveal_strlit("C CPU@");
    reveal_strlit("C PMIC@");
    reveal_strlit("C GPU@");
    reveal_strlit("C AO@");
    reveal_strlit("C thermal@");
    reveal_strlit("C");
}

proof fn lemma_literal_step(
    x: &'static str,
    c: Seq<u32>,
    t: Seq<Seq<char>>,
    i: nat,
    r: Seq<char>,
    tail: Seq<char>,
)
    requires
        i < grammar().len(),
        grammar()[i as int] == Piece::Literal(x),
        decode_from(r + tail, i + 1) == Ok::<Decoded, (nat, Expected)>(
            Decoded { counts: c, temps: t, rest: tail },
        ),
    ensures
        decode_from(x@ + r + tail, i) == Ok::<Decoded, (nat, Expected)>(
            Decoded { counts: c, temps: t, rest: tail },
        ),
{
    assert(x@ + r + tail =~= x@ + (r + tail));
    assert((x@ + (r + tail)).take(x@.len() as int) =~= x@);
    assert((x@ + (r + tail)).skip(x@.len() as int) =~= r + tail);
}

proof fn lemma_count_step(c: Seq<u32>, t: Seq<Seq<char>>, i: nat, r: Seq<char>, tail: Seq<char>)
    requires
        i < grammar().len(),
        grammar()[i as int] == Piece::Count,
        c.len() > 0,
        stops_number(r + tail),
        decode_from(r + tail, i + 1) == Ok::<Decoded, (nat, Expected)>(
            Decoded { counts: c.skip(1), temps: t, rest: tail },
        ),
    ensures
        decode_from(decimal(c[0] as nat) + r + tail, i) == Ok::<Decoded, (nat, Expected)>(
            Decoded { counts: c, temps: t, rest: tail },
        ),
{
    let d = decimal(c[0] as nat);
    lemma_count_lexeme_of_decimal(c[0], r + tail);
    assert(d + r + tail =~= d + (r + tail));
    assert(seq![c[0]] + c.skip(1) =~= c);
    assert(Seq::<Seq<char>>::empty() + t =~= t);
}

#[verifier::rlimit(40)]
proof fn lemma_reading_step(c: Seq<u32>, t: Seq<Seq<char>>, i: nat, r: Seq<char>, tail: Seq<char>)
    requires
        i < grammar().len(),
        grammar()[i as int] == Piece::Reading,
        t.len() > 0,
        float_len(t[0]) == Some(t[0].len()),
        stops_number(r + tail),
        decode_from(r + tail, i + 1) == Ok::<Decoded, (nat, Expected)>(
            Decoded { counts: c, temps: t.skip(1), rest: tail },
        ),
    ensures
        decode_from(t[0] + r + tail, i) == Ok::<Decoded, (nat, Expected)>(
            Decoded { counts: c, temps: t, rest: tail },
        ),
{
    lemma_float_len_append(t[0], r + tail);
    assert(t[0] + r + tail =~= t[0] + (r + tail));
    assert((t[0] + (r + tail)).take(t[0].len() as int) =~= t[0]);
    assert((t[0] + (r + tail)).skip(t[0].len() as int) =~= r + tail);
    assert(seq![t[0]] + t.skip(1) =~= t);
    assert(Seq::<u32>::empty() + c =~= c);
}

proof fn lemma_round_trip_from(c: Seq<u32>, t: Seq<Seq<char>>, i: nat, tail: Seq<char>)
    requires
        i <= grammar().len(),
        c.len() == counts_from(i),
        t.len() == readings_from(i),
        forall|j: int| 0 <= j < t.len() ==> float_len(#[trigger] t[j]) == Some(t[j].len()),
    ensures
        decode_from(render_from(c, t, i) + tail, i) == Ok::<Decoded, (nat, Expected)>(
            Decoded { counts: c, temps: t, rest: tail },
        ),
    decreases grammar().len() - i,
{
    if i == grammar().len() {
        assert(c =~= seq![] && t =~= seq![]);
        assert(render_from(c, t, i) + tail =~= tail);
    } else {
        match grammar()[i as int] {
            Piece::Literal(x) => {
                lemma_round_trip_from(c, t, i + 1, tail);
                lemma_literal_step(x, c, t, i, render_from(c, t, i + 1), tail);
            },
            Piece::Count => {
                lemma_numbers_are_closed(i);
                lemma_round_trip_from(c.skip(1), t, i + 1, tail);
                lemma_count_step(c, t, i, render_from(c.skip(1), t, i + 1), tail);
            },
            Piece::Reading => {
                lemma_numbers_are_closed(i);
                assert forall|j: int| 0 <= j < t.skip(1).len() implies float_len(
                    #[trigger] t.skip(1)[j],
                ) == Some(t.skip(1)[j].len()) by {
                    assert(t.skip(1)[j] == t[j + 1]);
                }
                lemma_round_trip_from(c, t.skip(1), i + 1, tail);
                lemma_reading_step(c, t, i, render_from(c, t.skip(1), i + 1), tail);
            },
        }
    }
}

/// A line written from a well-formed report with the grammar's own text
/// decodes back to that report, field by field, whatever text follows it.
pub proof fn lemma_round_trip(t: Tegrastats, tail: Seq<char>)
    requires
        t.wf(),
    ensures
        decode_line(render_line(t) + tail) == Ok::<Decoded, (nat, Expected)>(
            Decoded { counts: t.counts(), temps: t.temps(), rest: tail },
        ),
{
    lemma_grammar_fields();
    assert forall|j: int| 0 <= j < t.temps().len() implies float_len(#[trigger] t.temps()[j])
        == Some(t.temps()[j].len()) by {
        if j == 0 {} else if j == 1 {} else if j == 2 {} else if j == 3 {} else if j == 4 {} else {}
    }
    lemma_round_trip_from(t.counts(), t.temps(), 0, tail);
}

/// An empty line fails at the first step, which wants the text `RAM `.
pub proof fn lemma_empty_line_fails()
    ensures
        decode_line(Seq::<char>::empty()) == Err::<Decoded, (nat, Expected)>(
            (0nat, Expected::Literal),
        ),
{
    reveal(grammar);
    reveal_strlit("RAM ");
}

/// Where a step wants a counter and the text left does not start with a
/// digit, decoding fails at that step.
pub proof fn lemma_non_numeric_counter_fails(s: Seq<char>, i: nat)
    requires
        i < grammar().len(),
        grammar()[i as int] is Count,
        s.len() == 0 || !is_digit(s[0]),
    ensures
        decode_from(s, i) == Err::<Decoded, (nat, Expected)>((i, Expected::Count)),
{
}

/// Where a step wants a reading and the text left does not start with a
/// digit, a sign or a point, decoding fails at that step: words such as
/// `nan` or `inf` are no reading.
pub proof fn lemma_non_numeric_reading_fails(s: Seq<char>, i: nat)
    requires
        i < grammar().len(),
        grammar()[i as int] is Reading,
        s.len() == 0 || !(is_digit(s[0]) || s[0] == '+' || s[0] == '-' || s[0] == '.'),
    ensures
        decode_from(s, i) == Err::<Decoded, (nat, Expected)>((i, Expected::Reading)),
{
    assert(s.skip(0) =~= s);
}

/// Text `rest` that is empty, or starts with a character other than the
/// first of the literal at step `i`, fails there.
proof fn lemma_literal_refused(rest: Seq<char>, i: nat, x: &'static str)
    requires
        i < grammar().len(),
        grammar()[i as int] == Piece::Literal(x),
        x@.len() > 0,
        rest.len() == 0 || rest[0] != x@[0],
    ensures
        decode_from(rest, i) is Err,
{
    if rest.len() >= x@.len() {
        assert(rest.take(x@.len() as int)[0] == rest[0]);
    }
}

/// A line written from a well-formed report and cut short anywhere before
/// its end does not decode.
pub proof fn lemma_truncated_line_fails(t: Tegrastats, k: nat)
    requires
        t.wf(),
        k < render_line(t).len(),
    ensures
        decode_line(render_line(t).take(k as int)) is Err,
{
    let w = render_line(t);
    lemma_round_trip(t, Seq::<char>::empty());
    assert(w + Seq::<char>::empty() =~= w);
    lemma_cut_line_fails(w, k);
}

/// How much of `s` the counter at its start takes.
pub open spec fn counter_len(s: Seq<char>) -> nat {
    match count_lexeme(s) {
        Some((_, k)) => k,
        None => 0,
    }
}

proof fn lemma_rest_within(s: Seq<char>, i: nat)
    ensures
        decode_from(s, i) matches Ok(d) ==> d.rest.len() <= s.len(),
    decreases grammar().len() - i,
{
    if i < grammar().len() {
        match grammar()[i as int] {
            Piece::Literal(x) => lemma_rest_within(s.skip(x@.len() as int), i + 1),
            Piece::Count => if let Some((v, k)) = count_lexeme(s) {
                lemma_digit_run_bound(s);
                lemma_rest_within(s.skip(k as int), i + 1);
            },
            Piece::Reading => if let Some(k) = float_len(s) {
                lemma_float_len_bound(s);
                lemma_rest_within(s.skip(k as int), i + 1);
            },
        }
    }
}

/// Where the step after a number is a literal that `w` matches, `w` has the
/// literal's first character right after the number.
proof fn lemma_next_char(w: Seq<char>, i: nat)
    requires
        i < grammar().len(),
        !(grammar()[i as int] is Literal),
        decode_from(w, i) is Ok,
    ensures
        grammar()[i + 1 as int] matches Piece::Literal(x) && x@.len() > 0 && (
        match grammar()[i as int] {
            Piece::Count => count_lexeme(w) matches Some((v, k)) && k < w.len() && w[k as int]
                == x@[0],
            _ => float_len(w) matches Some(k) && k < w.len() && w[k as int] == x@[0],
        }),
{
    lemma_numbers_are_closed(i);
    if let Piece::Literal(x) = grammar()[i + 1 as int] {
        let k: nat = if grammar()[i as int] is Count {
            counter_len(w)
        } else {
            float_len(w)->0
        };
        lemma_digit_run_bound(w);
        lemma_float_len_bound(w);
        if grammar()[i as int] is Count {
            assert(count_lexeme(w) is Some);
        } else {
            assert(float_len(w) is Some);
        }
        let w2 = w.skip(k as int);
        assert(decode_from(w2, i + 1) is Ok);
        assert(starts_with(w2, x@));
        assert(w2.take(x@.len() as int)[0] == w2[0]);
        assert(w2[0] == w[k as int]);
    }
}

proof fn lemma_cut_fails_from(w: Seq<char>, i: nat, p: Seq<char>)
    requires
        i <= grammar().len(),
        decode_from(w, i) is Ok,
        p.len() < w.len() - decode_from(w, i)->Ok_0.rest.len(),
        p == w.take(p.len() as int),
    ensures
        decode_from(p, i) is Err,
    decreases grammar().len() - i,
{
    lemma_rest_within(w, i);
    if i < grammar().len() {
        match grammar()[i as int] {
            Piece::Literal(x) => {
                if p.len() >= x@.len() {
                    assert(p.take(x@.len() as int) =~= w.take(x@.len() as int));
                    assert(p.skip(x@.len() as int) =~= w.skip(x@.len() as int).take(
                        p.len() - x@.len(),
                    ));
                    lemma_cut_fails_from(w.skip(x@.len() as int), i + 1, p.skip(x@.len() as int));
                }
            },
            Piece::Count => {
                lemma_next_char(w, i);
                lemma_numbers_are_closed(i);
                let k = counter_len(w);
                let w2 = w.skip(k as int);
                lemma_digit_run_chars(w);
                lemma_digit_run_bound(w);
                lemma_rest_within(w2, i + 1);
                if let Piece::Literal(x) = grammar()[i + 1 as int] {
                    if p.len() <= k {
                        if let Some((v, k2)) = count_lexeme(p) {
                            lemma_digit_run_bound(p);
                            let rest = p.skip(k2 as int);
                            if rest.len() > 0 {
                                assert(rest[0] == w[k2 as int]);
                            }
                            lemma_literal_refused(rest, i + 1, x);
                        }
                    } else {
                        let t = w.take(k as int);
                        let q = p.skip(k as int);
                        assert(w =~= t + w2);
                        assert(p =~= t + q);
                        lemma_digit_run_append(t, w2);
                        lemma_digit_run_bound(t);
                        lemma_digit_run_append(t, q);
                        assert(q[0] == w[k as int]);
                        assert(p.take(k as int) =~= t);
                        assert(w.take(k as int) =~= t);
                        assert(q =~= w2.take(q.len() as int));
                        lemma_cut_fails_from(w2, i + 1, q);
                    }
                }
            },
            Piece::Reading => {
                lemma_next_char(w, i);
                lemma_numbers_are_closed(i);
                let k = float_len(w)->0;
                lemma_float_len_bound(w);
                lemma_float_len_take(w);
                let t = w.take(k as int);
                lemma_reading_chars(t);
                let w2 = w.skip(k as int);
                lemma_rest_within(w2, i + 1);
                if let Piece::Literal(x) = grammar()[i + 1 as int] {
                    if p.len() <= k {
                        if let Some(k2) = float_len(p) {
                            lemma_float_len_bound(p);
                            let rest = p.skip(k2 as int);
                            if rest.len() > 0 {
                                assert(rest[0] == t[k2 as int]);
                                assert(reading_char(t[k2 as int]));
                            }
                            lemma_literal_refused(rest, i + 1, x);
                        }
                    } else {
                        let q = p.skip(k as int);
                        assert(p =~= t + q);
                        assert(q[0] == w[k as int]);
                        lemma_float_len_append(t, q);
                        assert(p.take(k as int) =~= t);
                        assert(q =~= w2.take(q.len() as int));
                        lemma_cut_fails_from(w2, i + 1, q);
                    }
                }
            },
        }
    }
}

/// Any line that decodes, cut anywhere before the end of the text the
/// grammar reads, does not decode.
pub proof fn lemma_cut_line_fails(w: Seq<char>, n: nat)
    requires
        decode_line(w) is Ok,
        n < w.len() - decode_line(w)->Ok_0.rest.len(),
    ensures
        decode_line(w.take(n as int)) is Err,
{
    lemma_rest_within(w, 0);
    let p = w.take(n as int);
    assert(p =~= w.take(p.len() as int));
    lemma_cut_fails_from(w, 0, p);
}

/// The contents of each string.
pub open spec fn texts(v: Seq<String>) -> Seq<Seq<char>> {
    v.map_values(|s: String| s@)
}

/// Decodes one report line. On success it hands back the text after the
/// last field, which the grammar does not read.
pub fn parse(input: &str) -> (r: Result<(&str, Tegrastats), ParseError>)
    ensures
        match r {
            Ok((rest, t)) => t.wf() && decode_line(input@) == Ok::<Decoded, (nat, Expected)>(
                Decoded { counts: t.counts(), temps: t.temps(), rest: rest@ },
            ),
            Err(e) => decode_line(input@) == Err::<Decoded, (nat, Expected)>(
                (e.step as nat, e.expected),
            ),
        },
{
    let pieces = grammar_pieces();
    let mut rest: &str = input;
    let mut counts: Vec<u32> = Vec::new();
    let mut temps: Vec<String> = Vec::new();
    let mut i: usize = 0;
    assert(counts@ =~= seq![] && texts(temps@) =~= seq![]);
    while i < pieces.len()
        invariant
            pieces@ == grammar(),
            i <= pieces@.len(),
            decode_line(input@) == prepend(
                counts@,
                texts(temps@),
                decode_from(rest@, i as nat),
            ),
            forall|j: int| 0 <= j < temps@.len() ==> float_len(#[trigger] temps@[j]@) == Some(
                temps@[j]@.len(),
            ),
        decreases pieces@.len() - i,
    {
        let ghost before = texts(temps@);
        let ghost here = rest@;
        let ghost counted = counts@;
        match pieces[i] {
            Piece::Literal(t) => {
                match take_literal(rest, t) {
                    Some(next) => {
                        assert(decode_from(here, i as nat) == decode_from(next@, (i + 1) as nat));
                        rest = next;
                    },
                    None => {
                        return Err(ParseError { step: i, expected: Expected::Literal });
                    },
                }
            },
            Piece::Count => {
                match take_count(rest) {
                    Some((next, v)) => {
                        assert(decode_from(here, i as nat) == prepend(
                            seq![v],
                            seq![],
                            decode_from(next@, (i + 1) as nat),
                        ));
                        proof {
                            let later = decode_from(next@, (i + 1) as nat);
                            lemma_prepend_prepend(counts@, before, seq![v], seq![], later);
                        }
                        counts.push(v);
                        rest = next;
                        assert(texts(temps@) =~= before + seq![]);
                        assert(counts@ =~= counted + seq![v]);
                    },
                    None => {
                        return Err(ParseError { step: i, expected: Expected::Count });
                    },
                }
            },
            Piece::Reading => {
                match take_float_text(rest) {
                    Some((next, text)) => {
                        assert(decode_from(here, i as nat) == prepend(
                            seq![],
                            seq![text@],
                            decode_from(next@, (i + 1) as nat),
                        ));
                        proof {
                            let later = decode_from(next@, (i + 1) as nat);
                            lemma_prepend_prepend(counts@, before, seq![], seq![text@], later);
                            lemma_float_len_take(here);
                            lemma_float_len_bound(here);
                        }
                        let ghost kept = temps@;
                        temps.push(text.to_owned());
                        assert forall|j: int| 0 <= j < temps@.len() implies float_len(
                            #[trigger] temps@[j]@,
                        ) == Some(temps@[j]@.len()) by {
                            if j < kept.len() {
                                assert(temps@[j] == kept[j]);
                            } else {
                                let k = float_len(here)->0;
                                assert(text@ == here.take(k as int));
                                assert(temps@[j]@ == text@);
                            }
                        }
                        rest = next;
                        assert(texts(temps@) =~= before + seq![text@]);
                    },
                    None => {
                        return Err(ParseError { step: i, expected: Expected::Reading });
                    },
                }
            },
        }
        i = i + 1;
    }
    proof {
        lemma_decoded_lengths(input@, 0);
        lemma_grammar_fields();
        assert(counts@ + seq![] =~= counts@);
        assert(texts(temps@) + seq![] =~= texts(temps@));
    }
    let t = Tegrastats {
        ram_used: counts[0],
        ram_total: counts[1],
        lfb_blocks: counts[2],
        lfb_size: counts[3],
        swap_used: counts[4],
        swap_total: counts[5],
        swap_cached: counts[6],
        cpu0_load: counts[7],
        cpu0_freq: counts[8],
        cpu1_load: counts[9],
        cpu1_freq: counts[10],
        cpu2_load: counts[11],
        cpu2_freq: counts[12],
        cpu3_load: counts[13],
        cpu3_freq: counts[14],
        emc_freq: counts[15],
        gr3d_freq: counts[16],
        pll_temp: Temperature { literal: temps[0].clone() },
        cpu_temp: Temperature { literal: temps[1].clone() },
        pmic_temp: Temperature { literal: temps[2].clone() },
        gpu_temp: Temperature { literal: temps[3].clone() },
        ao_temp: Temperature { literal: temps[4].clone() },
        thermal_temp: Temperature { literal: temps[5].clone() },
    };
    assert(t.wf());
    assert(t.counts() =~= counts@);
    assert(t.temps() =~= texts(temps@));
    Ok((rest, t))
}

} // verus!
