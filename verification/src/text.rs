//! Byte-level text scanning for the LUT parsers: splitting a line into
//! whitespace-separated tokens, validating a token against the numeric
//! grammar of the standard float parser, and parsing a decimal `u32`.
//!
//! Lines are handled as bytes; the whitespace bytes are space, tab,
//! carriage return, vertical tab and form feed.

use vstd::prelude::*;
use crate::formats::spec_eq_ci;
use crate::formats::bytes_eq_ci;

verus! {

/// Whether `b` is an ASCII whitespace byte other than the line feed
/// (which separates lines and never occurs inside one).
pub open spec fn spec_is_ws(b: u8) -> bool {
    b == 32 || b == 9 || b == 13 || b == 11 || b == 12
}

/// The whitespace-separated tokens of a line, in order, each non-empty
/// and free of whitespace.
pub open spec fn spec_tokens(s: Seq<u8>) -> Seq<Seq<u8>>
    decreases s.len(),
{
    if s.len() == 0 {
        Seq::empty()
    } else if spec_is_ws(s[0]) {
        spec_tokens(s.skip(1))
    } else if s.len() == 1 || spec_is_ws(s[1]) {
        seq![seq![s[0]]] + spec_tokens(s.skip(1))
    } else {
        let t = spec_tokens(s.skip(1));
        seq![seq![s[0]] + t[0]] + t.skip(1)
    }
}

/// A token list's pixel view: the bytes of each token.
pub open spec fn spec_views(r: Seq<Vec<u8>>) -> Seq<Seq<u8>> {
    r.map_values(|v: Vec<u8>| v@)
}

/// Every token a line splits into is non-empty.
pub proof fn lemma_tokens_each_nonempty(s: Seq<u8>)
    ensures
        forall|q: int| 0 <= q < spec_tokens(s).len() ==> (#[trigger] spec_tokens(s)[q]).len() > 0,
    decreases s.len(),
{
    if s.len() == 0 {
    } else {
        lemma_tokens_each_nonempty(s.skip(1));
        let r = spec_tokens(s);
        let t = spec_tokens(s.skip(1));
        if spec_is_ws(s[0]) {
        } else if s.len() == 1 || spec_is_ws(s[1]) {
            assert forall|q: int| 0 <= q < r.len() implies (#[trigger] r[q]).len() > 0 by {
                if q > 0 {
                    assert(r[q] == t[q - 1]);
                }
            }
        } else {
            assert forall|q: int| 0 <= q < r.len() implies (#[trigger] r[q]).len() > 0 by {
                if q > 0 {
                    assert(r[q] == t.skip(1)[q - 1]);
                    assert(t.skip(1)[q - 1] == t[q]);
                }
            }
        }
    }
}

/// Split a line into its whitespace-separated tokens; exact per
/// `spec_tokens`.
pub fn tokenize(line: &Vec<u8>) -> (r: Vec<Vec<u8>>)
    ensures
        spec_views(r@) == spec_tokens(line@),
{
    let mut done: Vec<Vec<u8>> = Vec::new();
    let mut cur: Vec<u8> = Vec::new();
    let mut i: usize = line.len();
    proof {
        assert(line@.skip(line@.len() as int) =~= Seq::<u8>::empty());
        assert(spec_views(done@) =~= spec_tokens(line@.skip(line@.len() as int)));
    }
    while i > 0
        invariant
            i <= line@.len(),
            line@.len() <= usize::MAX,
            cur@.len() > 0 ==> i < line@.len() && !spec_is_ws(line@[i as int]),
            cur@.len() == 0 ==> i == line@.len() || spec_is_ws(line@[i as int]),
            cur@.len() > 0 ==> spec_tokens(line@.skip(i as int))
                == seq![cur@] + spec_views(done@),
            cur@.len() == 0 ==> spec_tokens(line@.skip(i as int)) == spec_views(done@),
        decreases i,
    {
        let b = line[i - 1];
        proof {
            assert(line@.skip(i - 1)[0] == line@[i - 1]);
            assert(line@.skip(i - 1).skip(1) =~= line@.skip(i as int));
        }
        if b == 32 || b == 9 || b == 13 || b == 11 || b == 12 {
            if cur.len() > 0 {
                let ghost olddone = done@;
                let finished = cur;
                cur = Vec::new();
                done.insert(0, finished);
                proof {
                    assert(done@.skip(1) =~= olddone);
                    assert(spec_views(done@) =~= seq![finished@] + spec_views(olddone));
                }
            }
        } else {
            if cur.len() == 0 {
                cur.insert(0, b);
                proof {
                    assert(cur@ =~= seq![line@[i - 1]]);
                    assert(spec_tokens(line@.skip(i - 1))
                        == seq![seq![line@[i - 1]]] + spec_views(done@));
                }
            } else {
                let ghost oldcur = cur@;
                cur.insert(0, b);
                proof {
                    assert(cur@ =~= seq![line@[i - 1]] + oldcur);
                    let t = spec_tokens(line@.skip(i as int));
                    assert(t == seq![oldcur] + spec_views(done@));
                    assert(t[0] == oldcur);
                    assert(t.skip(1) =~= spec_views(done@));
                    assert(spec_tokens(line@.skip(i - 1))
                        == seq![seq![line@[i - 1]] + oldcur] + spec_views(done@));
                }
            }
        }
        i -= 1;
    }
    if cur.len() > 0 {
        let ghost olddone = done@;
        let finished = cur;
        done.insert(0, finished);
        proof {
            assert(done@.skip(1) =~= olddone);
            assert(spec_views(done@) =~= seq![finished@] + spec_views(olddone));
        }
    }
    proof {
        assert(line@.skip(0) =~= line@);
    }
    done
}

/// The states of the numeric-token grammar: sign, integer digits, an
/// optional dot with digits on at least one side, and an optional
/// exponent with a sign and at least one digit.
#[derive(Clone, Copy, PartialEq, Eq, Structural)]
pub enum NumState {
    /// Nothing read yet (the sign, if any, is stripped beforehand).
    Start,
    /// One or more integer digits read.
    Int,
    /// A dot right after the integer digits.
    DotAfterInt,
    /// A dot with no digit before it.
    DotNoInt,
    /// Digits after the dot.
    Frac,
    /// The exponent marker just read.
    Exp,
    /// The exponent's sign just read.
    ExpSign,
    /// One or more exponent digits read.
    ExpDigits,
    /// The token left the grammar.
    Dead,
}

/// Whether `b` is a decimal digit.
pub open spec fn spec_is_digit(b: u8) -> bool {
    48 <= b <= 57
}

/// One step of the numeric-token grammar.
pub open spec fn spec_num_step(st: NumState, b: u8) -> NumState {
    match st {
        NumState::Start => {
            if spec_is_digit(b) { NumState::Int }
            else if b == 46 { NumState::DotNoInt }
            else { NumState::Dead }
        },
        NumState::Int => {
            if spec_is_digit(b) { NumState::Int }
            else if b == 46 { NumState::DotAfterInt }
            else if b == 101 || b == 69 { NumState::Exp }
            else { NumState::Dead }
        },
        NumState::DotAfterInt => {
            if spec_is_digit(b) { NumState::Frac }
            else if b == 101 || b == 69 { NumState::Exp }
            else { NumState::Dead }
        },
        NumState::DotNoInt => {
            if spec_is_digit(b) { NumState::Frac } else { NumState::Dead }
        },
        NumState::Frac => {
            if spec_is_digit(b) { NumState::Frac }
            else if b == 101 || b == 69 { NumState::Exp }
            else { NumState::Dead }
        },
        NumState::Exp => {
            if spec_is_digit(b) { NumState::ExpDigits }
            else if b == 43 || b == 45 { NumState::ExpSign }
            else { NumState::Dead }
        },
        NumState::ExpSign => {
            if spec_is_digit(b) { NumState::ExpDigits } else { NumState::Dead }
        },
        NumState::ExpDigits => {
            if spec_is_digit(b) { NumState::ExpDigits } else { NumState::Dead }
        },
        NumState::Dead => NumState::Dead,
    }
}

/// The grammar state after reading all of `u` from state `st`.
pub open spec fn spec_num_state(st: NumState, u: Seq<u8>) -> NumState
    decreases u.len(),
{
    if u.len() == 0 {
        st
    } else {
        spec_num_state(spec_num_step(st, u[0]), u.skip(1))
    }
}

/// Whether a grammar state accepts the end of the token.
pub open spec fn spec_num_accepting(st: NumState) -> bool {
    st == NumState::Int || st == NumState::DotAfterInt || st == NumState::Frac
        || st == NumState::ExpDigits
}

/// The bytes of `t` with one leading `+` or `-` removed.
pub open spec fn spec_strip_sign(t: Seq<u8>) -> Seq<u8> {
    if t.len() > 0 && (t[0] == 43 || t[0] == 45) { t.skip(1) } else { t }
}

/// Whether `t` is a valid numeric token: after an optional sign, either
/// `inf`, `infinity` or `nan` (ASCII case-insensitive), or a number of
/// the grammar above — digits with an optional dot carrying digits on
/// at least one side, and an optional signed exponent. This is the
/// grammar the standard float parser accepts.
pub open spec fn spec_is_float_token(t: Seq<u8>) -> bool {
    let u = spec_strip_sign(t);
    ||| spec_eq_ci(u, seq![105u8, 110, 102])                           // inf
    ||| spec_eq_ci(u, seq![105u8, 110, 102, 105, 110, 105, 116, 121])  // infinity
    ||| spec_eq_ci(u, seq![110u8, 97, 110])                            // nan
    ||| spec_num_accepting(spec_num_state(NumState::Start, u))
}

/// One step of the numeric-token grammar; exact per `spec_num_step`.
fn num_step(st: NumState, b: u8) -> (r: NumState)
    ensures
        r == spec_num_step(st, b),
{
    let digit = 48 <= b && b <= 57;
    match st {
        NumState::Start => {
            if digit { NumState::Int }
            else if b == 46 { NumState::DotNoInt }
            else { NumState::Dead }
        },
        NumState::Int => {
            if digit { NumState::Int }
            else if b == 46 { NumState::DotAfterInt }
            else if b == 101 || b == 69 { NumState::Exp }
            else { NumState::Dead }
        },
        NumState::DotAfterInt => {
            if digit { NumState::Frac }
            else if b == 101 || b == 69 { NumState::Exp }
            else { NumState::Dead }
        },
        NumState::DotNoInt => {
            if digit { NumState::Frac } else { NumState::Dead }
        },
        NumState::Frac => {
            if digit { NumState::Frac }
            else if b == 101 || b == 69 { NumState::Exp }
            else { NumState::Dead }
        },
        NumState::Exp => {
            if digit { NumState::ExpDigits }
            else if b == 43 || b == 45 { NumState::ExpSign }
            else { NumState::Dead }
        },
        NumState::ExpSign => {
            if digit { NumState::ExpDigits } else { NumState::Dead }
        },
        NumState::ExpDigits => {
            if digit { NumState::ExpDigits } else { NumState::Dead }
        },
        NumState::Dead => NumState::Dead,
    }
}

/// The bytes of `t` from `start` on.
fn suffix_from(t: &Vec<u8>, start: usize) -> (r: Vec<u8>)
    requires
        start <= t@.len(),
    ensures
        r@ == t@.skip(start as int),
{
    let mut r: Vec<u8> = Vec::new();
    let mut j: usize = start;
    while j < t.len()
        invariant
            start <= j <= t@.len(),
            r@ == t@.skip(start as int).take(j - start),
        decreases t@.len() - j,
    {
        r.push(t[j]);
        proof {
            assert(t@.skip(start as int).take(j + 1 - start)
                =~= t@.skip(start as int).take(j - start).push(t@[j as int]));
        }
        j += 1;
    }
    proof {
        assert(t@.skip(start as int).take(t@.len() - start) =~= t@.skip(start as int));
    }
    r
}

/// Whether `t` is a valid numeric token; exact per `spec_is_float_token`.
pub fn is_float_token(t: &Vec<u8>) -> (r: bool)
    ensures
        r == spec_is_float_token(t@),
{
    let start: usize = if t.len() > 0 && (t[0] == 43 || t[0] == 45) { 1 } else { 0 };
    let u = suffix_from(t, start);
    proof {
        if start == 0 {
            assert(t@.skip(0) =~= t@);
        }
        assert(u@ == spec_strip_sign(t@));
    }
    let inf: Vec<u8> = vec![105u8, 110, 102];
    let infinity: Vec<u8> = vec![105u8, 110, 102, 105, 110, 105, 116, 121];
    let nan: Vec<u8> = vec![110u8, 97, 110];
    if bytes_eq_ci(&u, &inf) || bytes_eq_ci(&u, &infinity) || bytes_eq_ci(&u, &nan) {
        return true;
    }
    let mut st = NumState::Start;
    let mut j: usize = 0;
    proof {
        assert(u@.skip(0) =~= u@);
    }
    while j < u.len()
        invariant
            j <= u@.len(),
            u@ == spec_strip_sign(t@),
            spec_num_state(NumState::Start, u@) == spec_num_state(st, u@.skip(j as int)),
        decreases u@.len() - j,
    {
        proof {
            assert(u@.skip(j as int)[0] == u@[j as int]);
            assert(u@.skip(j as int).skip(1) =~= u@.skip(j + 1));
        }
        st = num_step(st, u[j]);
        j += 1;
    }
    proof {
        assert(u@.skip(u@.len() as int) =~= Seq::<u8>::empty());
    }
    matches!(st, NumState::Int | NumState::DotAfterInt | NumState::Frac | NumState::ExpDigits)
}

/// The value of a run of decimal digits.
pub open spec fn spec_digits_val(u: Seq<u8>) -> int
    decreases u.len(),
{
    if u.len() == 0 {
        0
    } else {
        spec_digits_val(u.drop_last()) * 10 + (u.last() - 48)
    }
}

/// The bytes of `t` with one leading `+` removed.
pub open spec fn spec_strip_plus(t: Seq<u8>) -> Seq<u8> {
    if t.len() > 0 && t[0] == 43 { t.skip(1) } else { t }
}

/// Whether every byte of `u` is a decimal digit.
pub open spec fn spec_all_digits(u: Seq<u8>) -> bool {
    forall|k: int| 0 <= k < u.len() ==> spec_is_digit(#[trigger] u[k])
}

/// The `u32` a token parses to: after an optional leading `+`, one or
/// more decimal digits whose value fits; anything else is `None`.
pub open spec fn spec_parse_u32(t: Seq<u8>) -> Option<u32> {
    let u = spec_strip_plus(t);
    if u.len() == 0 {
        None
    } else if !spec_all_digits(u) {
        None
    } else if spec_digits_val(u) > u32::MAX {
        None
    } else {
        Some(spec_digits_val(u) as u32)
    }
}

/// Parse a token as a decimal `u32`; exact per `spec_parse_u32`.
pub fn parse_u32_token(t: &Vec<u8>) -> (r: Option<u32>)
    ensures
        r == spec_parse_u32(t@),
{
    let start: usize = if t.len() > 0 && t[0] == 43 { 1 } else { 0 };
    let u = suffix_from(t, start);
    proof {
        if t@.len() > 0 && t@[0] == 43 {
            assert(u@ == t@.skip(1));
        } else {
            assert(u@ =~= t@);
        }
    }
    if u.len() == 0 {
        return None;
    }
    proof {
        assert(u@ == spec_strip_plus(t@));
    }
    let mut val: u64 = 0;
    let mut over: bool = false;
    let mut j: usize = 0;
    while j < u.len()
        invariant
            u@ == spec_strip_plus(t@),
            u@.len() > 0,
            j <= u@.len(),
            forall|k: int| 0 <= k < j ==> spec_is_digit(#[trigger] u@[k]),
            !over ==> val == spec_digits_val(u@.take(j as int)) && val <= u32::MAX,
            over ==> spec_digits_val(u@.take(j as int)) > u32::MAX,
        decreases u@.len() - j,
    {
        let b = u[j];
        if b < 48 || b > 57 {
            proof {
                assert(!spec_is_digit(u@[j as int]));
                assert(!spec_all_digits(u@));
            }
            return None;
        }
        proof {
            assert(u@.take(j + 1).drop_last() =~= u@.take(j as int));
            assert(u@.take(j + 1).last() == u@[j as int]);
        }
        if !over {
            let nv: u64 = val * 10 + ((b - 48) as u64);
            if nv > 0xffff_ffff {
                over = true;
            } else {
                val = nv;
            }
        }
        j += 1;
    }
    proof {
        assert(u@.take(u@.len() as int) =~= u@);
        assert(spec_all_digits(u@));
    }
    if over {
        None
    } else {
        Some(val as u32)
    }
}

/// The dead state absorbs every further byte.
pub proof fn lemma_num_dead(u: Seq<u8>)
    ensures
        spec_num_state(NumState::Dead, u) == NumState::Dead,
    decreases u.len(),
{
    if u.len() > 0 {
        lemma_num_dead(u.skip(1));
    }
}

/// A whitespace byte anywhere kills the numeric grammar.
pub proof fn lemma_num_ws_dead(st: NumState, u: Seq<u8>, k: int)
    requires
        0 <= k < u.len(),
        spec_is_ws(u[k]),
    ensures
        spec_num_state(st, u) == NumState::Dead,
    decreases u.len(),
{
    if k == 0 {
        assert(spec_num_step(st, u[0]) == NumState::Dead);
        lemma_num_dead(u.skip(1));
    } else {
        assert(u.skip(1)[k - 1] == u[k]);
        lemma_num_ws_dead(spec_num_step(st, u[0]), u.skip(1), k - 1);
    }
}

/// A valid numeric token is non-empty, opens with a sign, a digit, a
/// dot or a letter of `inf` / `nan`, and holds no whitespace byte.
pub proof fn lemma_float_token_shape(t: Seq<u8>)
    requires
        spec_is_float_token(t),
    ensures
        t.len() > 0,
        t[0] == 43 || t[0] == 45 || spec_is_digit(t[0]) || t[0] == 46
            || t[0] == 105 || t[0] == 73 || t[0] == 110 || t[0] == 78,
        forall|k: int| 0 <= k < t.len() ==> !spec_is_ws(#[trigger] t[k]),
{
    let u = spec_strip_sign(t);
    let signed = t.len() > 0 && (t[0] == 43 || t[0] == 45);
    if spec_eq_ci(u, seq![105u8, 110, 102])
        || spec_eq_ci(u, seq![105u8, 110, 102, 105, 110, 105, 116, 121])
        || spec_eq_ci(u, seq![110u8, 97, 110]) {
        assert(u.len() > 0);
        assert(t.len() > 0);
        if !signed {
            assert(u == t);
            assert(crate::formats::spec_lower(t[0]) == crate::formats::spec_lower(u[0]));
        }
        assert forall|k: int| 0 <= k < t.len() implies !spec_is_ws(#[trigger] t[k]) by {
            if signed && k == 0 {
            } else {
                let q = if signed { k - 1 } else { k };
                assert(u[q] == t[k]);
                assert(crate::formats::spec_lower(u[q]) == crate::formats::spec_lower(u[q]));
                if spec_is_ws(u[q]) {
                    assert(crate::formats::spec_lower(u[q]) == u[q]);
                    assert(false);
                }
            }
        }
    } else {
        assert(spec_num_accepting(spec_num_state(NumState::Start, u)));
        if u.len() == 0 {
            assert(spec_num_state(NumState::Start, u) == NumState::Start);
            assert(false);
        }
        assert(t.len() > 0);
        if !spec_is_digit(u[0]) && u[0] != 46 {
            assert(spec_num_step(NumState::Start, u[0]) == NumState::Dead);
            lemma_num_dead(u.skip(1));
            assert(false);
        }
        if !signed {
            assert(u == t);
        }
        assert forall|k: int| 0 <= k < t.len() implies !spec_is_ws(#[trigger] t[k]) by {
            if signed && k == 0 {
            } else {
                let q = if signed { k - 1 } else { k };
                assert(u[q] == t[k]);
                if spec_is_ws(u[q]) {
                    lemma_num_ws_dead(NumState::Start, u, q);
                    assert(false);
                }
            }
        }
    }
}

/// Tokenizing a whitespace-free token followed by a separator (or the
/// line's end) yields that token and then the tokens of the rest.
pub proof fn lemma_tokens_prepend(a: Seq<u8>, rest: Seq<u8>)
    requires
        a.len() > 0,
        forall|k: int| 0 <= k < a.len() ==> !spec_is_ws(#[trigger] a[k]),
        rest.len() == 0 || spec_is_ws(rest[0]),
    ensures
        spec_tokens(a + rest) == seq![a] + spec_tokens(rest),
    decreases a.len(),
{
    let s = a + rest;
    assert(s[0] == a[0]);
    if a.len() == 1 {
        assert(s.skip(1) =~= rest);
        assert(seq![a[0]] =~= a);
        if rest.len() == 0 {
            assert(s.len() == 1);
        } else {
            assert(s[1] == rest[0]);
        }
        assert(spec_tokens(s) == seq![seq![s[0]]] + spec_tokens(s.skip(1)));
        assert(seq![seq![s[0]]] + spec_tokens(rest) =~= seq![a] + spec_tokens(rest));
    } else {
        assert(s[1] == a[1]);
        assert(s.skip(1) =~= a.skip(1) + rest);
        lemma_tokens_prepend(a.skip(1), rest);
        let t = spec_tokens(s.skip(1));
        assert(t == seq![a.skip(1)] + spec_tokens(rest));
        assert(t[0] == a.skip(1));
        assert(seq![s[0]] + t[0] =~= a);
        assert(t.skip(1) =~= spec_tokens(rest));
        assert(spec_tokens(s) == seq![seq![s[0]] + t[0]] + t.skip(1));
        assert(seq![seq![s[0]] + t[0]] + t.skip(1) =~= seq![a] + spec_tokens(rest));
    }
}

/// A leading whitespace byte is skipped by the tokenizer.
pub proof fn lemma_tokens_ws(b: u8, rest: Seq<u8>)
    requires
        spec_is_ws(b),
    ensures
        spec_tokens(seq![b] + rest) == spec_tokens(rest),
    decreases rest.len(),
{
    let s = seq![b] + rest;
    assert(s[0] == b);
    assert(s.skip(1) =~= rest);
}

/// The decimal rendering of a non-negative value.
pub open spec fn spec_u32_dec(v: int) -> Seq<u8>
    decreases v,
{
    if v < 10 {
        seq![(48 + v) as u8]
    } else {
        spec_u32_dec(v / 10).push((48 + v % 10) as u8)
    }
}

/// The decimal rendering of a value in `u32` range is all digits and
/// parses back to the same value.
pub proof fn lemma_u32_dec(v: int)
    requires
        0 <= v <= u32::MAX,
    ensures
        spec_u32_dec(v).len() > 0,
        forall|k: int| 0 <= k < spec_u32_dec(v).len() ==> spec_is_digit(#[trigger] spec_u32_dec(v)[k]),
        spec_digits_val(spec_u32_dec(v)) == v,
        spec_parse_u32(spec_u32_dec(v)) == Some(v as u32),
    decreases v,
{
    let d = spec_u32_dec(v);
    if v < 10 {
        assert(d =~= seq![(48 + v) as u8]);
        assert(d.len() == 1);
        assert(d.last() == (48 + v) as u8);
        assert((48 + v) as u8 == 48 + v);
        assert(d.drop_last() =~= Seq::<u8>::empty());
        assert(spec_digits_val(d.drop_last()) == 0);
        assert(spec_digits_val(d) == spec_digits_val(d.drop_last()) * 10 + (d.last() - 48));
        assert(spec_digits_val(d) == v);
    } else {
        lemma_u32_dec(v / 10);
        let p = spec_u32_dec(v / 10);
        assert(d == p.push((48 + v % 10) as u8));
        assert(d.drop_last() =~= p);
        assert(d.last() == (48 + v % 10) as u8);
        assert(spec_digits_val(d) == spec_digits_val(p) * 10 + v % 10);
        vstd::arithmetic::div_mod::lemma_fundamental_div_mod(v, 10);
        assert(spec_digits_val(d) == v);
        assert forall|k: int| 0 <= k < d.len() implies spec_is_digit(#[trigger] d[k]) by {
            if k < p.len() {
                assert(d[k] == p[k]);
            }
        }
    }
    assert(!(d[0] == 43));
    assert(spec_strip_plus(d) == d);
    assert(spec_all_digits(d));
}

} // verus!
