//! What decoding guarantees for every well-formed token.
use vstd::prelude::*;
use crate::input::{next_token, skip_spaces, token_end};
use crate::token::{
    Decimal, ReadError, TokenSummary, decimal_outcome, int_outcome, is_digit, is_space, resume,
    step, summary,
};

verus! {

/// The value of a string of decimal digits, most significant first.
pub open spec fn digits_value(ds: Seq<u8>) -> nat
    decreases ds.len(),
{
    if ds.len() == 0 {
        0
    } else {
        digits_value(ds.drop_last()) * 10 + (ds.last() - 48) as nat
    }
}

pub open spec fn all_digits(ds: Seq<u8>) -> bool {
    forall|i: int| 0 <= i < ds.len() ==> is_digit(#[trigger] ds[i])
}

/// The bytes `-` where `negative` holds, none otherwise.
pub open spec fn sign_bytes(negative: bool) -> Seq<u8> {
    if negative {
        seq![45u8]
    } else {
        Seq::empty()
    }
}

pub open spec fn signed(negative: bool, v: nat) -> int {
    if negative {
        -(v as int)
    } else {
        v as int
    }
}

/// Resuming a token after a split anywhere gives what decoding it whole
/// gives: a token cut by a buffer refill decodes as if it were never cut.
pub proof fn lemma_resume_split(s: TokenSummary, a: Seq<u8>, b: Seq<u8>)
    ensures
        resume(resume(s, a), b) == resume(s, a + b),
    decreases b.len(),
{
    if b.len() == 0 {
        assert(a + b =~= a);
    } else {
        lemma_resume_split(s, a, b.drop_last());
        assert((a + b).drop_last() =~= a + b.drop_last());
        assert((a + b).last() == b.last());
    }
}

proof fn lemma_push(t: Seq<u8>, b: u8)
    ensures
        summary(t.push(b)) == step(summary(t), b),
{
    assert(t.push(b).drop_last() =~= t);
}

/// A run of digits after `t` extends the mantissa digit by digit.
proof fn lemma_digit_run(t: Seq<u8>, m: Seq<u8>, ds: Seq<u8>)
    requires
        all_digits(ds),
        !summary(t).malformed,
        summary(t).mantissa == digits_value(m),
    ensures
        ({
            let s = summary(t);
            summary(t + ds) == TokenSummary {
                len: s.len + ds.len(),
                negative: s.negative,
                dot: s.dot,
                digits: s.digits + ds.len(),
                mantissa: digits_value(m + ds),
                frac_digits: if s.dot { s.frac_digits + ds.len() } else { s.frac_digits },
                malformed: false,
            }
        }),
    decreases ds.len(),
{
    if ds.len() == 0 {
        assert(t + ds =~= t);
        assert(m + ds =~= m);
    } else {
        let init = ds.drop_last();
        lemma_digit_run(t, m, init);
        assert(t + ds =~= (t + init).push(ds.last()));
        assert(m + ds =~= (m + init).push(ds.last()));
        assert((m + init).push(ds.last()).drop_last() =~= m + init);
        assert(is_digit(ds[ds.len() - 1]));
        lemma_push(t + init, ds.last());
    }
}

proof fn lemma_sign(negative: bool)
    ensures
        ({
            let s = summary(sign_bytes(negative));
            &&& s.len == sign_bytes(negative).len()
            &&& s.negative == negative
            &&& !s.dot && !s.malformed
            &&& s.digits == 0 && s.mantissa == 0 && s.frac_digits == 0
        }),
{
    if negative {
        lemma_push(Seq::empty(), 45u8);
        assert(Seq::<u8>::empty().push(45u8) =~= seq![45u8]);
    }
}

proof fn lemma_solid_run(s: Seq<u8>, i: int)
    requires
        0 <= i <= s.len(),
        forall|j: int| i <= j < s.len() ==> !is_space(#[trigger] s[j]),
    ensures
        token_end(s, i) == s.len(),
    decreases s.len() - i,
{
    if i < s.len() {
        lemma_solid_run(s, i + 1);
    }
}

/// A source that holds exactly one token hands that token out whole.
pub proof fn lemma_single_token(t: Seq<u8>)
    requires
        t.len() > 0,
        forall|j: int| 0 <= j < t.len() ==> !is_space(#[trigger] t[j]),
    ensures
        next_token(t, 0) == t,
{
    assert(skip_spaces(t, 0) == 0);
    lemma_solid_run(t, 0);
    assert(t.subrange(0, t.len() as int) =~= t);
}

/// An integer token, an optional `-` and at least one digit, reads as the
/// number it writes, wherever that number lies in `[lo, hi]`, and as out of
/// range elsewhere; read from a source that holds exactly the token, it is
/// the token handed out.
pub proof fn lemma_integer_token(negative: bool, ds: Seq<u8>, lo: int, hi: int)
    requires
        ds.len() > 0,
        all_digits(ds),
    ensures
        ({
            let t = sign_bytes(negative) + ds;
            let v = signed(negative, digits_value(ds));
            &&& next_token(t, 0) == t
            &&& lo <= v <= hi ==> int_outcome(t, lo, hi) == Ok::<int, ReadError>(v)
            &&& !(lo <= v <= hi) ==> int_outcome(t, lo, hi) == Err::<int, ReadError>(
                ReadError::OutOfRange,
            )
        }),
{
    let t = sign_bytes(negative) + ds;
    lemma_sign(negative);
    assert(digits_value(Seq::<u8>::empty()) == 0);
    lemma_digit_run(sign_bytes(negative), Seq::empty(), ds);
    assert(Seq::<u8>::empty() + ds =~= ds);
    assert forall|j: int| 0 <= j < t.len() implies !is_space(#[trigger] t[j]) by {
        if j >= sign_bytes(negative).len() {
            assert(t[j] == ds[j - sign_bytes(negative).len()]);
        }
    }
    lemma_single_token(t);
}

/// A decimal token, an optional `-`, digits, a `.` and digits, with at
/// least one digit, reads exactly: its mantissa is all its digits read as
/// one number and its scale the count of digits after the `.`, wherever
/// both fit their fields.
pub proof fn lemma_decimal_token(negative: bool, int_part: Seq<u8>, frac_part: Seq<u8>)
    requires
        all_digits(int_part),
        all_digits(frac_part),
        int_part.len() + frac_part.len() > 0,
        digits_value(int_part + frac_part) <= u64::MAX,
        frac_part.len() <= u32::MAX,
    ensures
        decimal_outcome(sign_bytes(negative) + int_part + seq![46u8] + frac_part) == Ok::<
            Decimal,
            ReadError,
        >(
            Decimal {
                negative,
                mantissa: digits_value(int_part + frac_part) as u64,
                scale: frac_part.len() as u32,
            },
        ),
{
    let sg = sign_bytes(negative);
    lemma_sign(negative);
    assert(digits_value(Seq::<u8>::empty()) == 0);
    lemma_digit_run(sg, Seq::empty(), int_part);
    assert(Seq::<u8>::empty() + int_part =~= int_part);
    let head = sg + int_part;
    lemma_push(head, 46u8);
    assert(head + seq![46u8] =~= head.push(46u8));
    lemma_digit_run(head + seq![46u8], int_part, frac_part);
}

} // verus!
