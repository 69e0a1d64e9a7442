//! The meaning of a token's bytes, and an accumulator that decodes a token
//! one byte at a time, so that decoding can resume after a buffer refill.
use vstd::prelude::*;

verus! {

/// Whitespace for the reader: every byte up to and including the space.
pub open spec fn is_space(b: u8) -> bool {
    b <= 32
}

pub open spec fn is_digit(b: u8) -> bool {
    48 <= b <= 57
}

/// Why no value came out of a read.
#[derive(PartialEq, Eq, Structural, Clone, Copy, Debug)]
pub enum ReadError {
    /// The source held no further token (or line).
    EndOfStream,
    /// The token is not an optional `-`, digits and (for decimals) one `.`.
    Malformed,
    /// The token is well formed but its value does not fit the requested type.
    OutOfRange,
}

/// What the bytes of a token seen so far amount to.
pub struct TokenSummary {
    /// Bytes seen.
    pub len: nat,
    /// A `-` stood first.
    pub negative: bool,
    /// A `.` was seen.
    pub dot: bool,
    /// Digits seen.
    pub digits: nat,
    /// The digits read as one decimal number, the `.` left out.
    pub mantissa: nat,
    /// Digits seen after the `.`.
    pub frac_digits: nat,
    /// A byte stood where the token's shape does not allow it.
    pub malformed: bool,
}

pub open spec fn empty_summary() -> TokenSummary {
    TokenSummary {
        len: 0,
        negative: false,
        dot: false,
        digits: 0,
        mantissa: 0,
        frac_digits: 0,
        malformed: false,
    }
}

pub open spec fn flag_malformed(s: TokenSummary) -> TokenSummary {
    TokenSummary {
        len: s.len + 1,
        negative: s.negative,
        dot: s.dot,
        digits: s.digits,
        mantissa: s.mantissa,
        frac_digits: s.frac_digits,
        malformed: true,
    }
}

/// The effect of one more token byte: a `-` only in first place, at most one
/// `.`, and digits; anything else marks the token malformed.
pub open spec fn step(s: TokenSummary, b: u8) -> TokenSummary {
    if b == 45 {
        if s.len == 0 {
            TokenSummary {
                len: 1,
                negative: true,
                dot: s.dot,
                digits: s.digits,
                mantissa: s.mantissa,
                frac_digits: s.frac_digits,
                malformed: s.malformed,
            }
        } else {
            flag_malformed(s)
        }
    } else if b == 46 {
        if s.dot {
            flag_malformed(s)
        } else {
            TokenSummary {
                len: s.len + 1,
                negative: s.negative,
                dot: true,
                digits: s.digits,
                mantissa: s.mantissa,
                frac_digits: s.frac_digits,
                malformed: s.malformed,
            }
        }
    } else if is_digit(b) {
        TokenSummary {
            len: s.len + 1,
            negative: s.negative,
            dot: s.dot,
            digits: s.digits + 1,
            mantissa: s.mantissa * 10 + (b - 48) as nat,
            frac_digits: if s.dot { s.frac_digits + 1 } else { s.frac_digits },
            malformed: s.malformed,
        }
    } else {
        flag_malformed(s)
    }
}

/// Continue from `s` over the bytes `t`.
pub open spec fn resume(s: TokenSummary, t: Seq<u8>) -> TokenSummary
    decreases t.len(),
{
    if t.len() == 0 {
        s
    } else {
        step(resume(s, t.drop_last()), t.last())
    }
}

/// What the whole token `t` amounts to.
pub open spec fn summary(t: Seq<u8>) -> TokenSummary {
    resume(empty_summary(), t)
}

/// An optional `-`, at least one digit, and at most one `.`.
pub open spec fn well_formed(s: TokenSummary) -> bool {
    !s.malformed && s.digits > 0
}

pub open spec fn signed_mantissa(s: TokenSummary) -> int {
    if s.negative {
        -(s.mantissa as int)
    } else {
        s.mantissa as int
    }
}

/// The outcome of reading the token `t` as an integer in `[lo, hi]`; an
/// empty token means the source is exhausted.
pub open spec fn int_outcome(t: Seq<u8>, lo: int, hi: int) -> Result<int, ReadError> {
    let s = summary(t);
    if t.len() == 0 {
        Err(ReadError::EndOfStream)
    } else if !well_formed(s) || s.dot {
        Err(ReadError::Malformed)
    } else if lo <= signed_mantissa(s) <= hi {
        Ok(signed_mantissa(s))
    } else {
        Err(ReadError::OutOfRange)
    }
}

/// An exact decimal value: `mantissa / 10^scale`, negated when `negative`.
#[derive(PartialEq, Eq, Structural, Clone, Copy, Debug)]
pub struct Decimal {
    pub negative: bool,
    pub mantissa: u64,
    pub scale: u32,
}

/// The outcome of reading the token `t` as a decimal.
pub open spec fn decimal_outcome(t: Seq<u8>) -> Result<Decimal, ReadError> {
    let s = summary(t);
    if t.len() == 0 {
        Err(ReadError::EndOfStream)
    } else if !well_formed(s) {
        Err(ReadError::Malformed)
    } else if s.mantissa <= u64::MAX && s.frac_digits <= u32::MAX {
        Ok(Decimal { negative: s.negative, mantissa: s.mantissa as u64, scale: s.frac_digits as u32 })
    } else {
        Err(ReadError::OutOfRange)
    }
}

/// Decodes a token one byte at a time; the state survives a buffer refill.
pub struct Scan {
    started: bool,
    negative: bool,
    dot: bool,
    has_digits: bool,
    mag: u64,
    frac: u32,
    overflow: bool,
    malformed: bool,
    seen: Ghost<Seq<u8>>,
}

impl Scan {
    /// The token bytes fed so far.
    pub closed spec fn bytes(&self) -> Seq<u8> {
        self.seen@
    }

    pub closed spec fn wf(&self) -> bool {
        let s = summary(self.seen@);
        &&& self.started == (self.seen@.len() > 0)
        &&& s.len == self.seen@.len()
        &&& self.negative == s.negative
        &&& self.dot == s.dot
        &&& !s.dot ==> s.frac_digits == 0
        &&& self.has_digits == (s.digits > 0)
        &&& self.malformed == s.malformed
        &&& self.overflow == (s.mantissa > u64::MAX || s.frac_digits > u32::MAX)
        &&& !self.overflow ==> self.mag == s.mantissa && self.frac == s.frac_digits
    }

    pub fn new() -> (r: Scan)
        ensures
            r.wf(),
            r.bytes() == Seq::<u8>::empty(),
    {
        Scan {
            started: false,
            negative: false,
            dot: false,
            has_digits: false,
            mag: 0,
            frac: 0,
            overflow: false,
            malformed: false,
            seen: Ghost(Seq::empty()),
        }
    }

    /// Feeds one more byte of the token.
    pub fn push(&mut self, b: u8)
        requires
            old(self).wf(),
        ensures
            final(self).wf(),
            final(self).bytes() == old(self).bytes().push(b),
    {
        let ghost t = self.seen@;
        proof {
            assert(t.push(b).drop_last() =~= t);
        }
        if b == 45u8 {
            if !self.started {
                self.negative = true;
            } else {
                self.malformed = true;
            }
        } else if b == 46u8 {
            if self.dot {
                self.malformed = true;
            } else {
                self.dot = true;
            }
        } else if b >= 48u8 && b <= 57u8 {
            let d = (b - 48u8) as u64;
            self.has_digits = true;
            if !self.overflow {
                if self.mag > (u64::MAX - d) / 10 {
                    proof {
                        let m = self.mag as int;
                        assert(m * 10 + d > u64::MAX) by (nonlinear_arith)
                            requires m > (u64::MAX - d) / 10, 0 <= d <= 9;
                    }
                    self.overflow = true;
                } else {
                    proof {
                        let m = self.mag as int;
                        assert(m * 10 + d <= u64::MAX) by (nonlinear_arith)
                            requires m <= (u64::MAX - d) / 10, 0 <= d <= 9, m >= 0;
                    }
                    self.mag = self.mag * 10 + d;
                    if self.dot {
                        if self.frac == u32::MAX {
                            self.overflow = true;
                        } else {
                            self.frac = self.frac + 1;
                        }
                    }
                }
            } else {
                proof {
                    let s = summary(t);
                    assert(s.mantissa * 10 + d >= s.mantissa) by (nonlinear_arith)
                        requires d >= 0;
                }
            }
        } else {
            self.malformed = true;
        }
        self.started = true;
        self.seen = Ghost(t.push(b));
    }

    /// The token read as an integer in `[lo, hi]`.
    pub fn int_result(&self, lo: i128, hi: i128) -> (r: Result<i128, ReadError>)
        requires
            self.wf(),
            -(u64::MAX as int) <= lo,
            hi <= u64::MAX,
        ensures
            match int_outcome(self.bytes(), lo as int, hi as int) {
                Ok(v) => r == Ok::<i128, ReadError>(v as i128),
                Err(e) => r == Err::<i128, ReadError>(e),
            },
    {
        if !self.started {
            return Err(ReadError::EndOfStream);
        }
        if self.malformed || !self.has_digits || self.dot {
            return Err(ReadError::Malformed);
        }
        if self.overflow {
            return Err(ReadError::OutOfRange);
        }
        let v: i128 = if self.negative {
            -(self.mag as i128)
        } else {
            self.mag as i128
        };
        if lo <= v && v <= hi {
            Ok(v)
        } else {
            Err(ReadError::OutOfRange)
        }
    }

    /// The token read as an exact decimal.
    pub fn decimal_result(&self) -> (r: Result<Decimal, ReadError>)
        requires
            self.wf(),
        ensures
            r == decimal_outcome(self.bytes()),
    {
        if !self.started {
            return Err(ReadError::EndOfStream);
        }
        if self.malformed || !self.has_digits {
            return Err(ReadError::Malformed);
        }
        if self.overflow {
            return Err(ReadError::OutOfRange);
        }
        Ok(Decimal { negative: self.negative, mantissa: self.mag, scale: self.frac })
    }
}

} // verus!
