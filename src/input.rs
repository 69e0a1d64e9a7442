//! The token reader: whitespace skipping, token scanning across refills,
//! typed decoding and line reading.
use vstd::prelude::*;
use vstd::string::StringExecFns;
use vstd::utf8::{decode_utf8, valid_utf8};
use crate::source::{ByteSource, DEFAULT_CHUNK};
use crate::token::{Decimal, ReadError, Scan, decimal_outcome, int_outcome, is_space};

verus! {

/// The first index at or after `i` that holds no whitespace, or the end.
pub open spec fn skip_spaces(s: Seq<u8>, i: int) -> int
    decreases s.len() - i,
{
    if 0 <= i < s.len() && is_space(s[i]) {
        skip_spaces(s, i + 1)
    } else {
        i
    }
}

/// The first index at or after `i` that holds whitespace, or the end.
pub open spec fn token_end(s: Seq<u8>, i: int) -> int
    decreases s.len() - i,
{
    if 0 <= i < s.len() && !is_space(s[i]) {
        token_end(s, i + 1)
    } else {
        i
    }
}

/// The next token of `s` at or after `from`: a maximal run of non-whitespace
/// bytes, empty where only whitespace is left.
pub open spec fn next_token(s: Seq<u8>, from: int) -> Seq<u8> {
    s.subrange(skip_spaces(s, from), token_end(s, skip_spaces(s, from)))
}

/// Where reading the next token of `s` at or after `from` stops: on the
/// whitespace byte that ends it, or at the end.
pub open spec fn after_token(s: Seq<u8>, from: int) -> int {
    token_end(s, skip_spaces(s, from))
}

/// The index just past the first `\n` at or after `i`, or the end.
pub open spec fn line_end(s: Seq<u8>, i: int) -> int
    decreases s.len() - i,
{
    if 0 <= i < s.len() {
        if s[i] == 10 {
            i + 1
        } else {
            line_end(s, i + 1)
        }
    } else {
        i
    }
}

proof fn lemma_line_end_past(s: Seq<u8>, i: int)
    requires
        0 <= i < s.len(),
    ensures
        i < line_end(s, i) <= s.len(),
    decreases s.len() - i,
{
    if s[i] != 10 {
        if i + 1 < s.len() {
            lemma_line_end_past(s, i + 1);
        } else {
            assert(line_end(s, i + 1) == i + 1);
        }
    }
}

/// A line without its `\n` terminator and a `\r` just before it.
pub open spec fn strip_newline(l: Seq<u8>) -> Seq<u8> {
    if l.len() > 0 && l.last() == 10 {
        let m = l.drop_last();
        if m.len() > 0 && m.last() == 13 {
            m.drop_last()
        } else {
            m
        }
    } else {
        l
    }
}

/// The content of the line of `s` that starts at `from`.
pub open spec fn line_content(s: Seq<u8>, from: int) -> Seq<u8> {
    strip_newline(s.subrange(from, line_end(s, from)))
}

/// Relies on `String::from_utf8`: it succeeds exactly on valid UTF-8, and
/// the string then holds the characters that the bytes encode.
#[verifier::external_body]
fn utf8_text(bytes: Vec<u8>) -> (r: Option<String>)
    ensures
        r is Some <==> valid_utf8(bytes@),
        r matches Some(s) ==> s@ == decode_utf8(bytes@),
{
    String::from_utf8(bytes).ok()
}

/// A token reader over a re-fillable byte source.
pub struct FastInput {
    source: ByteSource,
    pos: usize,
}

impl FastInput {
    /// All bytes of the input.
    pub closed spec fn data(&self) -> Seq<u8> {
        self.source.data()
    }

    /// How far the input has been read.
    pub closed spec fn cursor(&self) -> int {
        self.source.consumed() + self.pos
    }

    pub closed spec fn wf(&self) -> bool {
        &&& self.source.wf()
        &&& self.pos <= self.source.buffered()
    }

    /// The reader moved past the next token of `pre` and nothing else changed.
    pub open spec fn read_token_of(self, pre: FastInput) -> bool {
        &&& self.wf()
        &&& self.data() == pre.data()
        &&& self.cursor() == after_token(pre.data(), pre.cursor())
    }

    /// The outcome of reading the next token as an integer in `[lo, hi]`.
    pub open spec fn next_int(self, lo: int, hi: int) -> Result<int, ReadError> {
        int_outcome(next_token(self.data(), self.cursor()), lo, hi)
    }

    proof fn lemma_bounds(&self)
        requires
            self.wf(),
        ensures
            0 <= self.source.consumed() <= self.cursor() <= self.data().len(),
            self.cursor() + (self.source.buffered() - self.pos) <= self.data().len(),
    {
        self.source.lemma_bounds();
    }

    /// A reader over `data`, refilled in chunks of the default size.
    pub fn new(data: Vec<u8>) -> (r: FastInput)
        ensures
            r.wf(),
            r.data() == data@,
            r.cursor() == 0,
    {
        FastInput { source: ByteSource::new(data, DEFAULT_CHUNK), pos: 0 }
    }

    /// A reader over `data` whose source refills at most `chunk` bytes at a
    /// time (one where `chunk` is zero).
    pub fn with_chunk_size(data: Vec<u8>, chunk: usize) -> (r: FastInput)
        ensures
            r.wf(),
            r.data() == data@,
            r.cursor() == 0,
    {
        FastInput { source: ByteSource::new(data, chunk), pos: 0 }
    }

    /// Whether every byte of the input has been read.
    pub fn is_exhausted(&self) -> (r: bool)
        requires
            self.wf(),
        ensures
            r == (self.cursor() == self.data().len()),
    {
        proof {
            self.lemma_bounds();
        }
        self.source.is_drained() && self.pos == self.source.buffered_len()
    }

    /// Moves past whitespace, refilling as needed, to the next token's first
    /// byte (left buffered) or to the end.
    fn skip_space(&mut self)
        requires
            old(self).wf(),
        ensures
            final(self).wf(),
            final(self).data() == old(self).data(),
            final(self).cursor() == skip_spaces(old(self).data(), old(self).cursor()),
            final(self).cursor() < final(self).data().len() ==> final(self).pos
                < final(self).source.buffered(),
    {
        let ghost d = self.data();
        let ghost target = skip_spaces(d, self.cursor());
        loop
            invariant
                self.wf(),
                self.data() == d,
                skip_spaces(d, self.cursor()) == target,
            ensures
                self.wf(),
                self.data() == d,
                self.cursor() == target,
                self.cursor() < d.len() ==> self.pos < self.source.buffered(),
            decreases d.len() - self.source.consumed(),
        {
            let ghost c1 = self.source.consumed();
            let ghost c1 = self.source.consumed();
            let n = self.source.fill_buf();
            proof {
                self.lemma_bounds();
            }
            while self.pos < n
                invariant
                    self.wf(),
                    self.data() == d,
                    n == self.source.buffered(),
                    self.source.consumed() == c1,
                    n == 0 ==> c1 == d.len(),
                    skip_spaces(d, self.cursor()) == target,
                ensures
                    self.wf(),
                    self.data() == d,
                    n == self.source.buffered(),
                    self.source.consumed() == c1,
                    n == 0 ==> c1 == d.len(),
                    skip_spaces(d, self.cursor()) == target,
                    self.pos == n || !is_space(d[self.cursor()]),
                decreases n - self.pos,
            {
                proof {
                    self.lemma_bounds();
                }
                if self.source.byte(self.pos) > 32 {
                    break;
                }
                self.pos = self.pos + 1;
            }
            proof {
                self.lemma_bounds();
            }
            if self.pos < n || n == 0 {
                break;
            }
            self.source.consume(self.pos);
            self.pos = 0;
        }
    }

    /// Reads the next token into an accumulator, resuming across refills.
    fn scan_token(&mut self) -> (r: Scan)
        requires
            old(self).wf(),
        ensures
            final(self).read_token_of(*old(self)),
            r.wf(),
            r.bytes() == next_token(old(self).data(), old(self).cursor()),
    {
        let ghost d = self.data();
        self.skip_space();
        proof {
            self.lemma_bounds();
        }
        let ghost a = self.cursor();
        let mut scan = Scan::new();
        proof {
            assert(d.subrange(a, a) =~= Seq::<u8>::empty());
        }
        loop
            invariant
                self.wf(),
                self.data() == d,
                0 <= a <= self.cursor(),
                token_end(d, self.cursor()) == token_end(d, a),
                scan.wf(),
                scan.bytes() == d.subrange(a, self.cursor()),
            ensures
                self.wf(),
                self.data() == d,
                self.cursor() == token_end(d, a),
                scan.wf(),
                scan.bytes() == d.subrange(a, self.cursor()),
            decreases d.len() - self.source.consumed(),
        {
            let ghost c1 = self.source.consumed();
            let n = self.source.fill_buf();
            proof {
                self.lemma_bounds();
            }
            while self.pos < n
                invariant
                    self.wf(),
                    self.data() == d,
                    n == self.source.buffered(),
                    self.source.consumed() == c1,
                    n == 0 ==> c1 == d.len(),
                    0 <= a <= self.cursor(),
                    token_end(d, self.cursor()) == token_end(d, a),
                    scan.wf(),
                    scan.bytes() == d.subrange(a, self.cursor()),
                ensures
                    self.wf(),
                    self.data() == d,
                    n == self.source.buffered(),
                    self.source.consumed() == c1,
                    n == 0 ==> c1 == d.len(),
                    0 <= a <= self.cursor(),
                    token_end(d, self.cursor()) == token_end(d, a),
                    scan.wf(),
                    scan.bytes() == d.subrange(a, self.cursor()),
                    self.pos == n || is_space(d[self.cursor()]),
                decreases n - self.pos,
            {
                proof {
                    self.lemma_bounds();
                }
                let b = self.source.byte(self.pos);
                if b <= 32 {
                    break;
                }
                scan.push(b);
                proof {
                    assert(d.subrange(a, self.cursor() + 1) =~= d.subrange(a, self.cursor()).push(b));
                }
                self.pos = self.pos + 1;
            }
            proof {
                self.lemma_bounds();
            }
            if self.pos < n || n == 0 {
                break;
            }
            self.source.consume(self.pos);
            self.pos = 0;
        }
        scan
    }

    /// Reads the next token as an `i8`.
    pub fn token_i8(&mut self) -> (r: Result<i8, ReadError>)
        requires
            old(self).wf(),
        ensures
            final(self).read_token_of(*old(self)),
            match old(self).next_int(-128, 127) {
                Ok(v) => r == Ok::<i8, ReadError>(v as i8),
                Err(e) => r == Err::<i8, ReadError>(e),
            },
    {
        let scan = self.scan_token();
        match scan.int_result(-128, 127) {
            Ok(v) => Ok(v as i8),
            Err(e) => Err(e),
        }
    }

    /// Reads the next token as an `i16`.
    pub fn token_i16(&mut self) -> (r: Result<i16, ReadError>)
        requires
            old(self).wf(),
        ensures
            final(self).read_token_of(*old(self)),
            match old(self).next_int(-32768, 32767) {
                Ok(v) => r == Ok::<i16, ReadError>(v as i16),
                Err(e) => r == Err::<i16, ReadError>(e),
            },
    {
        let scan = self.scan_token();
        match scan.int_result(-32768, 32767) {
            Ok(v) => Ok(v as i16),
            Err(e) => Err(e),
        }
    }

    /// Reads the next token as an `i32`.
    pub fn token_i32(&mut self) -> (r: Result<i32, ReadError>)
        requires
            old(self).wf(),
        ensures
            final(self).read_token_of(*old(self)),
            match old(self).next_int(-2147483648, 2147483647) {
                Ok(v) => r == Ok::<i32, ReadError>(v as i32),
                Err(e) => r == Err::<i32, ReadError>(e),
            },
    {
        let scan = self.scan_token();
        match scan.int_result(-2147483648, 2147483647) {
            Ok(v) => Ok(v as i32),
            Err(e) => Err(e),
        }
    }

    /// Reads the next token as an `i64`.
    pub fn token_i64(&mut self) -> (r: Result<i64, ReadError>)
        requires
            old(self).wf(),
        ensures
            final(self).read_token_of(*old(self)),
            match old(self).next_int(-9223372036854775808, 9223372036854775807) {
                Ok(v) => r == Ok::<i64, ReadError>(v as i64),
                Err(e) => r == Err::<i64, ReadError>(e),
            },
    {
        let scan = self.scan_token();
        match scan.int_result(-9223372036854775808, 9223372036854775807) {
            Ok(v) => Ok(v as i64),
            Err(e) => Err(e),
        }
    }

    /// Reads the next token as a `u8`.
    pub fn token_u8(&mut self) -> (r: Result<u8, ReadError>)
        requires
            old(self).wf(),
        ensures
            final(self).read_token_of(*old(self)),
            match old(self).next_int(0, 255) {
                Ok(v) => r == Ok::<u8, ReadError>(v as u8),
                Err(e) => r == Err::<u8, ReadError>(e),
            },
    {
        let scan = self.scan_token();
        match scan.int_result(0, 255) {
            Ok(v) => Ok(v as u8),
            Err(e) => Err(e),
        }
    }

    /// Reads the next token as a `u16`.
    pub fn token_u16(&mut self) -> (r: Result<u16, ReadError>)
        requires
            old(self).wf(),
        ensures
            final(self).read_token_of(*old(self)),
            match old(self).next_int(0, 65535) {
                Ok(v) => r == Ok::<u16, ReadError>(v as u16),
                Err(e) => r == Err::<u16, ReadError>(e),
            },
    {
        let scan = self.scan_token();
        match scan.int_result(0, 65535) {
            Ok(v) => Ok(v as u16),
            Err(e) => Err(e),
        }
    }

    /// Reads the next token as a `u32`.
    pub fn token_u32(&mut self) -> (r: Result<u32, ReadError>)
        requires
            old(self).wf(),
        ensures
            final(self).read_token_of(*old(self)),
            match old(self).next_int(0, 4294967295) {
                Ok(v) => r == Ok::<u32, ReadError>(v as u32),
                Err(e) => r == Err::<u32, ReadError>(e),
            },
    {
        let scan = self.scan_token();
        match scan.int_result(0, 4294967295) {
            Ok(v) => Ok(v as u32),
            Err(e) => Err(e),
        }
    }

    /// Reads the next token as a `u64`.
    pub fn token_u64(&mut self) -> (r: Result<u64, ReadError>)
        requires
            old(self).wf(),
        ensures
            final(self).read_token_of(*old(self)),
            match old(self).next_int(0, 18446744073709551615) {
                Ok(v) => r == Ok::<u64, ReadError>(v as u64),
                Err(e) => r == Err::<u64, ReadError>(e),
            },
    {
        let scan = self.scan_token();
        match scan.int_result(0, 18446744073709551615) {
            Ok(v) => Ok(v as u64),
            Err(e) => Err(e),
        }
    }

    /// Reads the next token as a `usize`.
    pub fn token_usize(&mut self) -> (r: Result<usize, ReadError>)
        requires
            old(self).wf(),
        ensures
            final(self).read_token_of(*old(self)),
            match old(self).next_int(0, usize::MAX as int) {
                Ok(v) => r == Ok::<usize, ReadError>(v as usize),
                Err(e) => r == Err::<usize, ReadError>(e),
            },
    {
        let scan = self.scan_token();
        match scan.int_result(0, usize::MAX as i128) {
            Ok(v) => Ok(v as usize),
            Err(e) => Err(e),
        }
    }

    /// Reads the next token as an exact decimal: an optional `-`, digits and
    /// at most one `.`, with at least one digit.
    pub fn token_decimal(&mut self) -> (r: Result<Decimal, ReadError>)
        requires
            old(self).wf(),
        ensures
            final(self).read_token_of(*old(self)),
            r == decimal_outcome(next_token(old(self).data(), old(self).cursor())),
    {
        let scan = self.scan_token();
        scan.decimal_result()
    }

    /// Reads the next non-whitespace byte, as a one-byte token.
    pub fn token_byte(&mut self) -> (r: Result<u8, ReadError>)
        requires
            old(self).wf(),
        ensures
            final(self).wf(),
            final(self).data() == old(self).data(),
            ({
                let d = old(self).data();
                let a = skip_spaces(d, old(self).cursor());
                if a < d.len() {
                    r == Ok::<u8, ReadError>(d[a]) && final(self).cursor() == a + 1
                } else {
                    r == Err::<u8, ReadError>(ReadError::EndOfStream) && final(self).cursor() == a
                }
            }),
    {
        self.skip_space();
        proof {
            self.lemma_bounds();
        }
        if self.pos < self.source.buffered_len() {
            let b = self.source.byte(self.pos);
            self.pos = self.pos + 1;
            Ok(b)
        } else {
            Err(ReadError::EndOfStream)
        }
    }

    /// Reads the next token as its raw bytes.
    pub fn token_bytes(&mut self) -> (r: Result<Vec<u8>, ReadError>)
        requires
            old(self).wf(),
        ensures
            final(self).read_token_of(*old(self)),
            ({
                let t = next_token(old(self).data(), old(self).cursor());
                match r {
                    Ok(v) => t.len() > 0 && v@ == t,
                    Err(e) => t.len() == 0 && e == ReadError::EndOfStream,
                }
            }),
    {
        let ghost d = self.data();
        self.skip_space();
        proof {
            self.lemma_bounds();
        }
        let ghost a = self.cursor();
        let mut out: Vec<u8> = Vec::new();
        proof {
            assert(d.subrange(a, a) =~= Seq::<u8>::empty());
        }
        loop
            invariant
                self.wf(),
                self.data() == d,
                0 <= a <= self.cursor(),
                token_end(d, self.cursor()) == token_end(d, a),
                out@ == d.subrange(a, self.cursor()),
            ensures
                self.wf(),
                self.data() == d,
                self.cursor() == token_end(d, a),
                out@ == d.subrange(a, self.cursor()),
            decreases d.len() - self.source.consumed(),
        {
            let ghost c1 = self.source.consumed();
            let n = self.source.fill_buf();
            proof {
                self.lemma_bounds();
            }
            while self.pos < n
                invariant
                    self.wf(),
                    self.data() == d,
                    n == self.source.buffered(),
                    self.source.consumed() == c1,
                    n == 0 ==> c1 == d.len(),
                    0 <= a <= self.cursor(),
                    token_end(d, self.cursor()) == token_end(d, a),
                    out@ == d.subrange(a, self.cursor()),
                ensures
                    self.wf(),
                    self.data() == d,
                    n == self.source.buffered(),
                    self.source.consumed() == c1,
                    n == 0 ==> c1 == d.len(),
                    0 <= a <= self.cursor(),
                    token_end(d, self.cursor()) == token_end(d, a),
                    out@ == d.subrange(a, self.cursor()),
                    self.pos == n || is_space(d[self.cursor()]),
                decreases n - self.pos,
            {
                proof {
                    self.lemma_bounds();
                }
                let b = self.source.byte(self.pos);
                if b <= 32 {
                    break;
                }
                out.push(b);
                proof {
                    assert(out@ =~= d.subrange(a, self.cursor() + 1));
                }
                self.pos = self.pos + 1;
            }
            proof {
                self.lemma_bounds();
            }
            if self.pos < n || n == 0 {
                break;
            }
            self.source.consume(self.pos);
            self.pos = 0;
        }
        if out.len() == 0 {
            Err(ReadError::EndOfStream)
        } else {
            Ok(out)
        }
    }

    /// Reads the rest of the current line, from just past the last token read,
    /// and appends it to `buf` without
    /// its `\n` or `\r\n` terminator. Returns false, with `buf` unchanged,
    /// at the end of the input, and also where the line is not valid UTF-8
    /// (its bytes are still consumed).
    pub fn read_line(&mut self, buf: &mut String) -> (ok: bool)
        requires
            old(self).wf(),
        ensures
            final(self).wf(),
            final(self).data() == old(self).data(),
            final(self).cursor() == line_end(old(self).data(), old(self).cursor()),
            ({
                let d = old(self).data();
                let c = old(self).cursor();
                let l = line_content(d, c);
                if c < d.len() && valid_utf8(l) {
                    ok && final(buf)@ == old(buf)@ + decode_utf8(l)
                } else {
                    !ok && final(buf)@ == old(buf)@
                }
            }),
    {
        let ghost d = self.data();
        let ghost c = self.cursor();
        proof {
            self.lemma_bounds();
        }
        self.source.consume(self.pos);
        self.pos = 0;
        let mut line: Vec<u8> = Vec::new();
        let mut found = false;
        proof {
            assert(d.subrange(c, c) =~= Seq::<u8>::empty());
        }
        loop
            invariant
                self.wf(),
                self.pos == 0,
                self.data() == d,
                0 <= c <= self.cursor() <= d.len(),
                line@ == d.subrange(c, self.cursor()),
                !found ==> line_end(d, self.cursor()) == line_end(d, c),
                found ==> line_end(d, c) == self.cursor(),
            ensures
                self.wf(),
                self.data() == d,
                self.cursor() == line_end(d, c),
                line@ == d.subrange(c, self.cursor()),
            decreases d.len() - self.source.consumed(),
        {
            proof {
                self.lemma_bounds();
            }
            if found {
                break;
            }
            let ghost c1 = self.source.consumed();
            let n = self.source.fill_buf();
            proof {
                self.lemma_bounds();
            }
            if n == 0 {
                break;
            }
            let mut i: usize = 0;
            while i < n && !found
                invariant
                    self.wf(),
                    self.pos == 0,
                    self.data() == d,
                    n == self.source.buffered(),
                    self.source.consumed() == c1,
                    0 <= c <= c1,
                    i <= n,
                    found ==> i > 0,
                    c1 + n <= d.len(),
                    line@ == d.subrange(c, c1 + i),
                    !found ==> line_end(d, c1 + i) == line_end(d, c),
                    found ==> line_end(d, c) == c1 + i,
                decreases n - i,
            {
                let b = self.source.byte(i);
                line.push(b);
                proof {
                    assert(line@ =~= d.subrange(c, c1 + i + 1));
                }
                i = i + 1;
                if b == 10 {
                    found = true;
                }
            }
            self.source.consume(i);
        }
        if line.len() == 0 {
            proof {
                if c < d.len() {
                    lemma_line_end_past(d, c);
                }
            }
            return false;
        }
        let len = line.len();
        if line[len - 1] == 10 {
            line.pop();
            let len = line.len();
            if len > 0 && line[len - 1] == 13 {
                line.pop();
            }
        }
        proof {
            assert(line@ =~= line_content(d, c));
        }
        match utf8_text(line) {
            Some(text) => {
                buf.append(text.as_str());
                true
            },
            None => false,
        }
    }
}

} // verus!
