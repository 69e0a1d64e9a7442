use fast_input::input::FastInput;
use fast_input::token::{Decimal, ReadError};

fn reader(text: &str) -> FastInput {
    FastInput::new(text.as_bytes().to_vec())
}

fn chunked(text: &str, chunk: usize) -> FastInput {
    FastInput::with_chunk_size(text.as_bytes().to_vec(), chunk)
}

#[test]
fn integer_tokens_read_their_value() {
    assert_eq!(reader("42").token_i32(), Ok(42));
    assert_eq!(reader("-42").token_i32(), Ok(-42));
    assert_eq!(reader("0").token_u8(), Ok(0));
    assert_eq!(reader("255").token_u8(), Ok(255));
    assert_eq!(reader("-128").token_i8(), Ok(-128));
    assert_eq!(reader("127").token_i8(), Ok(127));
    assert_eq!(reader("-32768").token_i16(), Ok(-32768));
    assert_eq!(reader("65535").token_u16(), Ok(65535));
    assert_eq!(reader("-2147483648").token_i32(), Ok(i32::MIN));
    assert_eq!(reader("4294967295").token_u32(), Ok(u32::MAX));
    assert_eq!(reader("-9223372036854775808").token_i64(), Ok(i64::MIN));
    assert_eq!(reader("9223372036854775807").token_i64(), Ok(i64::MAX));
    assert_eq!(reader("18446744073709551615").token_u64(), Ok(u64::MAX));
    assert_eq!(reader("123456789").token_usize(), Ok(123456789));
    assert_eq!(reader("007").token_i64(), Ok(7));
}

#[test]
fn out_of_range_tokens_are_reported() {
    assert_eq!(reader("128").token_i8(), Err(ReadError::OutOfRange));
    assert_eq!(reader("-129").token_i8(), Err(ReadError::OutOfRange));
    assert_eq!(reader("256").token_u8(), Err(ReadError::OutOfRange));
    assert_eq!(reader("-1").token_u32(), Err(ReadError::OutOfRange));
    assert_eq!(reader("2147483648").token_i32(), Err(ReadError::OutOfRange));
    assert_eq!(reader("18446744073709551616").token_u64(), Err(ReadError::OutOfRange));
    assert_eq!(reader("99999999999999999999999").token_i64(), Err(ReadError::OutOfRange));
}

#[test]
fn negative_zero_is_zero() {
    assert_eq!(reader("-0").token_u32(), Ok(0));
    assert_eq!(reader("-0").token_i32(), Ok(0));
}

#[test]
fn malformed_tokens_are_reported() {
    assert_eq!(reader("12a").token_i32(), Err(ReadError::Malformed));
    assert_eq!(reader("-").token_i32(), Err(ReadError::Malformed));
    assert_eq!(reader("1-2").token_i32(), Err(ReadError::Malformed));
    assert_eq!(reader("--1").token_i32(), Err(ReadError::Malformed));
    assert_eq!(reader("5.5").token_i32(), Err(ReadError::Malformed));
    assert_eq!(reader("1.2.3").token_decimal(), Err(ReadError::Malformed));
    assert_eq!(reader(".").token_decimal(), Err(ReadError::Malformed));
}

#[test]
fn malformed_token_is_still_consumed() {
    let mut r = reader("x1 7");
    assert_eq!(r.token_i32(), Err(ReadError::Malformed));
    assert_eq!(r.token_i32(), Ok(7));
}

#[test]
fn end_of_stream_is_distinct_from_zero() {
    let mut r = reader("0");
    assert_eq!(r.token_i32(), Ok(0));
    assert_eq!(r.token_i32(), Err(ReadError::EndOfStream));
    assert_eq!(reader("").token_u64(), Err(ReadError::EndOfStream));
    assert_eq!(reader(" \n\t\r ").token_i8(), Err(ReadError::EndOfStream));
    assert_eq!(reader("").token_decimal(), Err(ReadError::EndOfStream));
    assert_eq!(reader("   ").token_bytes(), Err(ReadError::EndOfStream));
    assert_eq!(reader("\n").token_byte(), Err(ReadError::EndOfStream));
}

#[test]
fn decimal_tokens_are_exact() {
    assert_eq!(
        reader("5.5").token_decimal(),
        Ok(Decimal { negative: false, mantissa: 55, scale: 1 })
    );
    assert_eq!(
        reader("-3.14159").token_decimal(),
        Ok(Decimal { negative: true, mantissa: 314159, scale: 5 })
    );
    assert_eq!(
        reader("42").token_decimal(),
        Ok(Decimal { negative: false, mantissa: 42, scale: 0 })
    );
    assert_eq!(
        reader(".25").token_decimal(),
        Ok(Decimal { negative: false, mantissa: 25, scale: 2 })
    );
    assert_eq!(
        reader("7.").token_decimal(),
        Ok(Decimal { negative: false, mantissa: 7, scale: 0 })
    );
    assert_eq!(
        reader("0.000").token_decimal(),
        Ok(Decimal { negative: false, mantissa: 0, scale: 3 })
    );
    assert_eq!(
        reader("18446744073709551616.5").token_decimal(),
        Err(ReadError::OutOfRange)
    );
}

#[test]
fn mixed_tokens_in_order() {
    let mut r = reader("12 -34 5.5\n");
    assert_eq!(r.token_i32(), Ok(12));
    assert_eq!(r.token_i64(), Ok(-34));
    assert_eq!(
        r.token_decimal(),
        Ok(Decimal { negative: false, mantissa: 55, scale: 1 })
    );
    assert_eq!(r.token_i32(), Err(ReadError::EndOfStream));
    assert!(r.is_exhausted());
}

#[test]
fn token_split_across_small_chunks() {
    let text = "  123456789 -987654321\t3.25\nword ";
    for chunk in [0usize, 1, 2, 3, 5, 7, 64] {
        let mut r = chunked(text, chunk);
        assert_eq!(r.token_i64(), Ok(123456789));
        assert_eq!(r.token_i32(), Ok(-987654321));
        assert_eq!(
            r.token_decimal(),
            Ok(Decimal { negative: false, mantissa: 325, scale: 2 })
        );
        assert_eq!(r.token_bytes(), Ok(b"word".to_vec()));
        assert_eq!(r.token_i32(), Err(ReadError::EndOfStream));
    }
}

#[test]
fn raw_bytes_and_single_bytes() {
    let mut r = chunked("  hello\tx yz", 2);
    assert_eq!(r.token_bytes(), Ok(b"hello".to_vec()));
    assert_eq!(r.token_byte(), Ok(b'x'));
    assert_eq!(r.token_byte(), Ok(b'y'));
    assert_eq!(r.token_byte(), Ok(b'z'));
    assert_eq!(r.token_byte(), Err(ReadError::EndOfStream));
}

#[test]
fn line_with_crlf_is_stripped() {
    let mut r = reader("abc\r\n");
    let mut buf = String::new();
    assert!(r.read_line(&mut buf));
    assert_eq!(buf, "abc");
    let mut rest = String::new();
    assert!(!r.read_line(&mut rest));
    assert_eq!(rest, "");
}

#[test]
fn empty_input_gives_no_line() {
    let mut r = reader("");
    let mut buf = String::from("kept");
    assert!(!r.read_line(&mut buf));
    assert_eq!(buf, "kept");
}

#[test]
fn bare_newline_is_an_empty_line() {
    let mut r = reader("\n");
    let mut buf = String::new();
    assert!(r.read_line(&mut buf));
    assert_eq!(buf, "");
    assert!(r.is_exhausted());
}

#[test]
fn line_appends_and_keeps_inner_carriage_returns() {
    let mut r = chunked("a\rb\nlast", 1);
    let mut buf = String::from(">");
    assert!(r.read_line(&mut buf));
    assert_eq!(buf, ">a\rb");
    let mut tail = String::new();
    assert!(r.read_line(&mut tail));
    assert_eq!(tail, "last");
}

#[test]
fn line_decodes_utf8() {
    let mut r = reader("h\u{e9}llo \u{4e16}\n");
    let mut buf = String::new();
    assert!(r.read_line(&mut buf));
    assert_eq!(buf, "h\u{e9}llo \u{4e16}");
}

#[test]
fn invalid_utf8_line_fails_and_is_consumed() {
    let mut r = FastInput::new(vec![b'a', 0xff, b'\n', b'o', b'k']);
    let mut buf = String::new();
    assert!(!r.read_line(&mut buf));
    assert_eq!(buf, "");
    assert!(r.read_line(&mut buf));
    assert_eq!(buf, "ok");
}

#[test]
fn line_after_token_starts_at_the_cursor() {
    let mut r = reader("5 rest of line\nnext\n");
    assert_eq!(r.token_i32(), Ok(5));
    let mut buf = String::new();
    assert!(r.read_line(&mut buf));
    assert_eq!(buf, " rest of line");
}

#[test]
fn count_then_list() {
    for chunk in [1usize, 3, 8192] {
        let mut r = chunked("3\n1 2 3\n", chunk);
        let mut line = String::new();
        assert!(r.read_line(&mut line));
        assert_eq!(line, "3");
        let mut head = FastInput::new(line.into_bytes());
        let n = head.token_usize().unwrap();
        assert_eq!(n, 3);
        let mut items = Vec::new();
        for _ in 0..n {
            items.push(r.token_i32().unwrap());
        }
        assert_eq!(items, vec![1, 2, 3]);
        assert_eq!(r.token_i32(), Err(ReadError::EndOfStream));
    }
}
