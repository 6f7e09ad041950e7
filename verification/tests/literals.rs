use cuebasic::decode::from_binary;
use cuebasic::decode::from_decimal;
use cuebasic::decode::from_float;
use cuebasic::decode::from_hex;
use cuebasic::decode::from_octal;
use cuebasic::decode::from_si;
use cuebasic::decode::from_string;
use cuebasic::decode::DecodeError;
use cuebasic::lex;
use cuebasic::lex_partial;
use cuebasic::lex::LexReason;
use cuebasic::Decimal;
use cuebasic::Integer;
use cuebasic::Token;
use cuebasic::Value;

fn whole(text: &str) -> Integer {
    from_decimal(text).unwrap()
}

#[test]
fn si_literals() {
    assert_eq!(from_si("1Ki"), Ok(whole("1024")));
    assert_eq!(from_si("1.5K"), Ok(whole("1500")));
    assert_eq!(from_si("1.5Ki"), Ok(whole("1536")));
    assert_eq!(from_si("1.0005Ki"), Err(DecodeError::NotIntegral));
    assert_eq!(from_si("0.0001K"), Err(DecodeError::NotIntegral));
    assert_eq!(from_si("1.5"), Err(DecodeError::Malformed));
}

#[test]
fn si_scales() {
    assert_eq!(from_si("2K"), Ok(whole("2000")));
    assert_eq!(from_si("2M"), Ok(whole("2000000")));
    assert_eq!(from_si("2G"), Ok(whole("2000000000")));
    assert_eq!(from_si("2T"), Ok(whole("2000000000000")));
    assert_eq!(from_si("2P"), Ok(whole("2000000000000000")));
    assert_eq!(from_si("2Ki"), Ok(whole("2048")));
    assert_eq!(from_si("2Mi"), Ok(whole("2097152")));
    assert_eq!(from_si("2Gi"), Ok(whole("2147483648")));
    assert_eq!(from_si("2Ti"), Ok(whole("2199023255552")));
    assert_eq!(from_si("2Pi"), Ok(whole("2251799813685248")));
}

#[test]
fn si_mantissas() {
    assert_eq!(from_si("-1.5K"), Ok(whole("-1500")));
    assert_eq!(from_si("1_0.2_5K"), Err(DecodeError::Unreadable));
    assert_eq!(from_si("1_000K"), Err(DecodeError::Unreadable));
    assert_eq!(from_si("1.5_0Ki"), Err(DecodeError::Unreadable));
    assert_eq!(from_si("10.25K"), Ok(whole("10250")));
    assert_eq!(from_si(".25K"), Ok(whole("250")));
    assert_eq!(from_si("-.125Ki"), Ok(whole("-128")));
    assert_eq!(from_si(".5K"), Err(DecodeError::Malformed));
    assert_eq!(from_si("0K"), Ok(whole("0")));
    assert_eq!(from_si("-0.000K"), Ok(whole("0")));
    assert_eq!(from_si("0.001K"), Ok(whole("1")));
    assert_eq!(
        from_si("123456789012345678901234567890.5P"),
        Ok(whole("123456789012345678901234567890500000000000000"))
    );
    assert_eq!(from_si("1.00000000000000000001K"), Err(DecodeError::NotIntegral));
}

#[test]
fn decimal_literals() {
    assert_eq!(whole("0").to_text(), "0");
    assert_eq!(whole("-0").to_text(), "0");
    assert_eq!(whole("1_000_000").to_text(), "1000000");
    assert_eq!(whole("-42").to_text(), "-42");
    assert_eq!(
        whole("123456789012345678901234567890").to_text(),
        "123456789012345678901234567890"
    );
    assert_eq!(from_decimal("012"), Err(DecodeError::Malformed));
    assert_eq!(from_decimal("_1"), Err(DecodeError::Malformed));
    assert_eq!(from_decimal("1.5"), Err(DecodeError::Malformed));
    assert_eq!(from_decimal(""), Err(DecodeError::Malformed));
    assert_eq!(from_decimal("-"), Err(DecodeError::Malformed));
}

#[test]
fn literals_with_a_base_prefix() {
    assert_eq!(from_binary("0b1010"), Ok(whole("10")));
    assert_eq!(from_binary("0b1_0"), Ok(whole("2")));
    assert_eq!(from_octal("0o17"), Ok(whole("15")));
    assert_eq!(from_hex("0xff"), Ok(whole("255")));
    assert_eq!(from_hex("0XFF_ff"), Ok(whole("65535")));
    assert_eq!(from_hex("0xffffffffffffffffffff"), Ok(whole("1208925819614629174706175")));
    assert_eq!(from_binary("0b102"), Err(DecodeError::Malformed));
    assert_eq!(from_binary("-0b1"), Err(DecodeError::Malformed));
    assert_eq!(from_octal("0o8"), Err(DecodeError::Malformed));
    assert_eq!(from_hex("0xg"), Err(DecodeError::Malformed));
    assert_eq!(from_hex("0x"), Err(DecodeError::Malformed));
}

#[test]
fn float_without_fraction_shows_a_zero_after_the_point() {
    assert_eq!(from_float("5.").unwrap().to_text(), "5.0");
    assert_eq!(from_float("5e0").unwrap().to_text(), "5.0");
    assert_eq!(from_float("5.0").unwrap().to_text(), "5.0");
    assert_eq!(whole("5").to_text(), "5");
    assert_eq!(Value::Float(from_float("5.").unwrap()).to_text(), "5.0");
    assert_eq!(Value::Int(whole("5")).to_text(), "5");
}

#[test]
fn float_literals() {
    assert_eq!(from_float("1.5").unwrap().to_text(), "1.5");
    assert_eq!(from_float("-0.25").unwrap().to_text(), "-0.25");
    assert_eq!(from_float(".5").unwrap().to_text(), "0.5");
    assert_eq!(from_float("1.50").unwrap().to_text(), "1.5");
    assert_eq!(from_float("50.0").unwrap().to_text(), "50.0");
    assert_eq!(from_float("0.0").unwrap().to_text(), "0.0");
    assert_eq!(from_float("1.5e3").unwrap().to_text(), "1500.0");
    assert_eq!(from_float("1e-2").unwrap().to_text(), "0.01");
    assert_eq!(from_float("12345678.9").unwrap().to_text(), "1.23456789e7");
    assert_eq!(from_float("1e10").unwrap().to_text(), "1e10.0");
    assert_eq!(from_float("1.5E+2").unwrap(), from_float("150.").unwrap());
    assert_eq!(from_float("1.5").unwrap(), Decimal::parse("1.5").unwrap());
}

#[test]
fn floats_that_are_not_decoded() {
    assert_eq!(from_float("1_0.5"), Err(DecodeError::Unreadable));
    assert_eq!(from_float("1.5e1_0"), Err(DecodeError::Unreadable));
    assert_eq!(from_float("1e99999999999999999999999999"), Err(DecodeError::Unreadable));
    assert_eq!(from_float("15"), Err(DecodeError::Malformed));
    assert_eq!(from_float("1.5K"), Err(DecodeError::Malformed));
    assert_eq!(from_float("e5"), Err(DecodeError::Malformed));
}

#[test]
fn equal_numbers_are_equal_values() {
    assert!(from_float("1.50").unwrap().equals(&from_float("15e-1").unwrap()));
    assert!(!from_float("1.5").unwrap().equals(&from_float("-1.5").unwrap()));
    assert!(from_float("0.0").unwrap().equals(&from_float("-0e5").unwrap()));
    assert!(whole("1_0").equals(&from_hex("0xa").unwrap()));
    assert!(!whole("10").equals(&whole("-10")));
    assert!(Value::Int(whole("7")).equals(&Value::Int(from_si("0.007K").unwrap())));
    assert!(!Value::Int(whole("5")).equals(&Value::Float(from_float("5.0").unwrap())));
}

#[test]
fn string_literals() {
    assert_eq!(from_string("\"abc\""), Ok("abc".to_string()));
    assert_eq!(from_string("'a\"c'"), Ok("a\"c".to_string()));
    assert_eq!(from_string("\"a\\\"c\""), Ok("a\\\"c".to_string()));
    assert_eq!(from_string("\"a\\nb\""), Ok("a\\nb".to_string()));
    assert_eq!(from_string("''"), Ok(String::new()));
    assert_eq!(from_string("\"é✓\""), Ok("é✓".to_string()));
    assert_eq!(from_string("\"abc"), Err(DecodeError::Malformed));
    assert_eq!(from_string("'a'b'"), Err(DecodeError::Malformed));
    assert_eq!(from_string("abc"), Err(DecodeError::Malformed));
    assert_eq!(from_string("\"a\\\""), Err(DecodeError::Malformed));
}

#[test]
fn tokens_of_a_line() {
    assert_eq!(
        lex("a: [1, 2.5, 'x', null, true, false] // c\n").unwrap(),
        vec![
            Token::Ident("a".to_string()),
            Token::Colon,
            Token::OpenBracket,
            Token::Int(whole("1")),
            Token::Comma,
            Token::Float(from_float("2.5").unwrap()),
            Token::Comma,
            Token::String("x".to_string()),
            Token::Comma,
            Token::Null,
            Token::Comma,
            Token::Bool(true),
            Token::Comma,
            Token::Bool(false),
            Token::CloseBracket,
            Token::Newline,
        ]
    );
}

#[test]
fn tokens_take_the_longest_match() {
    assert_eq!(lex("nullable").unwrap(), vec![Token::Ident("nullable".to_string())]);
    assert_eq!(lex("null").unwrap(), vec![Token::Null]);
    assert_eq!(lex("_#id #x $y _").unwrap().len(), 4);
    assert_eq!(lex("0x1F").unwrap(), vec![Token::Int(whole("31"))]);
    assert_eq!(lex("12K").unwrap(), vec![Token::Int(whole("12000"))]);
    assert_eq!(
        lex("12Kb").unwrap(),
        vec![Token::Int(whole("12000")), Token::Ident("b".to_string())]
    );
    assert_eq!(lex("1.5e3").unwrap(), vec![Token::Float(from_float("1500.").unwrap())]);
    assert_eq!(
        lex("1e+").unwrap_err().offset,
        2
    );
    assert_eq!(lex("0123").unwrap(), vec![Token::Int(whole("0")), Token::Int(whole("123"))]);
    assert_eq!(lex(".5").unwrap(), vec![Token::Float(from_float("0.5").unwrap())]);
    assert_eq!(lex("'a'.'b'").unwrap().len(), 3);
    assert_eq!(lex("{}\r\n").unwrap().len(), 4);
}

#[test]
fn lexer_errors_name_the_slice() {
    let e = lex("a: 1.5_0\n").unwrap_err();
    assert_eq!(e.offset, 3);
    assert_eq!(e.slice, "1.5_0");
    assert_eq!(e.reason, LexReason::Literal(DecodeError::Unreadable));
    let e = lex("a: 1.0005Ki").unwrap_err();
    assert_eq!(e.offset, 3);
    assert_eq!(e.slice, "1.0005Ki");
    assert_eq!(e.reason, LexReason::Literal(DecodeError::NotIntegral));
    let e = lex("a: é").unwrap_err();
    assert_eq!(e.offset, 3);
    assert_eq!(e.slice, "é");
    assert_eq!(e.reason, LexReason::Unrecognized);
    let e = lex("a: 1 // no line end").unwrap_err();
    assert_eq!((e.offset, e.reason), (5, LexReason::Unrecognized));
    let e = lex("a: 'open").unwrap_err();
    assert_eq!((e.offset, e.reason), (3, LexReason::Unrecognized));
}

#[test]
fn whole_number_arithmetic() {
    assert_eq!(Integer::zero().to_text(), "0");
    assert_eq!(whole("12").negate(), whole("-12"));
    assert_eq!(whole("-12").negate(), whole("12"));
    assert_eq!(whole("0").negate(), whole("0"));
    assert_eq!(whole("1500").div_pow10_exact(2), Some(whole("15")));
    assert_eq!(whole("-1500").div_pow10_exact(2), Some(whole("-15")));
    assert_eq!(whole("1500").div_pow10_exact(3), None);
    assert_eq!(whole("1500").div_pow10_exact(7), None);
    assert_eq!(whole("0").div_pow10_exact(7), Some(whole("0")));
    assert_eq!(whole("42").div_pow10_exact(0), Some(whole("42")));
    assert_eq!(whole("42").clone(), whole("42"));
}

#[test]
fn tokens_before_a_failure() {
    let (tokens, failure) = lex_partial("a: [1, 2.5_0, 3]");
    assert_eq!(
        tokens,
        vec![
            Token::Ident("a".to_string()),
            Token::Colon,
            Token::OpenBracket,
            Token::Int(whole("1")),
            Token::Comma,
        ]
    );
    let e = failure.unwrap();
    assert_eq!((e.offset, e.slice.as_str()), (7, "2.5_0"));
    assert_eq!(Some(e), lex("a: [1, 2.5_0, 3]").err());
    let (all, none) = lex_partial("a: 1_0K\n");
    assert_eq!(all, vec![Token::Ident("a".to_string()), Token::Colon]);
    assert_eq!(none.unwrap().reason, LexReason::Literal(DecodeError::Unreadable));
    let (all, none) = lex_partial("a: 1\n");
    assert_eq!(Ok(all), lex("a: 1\n"));
    assert!(none.is_none());
}
