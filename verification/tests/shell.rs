use beatrice::shell::parser::{parse_bool, parse_u64, split_words, ArgError};
use beatrice::shell::{Command, ParseError, Parser};
use bytes::Bytes;

fn parse(line: &str) -> Result<Command, ParseError> {
    Parser::new().parse(line.to_string())
}

#[test]
fn put_takes_a_row_and_a_value() {
    match parse("put r1 v11\n") {
        Ok(Command::Put {
            row,
            timestamp,
            value,
        }) => {
            assert_eq!(row, Bytes::from("r1"));
            assert_eq!(timestamp, None);
            assert_eq!(value, Bytes::from("v11"));
        }
        other => panic!("{:?}", other),
    }
}

#[test]
fn put_takes_a_timestamp_between_row_and_value() {
    match parse("  put\tr1  +42 \r\n v ") {
        Ok(Command::Put {
            row,
            timestamp,
            value,
        }) => {
            assert_eq!(row, Bytes::from("r1"));
            assert_eq!(timestamp, Some(42));
            assert_eq!(value, Bytes::from("v"));
        }
        other => panic!("{:?}", other),
    }
    assert!(matches!(
        parse("put r 1x v"),
        Err(ParseError::ArgParseFailed {
            arg: "timestamp",
            pos: 2,
            e: ArgError::InvalidDigit
        })
    ));
    assert!(matches!(
        parse("put r"),
        Err(ParseError::WrongArgNum {
            cmd: "put",
            expected: 2,
            actual: 1
        })
    ));
    assert!(matches!(
        parse("put a b c d"),
        Err(ParseError::WrongArgNum {
            cmd: "put",
            expected: 2,
            actual: 4
        })
    ));
}

#[test]
fn get_takes_one_row() {
    match parse("get r\u{e9}") {
        Ok(Command::Get { row }) => assert_eq!(row, Bytes::from("r\u{e9}")),
        other => panic!("{:?}", other),
    }
    assert!(matches!(
        parse("get"),
        Err(ParseError::WrongArgNum {
            cmd: "get",
            expected: 1,
            actual: 0
        })
    ));
    assert!(matches!(
        parse("get a b"),
        Err(ParseError::WrongArgNum {
            cmd: "get",
            expected: 1,
            actual: 2
        })
    ));
}

#[test]
fn delete_takes_a_row_and_maybe_a_timestamp() {
    match parse("delete r") {
        Ok(Command::Delete { row, timestamp }) => {
            assert_eq!(row, Bytes::from("r"));
            assert_eq!(timestamp, None);
        }
        other => panic!("{:?}", other),
    }
    match parse("delete r 18446744073709551615") {
        Ok(Command::Delete { row, timestamp }) => {
            assert_eq!(row, Bytes::from("r"));
            assert_eq!(timestamp, Some(u64::MAX));
        }
        other => panic!("{:?}", other),
    }
    assert!(matches!(
        parse("delete r 18446744073709551616"),
        Err(ParseError::ArgParseFailed {
            arg: "timestamp",
            pos: 2,
            e: ArgError::Overflow
        })
    ));
    assert!(matches!(
        parse("delete"),
        Err(ParseError::WrongArgNum {
            cmd: "delete",
            expected: 1,
            actual: 0
        })
    ));
}

#[test]
fn flush_caches_unless_told_otherwise() {
    assert!(matches!(parse("flush"), Ok(Command::Flush { cache: true })));
    assert!(matches!(
        parse("flush false"),
        Ok(Command::Flush { cache: false })
    ));
    assert!(matches!(
        parse("flush true"),
        Ok(Command::Flush { cache: true })
    ));
    assert!(matches!(
        parse("flush TRUE"),
        Err(ParseError::ArgParseFailed {
            arg: "cache",
            pos: 1,
            e: ArgError::NotBool
        })
    ));
    assert!(matches!(
        parse("flush true false"),
        Err(ParseError::WrongArgNum {
            cmd: "flush",
            expected: 2,
            actual: 2
        })
    ));
}

#[test]
fn exit_takes_nothing() {
    assert!(matches!(parse("exit"), Ok(Command::Exit)));
    assert!(matches!(
        parse("exit now"),
        Err(ParseError::WrongArgNum {
            cmd: "exit",
            expected: 0,
            actual: 1
        })
    ));
}

#[test]
fn lines_without_a_command_are_told_apart() {
    assert!(matches!(parse(""), Err(ParseError::Empty)));
    assert!(matches!(parse(" \t\r\n\u{c}"), Err(ParseError::Empty)));
    match parse("Put r v") {
        Err(ParseError::Unknown(word)) => assert_eq!(word, b"Put".to_vec()),
        other => panic!("{:?}", other),
    }
    match parse("puts") {
        Err(ParseError::Unknown(word)) => assert_eq!(word, b"puts".to_vec()),
        other => panic!("{:?}", other),
    }
}

#[test]
fn words_part_at_ascii_whitespace_only() {
    let words = split_words(b" a\tbc\n\n d\x0c\re\x0b ");
    assert_eq!(
        words,
        vec![b"a".to_vec(), b"bc".to_vec(), b"d".to_vec(), b"e\x0b".to_vec()]
    );
    assert_eq!(split_words(b""), Vec::<Vec<u8>>::new());
    assert_eq!(split_words(b"x"), vec![b"x".to_vec()]);
}

#[test]
fn numbers_are_decimal() {
    assert_eq!(parse_u64(&b"0".to_vec()), Ok(0));
    assert_eq!(parse_u64(&b"007".to_vec()), Ok(7));
    assert_eq!(parse_u64(&b"+5".to_vec()), Ok(5));
    assert_eq!(parse_u64(&b"".to_vec()), Err(ArgError::InvalidDigit));
    assert_eq!(parse_u64(&b"+".to_vec()), Err(ArgError::InvalidDigit));
    assert_eq!(parse_u64(&b"-5".to_vec()), Err(ArgError::InvalidDigit));
    assert_eq!(parse_u64(&b"++5".to_vec()), Err(ArgError::InvalidDigit));
    assert_eq!(parse_u64(&b"5_000".to_vec()), Err(ArgError::InvalidDigit));
    assert_eq!(
        parse_u64(&b"99999999999999999999x".to_vec()),
        Err(ArgError::Overflow)
    );
    assert_eq!(
        parse_u64(&b"18446744073709551615".to_vec()),
        Ok(u64::MAX)
    );
    assert_eq!(parse_bool(&b"true".to_vec()), Ok(true));
    assert_eq!(parse_bool(&b"false".to_vec()), Ok(false));
    assert_eq!(parse_bool(&b"".to_vec()), Err(ArgError::NotBool));
    assert_eq!(parse_bool(&b"truee".to_vec()), Err(ArgError::NotBool));
}
