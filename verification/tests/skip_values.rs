use torrent::primitives::{ErrorAt, ErrorKind, ParseError};
use torrent::torrent_file::skip_values::skip_bencode_value;

fn err(code: ErrorKind, at: &[u8]) -> ParseError<'_> {
    ParseError::Error(ErrorAt { input: at, code })
}

fn fail(code: ErrorKind, at: &[u8]) -> ParseError<'_> {
    ParseError::Failure(ErrorAt { input: at, code })
}

// --- skip_bencode_value function tests ---

#[test]
fn test_empty_input() {
    assert!(skip_bencode_value(b"".as_slice()).is_err());
}

#[test]
fn test_invalid_tag() {
    assert!(skip_bencode_value(b"x23124e".as_slice()).is_err());
}

// --- skip_integer function tests ---

#[test]
fn test_skip_positive_integer() {
    assert_eq!(
        skip_bencode_value(b"i23456e5:Hello".as_slice()),
        Ok((b"5:Hello".as_slice(), ()))
    );
}

#[test]
fn test_skip_negative_integer() {
    assert_eq!(
        skip_bencode_value(b"i-23456e5:Hello".as_slice()),
        Ok((b"5:Hello".as_slice(), ()))
    );
}

// --- skip_list function tests ---

#[test]
fn test_skip_integer_list() {
    assert_eq!(
        skip_bencode_value(b"li432ei231155ei654345ee5:Hello".as_slice()),
        Ok((b"5:Hello".as_slice(), ()))
    );
}

#[test]
fn test_skip_string_list() {
    assert_eq!(
        skip_bencode_value(b"l5:Hello3:Bye3:hiie".as_slice()),
        Ok((b"".as_slice(), ()))
    );
}

#[test]
fn test_skip_invalid_members() {
    assert!(skip_bencode_value(b"lx32435ee".as_slice()).is_err());
}

#[test]
fn test_skip_nested_list() {
    assert_eq!(
        skip_bencode_value(
            b"lli432ei231155ei654345eel5:Hello3:Bye3:hiil5:abcdei12345eeee5:Hello".as_slice()
        ),
        Ok((b"5:Hello".as_slice(), ()))
    );
}

#[test]
fn test_invalid_tag_in_list() {
    assert!(skip_bencode_value(b"l5:Hello3:Byeli2324ex:5432ee".as_slice()).is_err());
}

// --- skip_dictionary function tests ---

#[test]
fn test_skip_dictionary_multi() {
    assert_eq!(
        skip_bencode_value(
            b"d5:Helloi23e3:Byelli432ei231155ei654345eel5:Hello3:Bye3:hiil5:abcdei12345eeeee"
                .as_slice()
        ),
        Ok((b"".as_slice(), ()))
    );
}

#[test]
fn test_odd_number_of_entries() {
    assert!(skip_bencode_value(b"d3:Abci12e5:Helloe".as_slice()).is_err());
}

#[test]
fn test_non_string_key() {
    assert!(skip_bencode_value(b"di244e3:Bye5:Helloi534ee".as_slice()).is_err());
}

// --- error kinds and edge cases ---

#[test]
fn skip_end_marker_is_recoverable_error() {
    assert_eq!(skip_bencode_value(b"e".as_slice()), Err(err(ErrorKind::Tag, b"e")));
    assert_eq!(skip_bencode_value(b"".as_slice()), Err(err(ErrorKind::Eof, b"")));
}

#[test]
fn skip_unknown_tag_is_failure() {
    assert_eq!(
        skip_bencode_value(b"x23124e".as_slice()),
        Err(fail(ErrorKind::Tag, b"x23124e"))
    );
    assert_eq!(
        skip_bencode_value(b"l5:Hello3:Byeli2324ex:5432ee".as_slice()),
        Err(fail(ErrorKind::Tag, b"x:5432ee"))
    );
    assert_eq!(
        skip_bencode_value(b"lx32435ee".as_slice()),
        Err(fail(ErrorKind::Tag, b"x32435ee"))
    );
}

#[test]
fn skip_malformed_integer_is_error() {
    assert_eq!(skip_bencode_value(b"ie".as_slice()), Err(err(ErrorKind::Digit, b"e")));
    assert_eq!(skip_bencode_value(b"i12".as_slice()), Err(err(ErrorKind::Tag, b"")));
    assert_eq!(skip_bencode_value(b"i+5e".as_slice()), Err(err(ErrorKind::Digit, b"+5e")));
}

#[test]
fn skip_string_exact_and_truncated() {
    assert_eq!(skip_bencode_value(b"3:abcX".as_slice()), Ok((b"X".as_slice(), ())));
    assert_eq!(skip_bencode_value(b"4:abc".as_slice()), Err(err(ErrorKind::Eof, b"abc")));
    assert_eq!(skip_bencode_value(b"3abc".as_slice()), Err(err(ErrorKind::Tag, b"abc")));
    assert_eq!(skip_bencode_value(b"0:".as_slice()), Ok((b"".as_slice(), ())));
}

#[test]
fn skip_dictionary_errors() {
    // a value missing after the last key ends the entries there
    assert_eq!(
        skip_bencode_value(b"d3:Abci12e5:Helloe".as_slice()),
        Err(err(ErrorKind::Tag, b"5:Helloe"))
    );
    // a key that is an integer, a list or a dictionary is refused, recoverably
    assert_eq!(
        skip_bencode_value(b"di244e3:Bye5:Helloi534ee".as_slice()),
        Err(err(ErrorKind::Tag, b"i244e3:Bye5:Helloi534ee"))
    );
    assert_eq!(
        skip_bencode_value(b"dle1:ae".as_slice()),
        Err(err(ErrorKind::Tag, b"le1:ae"))
    );
    // a key whose first byte starts no value is fatal
    assert_eq!(skip_bencode_value(b"dxe".as_slice()), Err(fail(ErrorKind::Tag, b"xe")));
    // a fatal error inside a value is passed on
    assert_eq!(
        skip_bencode_value(b"d1:alxee".as_slice()),
        Err(fail(ErrorKind::Tag, b"xee"))
    );
    // an unterminated dictionary
    assert_eq!(skip_bencode_value(b"d1:ai1e".as_slice()), Err(err(ErrorKind::Tag, b"")));
}

#[test]
fn skip_empty_containers() {
    assert_eq!(skip_bencode_value(b"lerest".as_slice()), Ok((b"rest".as_slice(), ())));
    assert_eq!(skip_bencode_value(b"de".as_slice()), Ok((b"".as_slice(), ())));
    assert_eq!(skip_bencode_value(b"l".as_slice()), Err(err(ErrorKind::Tag, b"")));
}

#[test]
fn skip_is_unaffected_by_what_follows() {
    let value = b"d3:keyli1e2:abee";
    for tail in [b"".as_slice(), b"xyz".as_slice(), b"i1e".as_slice()] {
        let mut input = value.to_vec();
        input.extend_from_slice(tail);
        assert_eq!(skip_bencode_value(input.as_slice()), Ok((tail, ())));
    }
}
