use torrent::primitives::{ErrorAt, ErrorKind, ParseError};
use torrent::torrent_file::parser::{
    parse_bencode_int, parse_bencode_string, parse_file_tree, parse_info_dict, parse_string_list,
};
use torrent::torrent_file::skip_values::skip_bencode_value;
use torrent::torrent_file::{FileLayout, FileTreeNode};

fn enc_string(x: &[u8]) -> Vec<u8> {
    let mut v = x.len().to_string().into_bytes();
    v.push(b':');
    v.extend_from_slice(x);
    v
}

#[test]
fn int_written_is_read_back() {
    for n in [0i64, 7, -7, 1234567, i64::MAX, i64::MIN] {
        let mut input = format!("i{}e", n).into_bytes();
        input.extend_from_slice(b"rest");
        assert_eq!(parse_bencode_int(&input), Ok((b"rest".as_slice(), n)));
    }
}

#[test]
fn string_written_is_read_back() {
    for x in [b"".as_slice(), b"a", b"hello world", &[0u8, 255, 58, 101]] {
        let mut input = enc_string(x);
        input.extend_from_slice(b"i1e");
        assert_eq!(parse_bencode_string(&input), Ok((b"i1e".as_slice(), x)));
    }
}

#[test]
fn string_list_written_is_read_back() {
    let xs: Vec<&[u8]> = vec![b"", b"docs", b"a:b", b"eee"];
    let mut input = b"l".to_vec();
    for x in &xs {
        input.extend(enc_string(x));
    }
    input.extend_from_slice(b"ex");
    assert_eq!(parse_string_list(&input), Ok((b"x".as_slice(), xs)));
}

#[test]
fn file_tree_read_is_well_formed() {
    // a pieces root of 31 bytes is refused
    let bad = b"d1:ad0:d6:lengthi1e11:pieces root31:aaaaaaaaaaaaaaaaaaaaaaaaaaaaaaaeee";
    assert_eq!(
        parse_file_tree(bad),
        Err(ParseError::Failure(ErrorAt {
            input: &bad[19..],
            code: ErrorKind::Fail
        }))
    );
    // an empty directory is refused
    assert!(parse_file_tree(b"d1:adee").is_err());
    // an empty top-level tree is read
    assert!(parse_file_tree(b"de").is_ok());
}

#[test]
fn info_read_is_well_formed() {
    let (_, info) = parse_info_dict(
        b"d5:filesld6:lengthi1e4:pathl1:aeee12:piece lengthi4e6:pieces20:aaaaaaaaaaaaaaaaaaaae",
    )
    .unwrap();
    match info.file_layout {
        FileLayout::V1MultiFile { pieces, files } => {
            assert_eq!(pieces.len() % 20, 0);
            assert!(!files.is_empty());
        }
        _ => panic!("expected a multi-file layout"),
    }
    // an empty file list is refused
    assert!(parse_info_dict(b"d5:filesle12:piece lengthi4e6:pieces20:aaaaaaaaaaaaaaaaaaaae").is_err());
}

#[test]
fn skip_passes_over_the_info_dictionary() {
    let input = b"d9:file treed1:ad0:d6:lengthi1eeee4:name1:x12:piece lengthi4eetail";
    let (rest, _) = parse_info_dict(input).unwrap();
    assert_eq!(rest, b"tail".as_slice());
    assert_eq!(skip_bencode_value(input), Ok((b"tail".as_slice(), ())));
    // with a `+` sign the parser reads the integer and the recogniser refuses it
    let plus = b"d12:piece lengthi+4e6:lengthi1e6:pieces0:e";
    assert!(parse_info_dict(plus).is_ok());
    assert!(skip_bencode_value(plus).is_err());
    // a `+` inside a string is no sign
    let in_string = b"d4:name2:i+12:piece lengthi4e6:lengthi1e6:pieces0:etail";
    assert_eq!(parse_info_dict(in_string).unwrap().0, b"tail".as_slice());
    assert_eq!(skip_bencode_value(in_string), Ok((b"tail".as_slice(), ())));
}

#[test]
fn info_field_order_and_unknown_fields_do_not_matter() {
    let a = parse_info_dict(b"d6:lengthi10e4:name1:x12:piece lengthi4e6:pieces20:aaaaaaaaaaaaaaaaaaaae");
    let b = parse_info_dict(b"d6:pieces20:aaaaaaaaaaaaaaaaaaaa12:piece lengthi4e4:name1:x6:lengthi10ee");
    let c = parse_info_dict(
        b"d6:lengthi10e7:privatei1e4:name1:x12:piece lengthi4e6:pieces20:aaaaaaaaaaaaaaaaaaaae",
    );
    // every field moved, and an unknown field added in the middle
    let d = parse_info_dict(
        b"d12:piece lengthi4e4:name1:x7:privatei1e6:pieces20:aaaaaaaaaaaaaaaaaaaa6:lengthi10ee",
    );
    assert!(a.is_ok());
    assert_eq!(a, b);
    assert_eq!(a, c);
    assert_eq!(a, d);
    // with a repeated known key the order matters: the later one wins
    let first = parse_info_dict(b"d6:lengthi1e6:lengthi2e12:piece lengthi4e6:pieces0:e");
    let second = parse_info_dict(b"d6:lengthi2e6:lengthi1e12:piece lengthi4e6:pieces0:e");
    assert_ne!(first, second);
}

#[test]
fn directory_node_holds_entries() {
    let (_, node) = torrent::torrent_file::parser::parse_file_tree_node(
        b"d1:bd0:d6:lengthi2eeee",
    )
    .unwrap();
    match node {
        FileTreeNode::Directory(m) => assert_eq!(m.len(), 1),
        _ => panic!("expected a directory"),
    }
}
