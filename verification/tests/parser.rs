use torrent::primitives::{ErrorAt, ErrorKind, ParseError};
use torrent::torrent_file::parser::{
    parse_bencode_int, parse_bencode_string, parse_file_entry, parse_file_tree,
    parse_file_tree_node, parse_files_list, parse_info_dict, parse_string_list,
};
use torrent::torrent_file::skip_values::skip_bencode_value;
use torrent::torrent_file::{ByteMap, FileLayout, FileTreeNode, FileV1, Info};

fn err(code: ErrorKind, at: &[u8]) -> ParseError<'_> {
    ParseError::Error(ErrorAt { input: at, code })
}

fn fail(code: ErrorKind, at: &[u8]) -> ParseError<'_> {
    ParseError::Failure(ErrorAt { input: at, code })
}

// --- Integer Parser Tests ---

#[test]
fn test_parse_int_standard() {
    assert_eq!(
        parse_bencode_int(b"i234451e"),
        Ok((b"".as_slice(), 234451i64))
    );
}

#[test]
fn test_parse_int_zero() {
    assert_eq!(parse_bencode_int(b"i0e"), Ok((b"".as_slice(), 0)));
}

#[test]
fn test_parse_int_overflow_protection() {
    assert!(parse_bencode_int(b"i9999999999999999999999999e").is_err());
}

// --- String Parser Tests ---

#[test]
fn test_parse_string_standard() {
    assert_eq!(
        parse_bencode_string(b"8:abcdefgh"),
        Ok((b"".as_slice(), b"abcdefgh".as_slice()))
    );
}

#[test]
fn test_parse_string_empty_boundary() {
    assert_eq!(
        parse_bencode_string(b"0:"),
        Ok((b"".as_slice(), b"".as_slice()))
    );
}

#[test]
fn test_parse_string_truncation_handling() {
    assert!(parse_bencode_string(b"7:abcde".as_slice()).is_err());
}

// --- String List Parser Tests ---

#[test]
fn test_parse_string_list_standard() {
    let expected: Vec<&[u8]> = vec![b"Hello", b"Bye", b"Hi"];
    assert_eq!(
        parse_string_list(b"l5:Hello3:Bye2:Hie"),
        Ok((b"".as_slice(), expected))
    );
}

#[test]
fn test_string_list_remaining_input() {
    let expected: Vec<&[u8]> = vec![b"Hello", b"Bye", b"Hi"];
    assert_eq!(
        parse_string_list(b"l5:Hello3:Bye2:Hie7:remains"),
        Ok((b"7:remains".as_slice(), expected))
    );
}

#[test]
fn test_string_list_empty_list() {
    assert_eq!(parse_string_list(b"le"), Ok((b"".as_slice(), vec![])));
}

#[test]
fn test_string_list_non_string_elements() {
    assert!(parse_string_list(b"li123e5:Helloe").is_err());
}

// --- File entry parser tests ---

#[test]
fn test_file_entry_standard() {
    let expected_path: Vec<&[u8]> = vec![b"docs", b"notes", b"ab.txt"];
    assert_eq!(
        parse_file_entry(b"d6:lengthi345e4:pathl4:docs5:notes6:ab.txtee"),
        Ok((
            b"".as_slice(),
            FileV1 {
                length: 345usize,
                path: expected_path
            }
        ))
    );
}

#[test]
fn test_file_entry_unordered() {
    let expected_path: Vec<&[u8]> = vec![b"docs", b"notes", b"ab.txt"];
    assert_eq!(
        parse_file_entry(b"d4:pathl4:docs5:notes6:ab.txte6:lengthi345ee"),
        Ok((
            b"".as_slice(),
            FileV1 {
                length: 345usize,
                path: expected_path
            }
        ))
    );
}

// --- File tree parser tests ---

#[test]
fn test_file_tree_single_file() {
    let mut expected_tree = ByteMap::new();
    expected_tree.insert(
        b"frac.rs".as_slice(),
        FileTreeNode::File {
            length: 556,
            pieces_root: Some(b"aaaaaaaaaabbbbbbbbbbccccccccccdd"),
        },
    );

    assert_eq!(
        parse_file_tree(
            b"d7:frac.rsd0:d6:lengthi556e11:pieces root32:aaaaaaaaaabbbbbbbbbbccccccccccddeee"
                .as_slice()
        ),
        Ok((b"".as_slice(), expected_tree))
    );
}

#[test]
fn test_parse_file_tree_nested() {
    let mut file_a = ByteMap::new();
    let mut dir2 = ByteMap::new();
    let mut dir1 = ByteMap::new();

    file_a.insert(
        b"fileA.txt".as_slice(),
        FileTreeNode::File {
            length: 1024,
            pieces_root: Some(b"aaaaaaaaaaaaaaaaaaaaaaaaaaaaaaaa"),
        },
    );

    dir2.insert(b"dir2".as_slice(), FileTreeNode::Directory(file_a));
    dir1.insert(b"dir1".as_slice(), FileTreeNode::Directory(dir2));

    assert_eq!(parse_file_tree(b"d4:dir1d4:dir2d9:fileA.txtd0:d6:lengthi1024e11:pieces root32:aaaaaaaaaaaaaaaaaaaaaaaaaaaaaaaaeeeee".as_slice()), Ok((b"".as_slice(), dir1)));
}

#[test]
fn test_parse_file_tree_multi_nested() {
    let hash_a: &[u8] = &[b'a'; 32];
    let hash_b: &[u8] = &[b'b'; 32];
    let hash_c: &[u8] = &[b'c'; 32];
    let hash_f: &[u8] = &[b'f'; 32];

    let readme = FileTreeNode::File {
        length: 128,
        pieces_root: Some(hash_a),
    };
    let guide = FileTreeNode::File {
        length: 1024,
        pieces_root: Some(hash_b),
    };
    let main_rs = FileTreeNode::File {
        length: 512,
        pieces_root: Some(hash_c),
    };
    let utils_rs = FileTreeNode::File {
        length: 256,
        pieces_root: Some(hash_f),
    };

    let mut docs_map = ByteMap::new();
    docs_map.insert(b"guide.txt".as_slice(), guide);

    let mut src_map = ByteMap::new();
    src_map.insert(b"main.rs".as_slice(), main_rs);
    src_map.insert(b"utils.rs".as_slice(), utils_rs);

    let mut expected = ByteMap::new();
    expected.insert(b"README.md".as_slice(), readme);
    expected.insert(b"docs".as_slice(), FileTreeNode::Directory(docs_map));
    expected.insert(b"src".as_slice(), FileTreeNode::Directory(src_map));

    let input = b"d9:README.mdd0:d6:lengthi128e11:pieces root32:aaaaaaaaaaaaaaaaaaaaaaaaaaaaaaaaee4:docsd9:guide.txtd0:d6:lengthi1024e11:pieces root32:bbbbbbbbbbbbbbbbbbbbbbbbbbbbbbbbeee3:srcd7:main.rsd0:d6:lengthi512e11:pieces root32:ccccccccccccccccccccccccccccccccee8:utils.rsd0:d6:lengthi256e11:pieces root32:ffffffffffffffffffffffffffffffffeeee";

    assert_eq!(
        parse_file_tree(input.as_slice()),
        Ok((b"".as_slice(), expected))
    );
}

// --- Info dict parser tests ---

#[test]
fn test_parse_info_dict_standard() {
    let hash_a: &[u8] = &[b'a'; 32];
    let hash_b: &[u8] = &[b'b'; 32];
    let hash_c: &[u8] = &[b'c'; 32];
    let hash_f: &[u8] = &[b'f'; 32];

    let readme = FileTreeNode::File {
        length: 128,
        pieces_root: Some(hash_a),
    };
    let guide = FileTreeNode::File {
        length: 1024,
        pieces_root: Some(hash_b),
    };
    let main_rs = FileTreeNode::File {
        length: 512,
        pieces_root: Some(hash_c),
    };
    let utils_rs = FileTreeNode::File {
        length: 256,
        pieces_root: Some(hash_f),
    };

    let mut docs_map = ByteMap::new();
    docs_map.insert(b"guide.txt".as_slice(), guide);

    let mut src_map = ByteMap::new();
    src_map.insert(b"main.rs".as_slice(), main_rs);
    src_map.insert(b"utils.rs".as_slice(), utils_rs);

    let mut file_tree = ByteMap::new();
    file_tree.insert(b"README.md".as_slice(), readme);
    file_tree.insert(b"docs".as_slice(), FileTreeNode::Directory(docs_map));
    file_tree.insert(b"src".as_slice(), FileTreeNode::Directory(src_map));

    let input = b"d9:file treed9:README.mdd0:d6:lengthi128e11:pieces root32:aaaaaaaaaaaaaaaaaaaaaaaaaaaaaaaaee4:docsd9:guide.txtd0:d6:lengthi1024e11:pieces root32:bbbbbbbbbbbbbbbbbbbbbbbbbbbbbbbbeee3:srcd7:main.rsd0:d6:lengthi512e11:pieces root32:ccccccccccccccccccccccccccccccccee8:utils.rsd0:d6:lengthi256e11:pieces root32:ffffffffffffffffffffffffffffffffeeee5:filesld6:lengthi345e4:pathl4:docs5:notes6:ab.txteed4:pathl4:docs5:notes6:bc.txte6:lengthi543eee12:meta versioni2e4:name13:important shi12:piece lengthi32768e6:pieces20:aaaaaaaaaaaaaaaaaaaae";

    let path1: Vec<&[u8]> = vec![b"docs", b"notes", b"ab.txt"];
    let file1 = FileV1 {
        length: 345usize,
        path: path1,
    };

    let path2: Vec<&[u8]> = vec![b"docs", b"notes", b"bc.txt"];
    let file2 = FileV1 {
        length: 543usize,
        path: path2,
    };

    let files = vec![file1, file2];

    let meta_version = Some(2i64);
    let name = Some(b"important shi".as_slice());
    let piece_length = (1 << 15) as usize;
    let pieces = b"aaaaaaaaaaaaaaaaaaaa";

    let expected_info = Info {
        name,
        piece_length,
        meta_version,
        file_layout: FileLayout::Hybrid {
            pieces,
            files,
            file_tree,
        },
    };

    assert_eq!(
        parse_info_dict(input.as_slice()),
        Ok((b"".as_slice(), expected_info))
    );
}

// --- Further cases ---

#[test]
fn parse_int_signs_and_bounds() {
    assert_eq!(parse_bencode_int(b"i-42erest"), Ok((b"rest".as_slice(), -42)));
    assert_eq!(parse_bencode_int(b"i+7e"), Ok((b"".as_slice(), 7)));
    assert_eq!(parse_bencode_int(b"i007e"), Ok((b"".as_slice(), 7)));
    assert_eq!(
        parse_bencode_int(b"i9223372036854775807e"),
        Ok((b"".as_slice(), i64::MAX))
    );
    assert_eq!(
        parse_bencode_int(b"i-9223372036854775808e"),
        Ok((b"".as_slice(), i64::MIN))
    );
    assert_eq!(parse_bencode_int(b"i9223372036854775808e"),
        Err(err(ErrorKind::Digit, b"9223372036854775808e")));
    assert_eq!(parse_bencode_int(b"i-e"), Err(err(ErrorKind::Digit, b"-e")));
    assert_eq!(parse_bencode_int(b"ie"), Err(err(ErrorKind::Digit, b"e")));
    assert_eq!(parse_bencode_int(b"i12"), Err(err(ErrorKind::Tag, b"")));
    assert_eq!(parse_bencode_int(b"5:abcde"), Err(err(ErrorKind::Tag, b"5:abcde")));
}

#[test]
fn parse_string_reads_length_then_bytes() {
    assert_eq!(
        parse_bencode_string(b"3:abcdef"),
        Ok((b"def".as_slice(), b"abc".as_slice()))
    );
    assert_eq!(parse_bencode_string(b"3abc"), Err(err(ErrorKind::Tag, b"abc")));
    assert_eq!(parse_bencode_string(b":abc"), Err(err(ErrorKind::Digit, b":abc")));
    assert_eq!(
        parse_bencode_string(b"99999999999999999999:abc"),
        Err(err(ErrorKind::Digit, b"99999999999999999999:abc"))
    );
}

#[test]
fn parse_string_list_unterminated() {
    assert_eq!(parse_string_list(b"l3:abc"), Err(err(ErrorKind::Tag, b"")));
    assert_eq!(parse_string_list(b"3:abc"), Err(err(ErrorKind::Tag, b"3:abc")));
}

#[test]
fn file_entry_later_field_wins_and_other_keys_skipped() {
    let expected_path: Vec<&[u8]> = vec![b"b"];
    assert_eq!(
        parse_file_entry(b"d6:lengthi1e4:pathl1:ae3:fooli1ei2ee6:lengthi2e4:pathl1:bee"),
        Ok((
            b"".as_slice(),
            FileV1 {
                length: 2,
                path: expected_path
            }
        ))
    );
}

#[test]
fn file_entry_missing_or_negative_fields_fail() {
    assert_eq!(
        parse_file_entry(b"d4:pathl1:aee"),
        Err(fail(ErrorKind::Fail, b"4:pathl1:aee"))
    );
    assert_eq!(
        parse_file_entry(b"d6:lengthi3ee"),
        Err(fail(ErrorKind::Fail, b"6:lengthi3ee"))
    );
    assert_eq!(
        parse_file_entry(b"d6:lengthi-3e4:pathl1:aee"),
        Err(fail(ErrorKind::Fail, b"4:pathl1:aee"))
    );
    assert_eq!(
        parse_file_entry(b"d6:lengthi3e4:pathl1:ae3:badxe"),
        Err(fail(ErrorKind::Tag, b"xe"))
    );
    assert_eq!(parse_file_entry(b"l"), Err(err(ErrorKind::Tag, b"l")));
}

#[test]
fn files_list_needs_one_entry() {
    assert_eq!(parse_files_list(b"le"), Err(err(ErrorKind::Tag, b"e")));
    assert_eq!(
        parse_files_list(b"ld4:pathl1:aeee"),
        Err(fail(ErrorKind::Fail, b"4:pathl1:aeee"))
    );
    assert_eq!(
        parse_files_list(b"ld6:lengthi1e4:pathl1:aeexe"),
        Err(err(ErrorKind::Tag, b"xe"))
    );
    let files = parse_files_list(b"ld6:lengthi1e4:pathl1:aeeexyz").unwrap();
    assert_eq!(files.0, b"xyz".as_slice());
    assert_eq!(files.1.len(), 1);
    assert_eq!(files.1[0].length, 1);
}

#[test]
fn file_tree_node_checks_pieces_root() {
    assert_eq!(
        parse_file_tree_node(b"d0:d6:lengthi5e11:pieces root3:abcee"),
        Err(fail(ErrorKind::Fail, b"11:pieces root3:abcee"))
    );
    assert_eq!(
        parse_file_tree_node(b"d0:d6:lengthi5eee"),
        Ok((
            b"".as_slice(),
            FileTreeNode::File {
                length: 5,
                pieces_root: None
            }
        ))
    );
    assert_eq!(
        parse_file_tree_node(b"d0:d11:pieces root0:ee"),
        Err(fail(ErrorKind::Fail, b"11:pieces root0:ee"))
    );
    assert_eq!(parse_file_tree_node(b"de"), Err(err(ErrorKind::Digit, b"e")));
}

#[test]
fn file_tree_repeated_name_replaces() {
    let mut expected = ByteMap::new();
    expected.insert(
        b"a".as_slice(),
        FileTreeNode::File {
            length: 2,
            pieces_root: None,
        },
    );
    assert_eq!(
        parse_file_tree(b"d1:ad0:d6:lengthi1eee1:ad0:d6:lengthi2eeee"),
        Ok((b"".as_slice(), expected))
    );
}

#[test]
fn file_tree_keys_come_out_sorted() {
    let (_, tree) = parse_file_tree(b"d1:bd0:d6:lengthi2eee1:ad0:d6:lengthi1eeee").unwrap();
    let keys: Vec<&[u8]> = tree.as_slice().iter().map(|e| e.0).collect();
    assert_eq!(keys, vec![b"a".as_slice(), b"b".as_slice()]);
    assert_eq!(tree.len(), 2);
    assert_eq!(
        tree.get(b"b"),
        Some(&FileTreeNode::File {
            length: 2,
            pieces_root: None
        })
    );
    assert_eq!(tree.get(b"c"), None);
}

#[test]
fn info_dict_layouts() {
    let single = parse_info_dict(b"d6:lengthi10e12:piece lengthi4e6:pieces20:aaaaaaaaaaaaaaaaaaaae")
        .unwrap();
    assert_eq!(
        single.1,
        Info {
            name: None,
            piece_length: 4,
            meta_version: None,
            file_layout: FileLayout::V1SingleFile {
                pieces: b"aaaaaaaaaaaaaaaaaaaa",
                length: 10
            },
        }
    );
    let v2 = parse_info_dict(b"d9:file treed1:ad0:d6:lengthi1eeee12:piece lengthi4ee").unwrap();
    assert!(matches!(v2.1.file_layout, FileLayout::V2 { .. }));
}

#[test]
fn info_dict_failures() {
    // no piece length
    assert_eq!(
        parse_info_dict(b"d6:lengthi10e6:pieces20:aaaaaaaaaaaaaaaaaaaae"),
        Err(fail(ErrorKind::Fail, b"6:pieces20:aaaaaaaaaaaaaaaaaaaae"))
    );
    // pieces whose length is not a multiple of 20 count as missing
    assert_eq!(
        parse_info_dict(b"d6:lengthi10e12:piece lengthi4e6:pieces3:abcerest"),
        Err(fail(ErrorKind::Fail, b"rest"))
    );
    // both a length and a file list
    assert_eq!(
        parse_info_dict(b"d5:filesld6:lengthi1e4:pathl1:aeee6:lengthi10e12:piece lengthi4e6:pieces20:aaaaaaaaaaaaaaaaaaaae"),
        Err(fail(ErrorKind::Fail, b""))
    );
    assert_eq!(parse_info_dict(b"d12:piece lengthi4e"), Err(err(ErrorKind::Eof, b"")));
    // a single file without a length: the error stands at the last key
    assert_eq!(
        parse_info_dict(b"d12:piece lengthi4e6:pieces20:aaaaaaaaaaaaaaaaaaaae"),
        Err(fail(ErrorKind::Fail, b"6:pieces20:aaaaaaaaaaaaaaaaaaaae"))
    );
    // a negative piece length counts as missing
    assert_eq!(
        parse_info_dict(b"d6:lengthi10e12:piece lengthi-4e6:pieces20:aaaaaaaaaaaaaaaaaaaae"),
        Err(fail(ErrorKind::Fail, b"6:pieces20:aaaaaaaaaaaaaaaaaaaae"))
    );
    // a fatal error inside a field is passed on
    assert_eq!(
        parse_info_dict(b"d3:fooxe"),
        Err(fail(ErrorKind::Tag, b"xe"))
    );
}

#[test]
fn skip_passes_over_what_parsers_read() {
    let inputs: [&[u8]; 3] = [b"5:Hellotail", b"l2:ab1:cetail", b"i-12etail"];
    for input in inputs {
        let (rest, _) = skip_bencode_value(input).unwrap();
        assert_eq!(rest, b"tail".as_slice());
    }
    assert_eq!(parse_bencode_string(b"5:Hellotail").unwrap().0, b"tail".as_slice());
    assert_eq!(parse_string_list(b"l2:ab1:cetail").unwrap().0, b"tail".as_slice());
    assert_eq!(parse_bencode_int(b"i-12etail").unwrap().0, b"tail".as_slice());
}
