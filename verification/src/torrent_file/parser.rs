//! Parsers for the parts of a metainfo file: integers, strings, string lists,
//! version 1 file entries, version 2 file trees and the `info` dictionary.
use crate::primitives::{
    advance, b_colon, b_d, b_e, b_i, b_l, b_minus, b_plus, dec_i64, dec_u64, decimal, digit_run,
    err_at, error_at, expect_byte, fail_at, failure_at, lemma_bytes_deep_view, lemma_decimal,
    lemma_digit_run_append, lemma_digit_run_bound, lemma_digit_run_of, parsed_as, parsed_as_deep,
    peek_byte, spec_dec_i64, starts_with, take_u64, ErrorKind, ErrorModel, PResult, ParseError,
    SpecResult,
};
use crate::torrent_file::keys::{
    is_key_file_tree, is_key_files, is_key_length, is_key_meta_version, is_key_name, is_key_path,
    is_key_piece_length, is_key_pieces, is_key_pieces_root, key_file_tree, key_files, key_length,
    key_meta_version, key_name, key_path, key_piece_length, key_pieces, key_pieces_root,
};
use crate::torrent_file::skip_values::{
    consumes, lemma_skip_value_consumes, lemma_skip_value_extend, lemma_string_consumes,
    lemma_string_extend, lemma_suffix_trans,
    proper_suffix, skip_bencode_value, spec_skip_dict_items, spec_skip_list_items, spec_skip_value, spec_string,
};
use crate::torrent_file::{
    info_wf, node_wf, tree_wf, files_model, lemma_tree_model, node_model, opt_bytes, tree_model, ByteMap, FileLayout,
    FileTreeNode, FileV1, FileV1Model, Info, InfoModel, LayoutModel, NodeModel,
};
use vstd::prelude::*;

verus! {

/// `r` is what the specification `s` describes, the parsed value taken by `model`.
pub open spec fn parsed_with<T, M>(r: PResult<T>, s: SpecResult<M>, model: spec_fn(T) -> M) -> bool {
    match s {
        Ok((rest, m)) => match r {
            Ok((r_rest, v)) => r_rest@ == rest && model(v) == m,
            Err(_) => false,
        },
        Err(e) => match r {
            Ok(_) => false,
            Err(f) => f@ == e,
        },
    }
}

/// A length given as a signed integer: none when it is negative.
pub open spec fn nonneg(v: i64) -> Option<usize> {
    if v < 0 {
        None
    } else {
        Some(v as usize)
    }
}

// ---------------------------------------------------------------------------
// Integers, strings, string lists
// ---------------------------------------------------------------------------
/// The integer rule: `i`, a signed decimal number that fits in an `i64`, `e`.
/// A missing `i` or `e` is a `Tag` error where it should be; a missing or
/// out-of-range number a `Digit` error after the `i`.
pub open spec fn spec_int(s: Seq<u8>) -> SpecResult<i64> {
    if !starts_with(s, b_i()) {
        Err(err_at(ErrorKind::Tag, s))
    } else {
        match spec_dec_i64(s.drop_first()) {
            None => Err(err_at(ErrorKind::Digit, s.drop_first())),
            Some((t, v)) => if starts_with(t, b_e()) {
                Ok((t.drop_first(), v))
            } else {
                Err(err_at(ErrorKind::Tag, t))
            },
        }
    }
}

/// An integer is read from a proper prefix of the input.
pub proof fn lemma_int_consumes(s: Seq<u8>)
    ensures
        consumes(spec_int(s), s),
{
    if let Ok((rest, _)) = spec_int(s) {
        let t0 = s.drop_first();
        let k: int = if starts_with(t0, b_minus()) || starts_with(t0, b_plus()) {
            1
        } else {
            0
        };
        let t1 = t0.skip(k);
        lemma_digit_run_bound(t1);
        assert(rest =~= s.skip(s.len() - rest.len()));
    }
}

/// The string items of a list up to and including its closing `e`, after
/// the strings `acc` already read. An item that is not a string ends the
/// items, and then the missing `e` is a `Tag` error where that item starts.
pub open spec fn spec_string_items(s: Seq<u8>, acc: Seq<Seq<u8>>) -> SpecResult<Seq<Seq<u8>>>
    decreases s.len(),
{
    if s.len() == 0 {
        Err(err_at(ErrorKind::Tag, s))
    } else if s[0] == b_e() {
        Ok((s.drop_first(), acc))
    } else {
        match spec_string(s) {
            Err(_) => Err(err_at(ErrorKind::Tag, s)),
            Ok((rest, x)) => if rest.len() < s.len() {
                spec_string_items(rest, acc.push(x))
            } else {
                Err(err_at(ErrorKind::Tag, s))
            },
        }
    }
}

/// The string list rule: `l`, strings, `e`.
pub open spec fn spec_string_list(s: Seq<u8>) -> SpecResult<Seq<Seq<u8>>> {
    if !starts_with(s, b_l()) {
        Err(err_at(ErrorKind::Tag, s))
    } else {
        spec_string_items(s.drop_first(), Seq::empty())
    }
}

proof fn lemma_string_items_consumes(s: Seq<u8>, acc: Seq<Seq<u8>>)
    ensures
        consumes(spec_string_items(s, acc), s),
    decreases s.len(),
{
    if s.len() > 0 {
        if s[0] == b_e() {
            assert(s.drop_first() =~= s.skip(1));
        } else {
            lemma_string_consumes(s);
            if let Ok((rest, x)) = spec_string(s) {
                lemma_string_items_consumes(rest, acc.push(x));
                if let Ok((rest2, _)) = spec_string_items(rest, acc.push(x)) {
                    lemma_suffix_trans(rest2, rest, s);
                }
            }
        }
    }
}

/// A string list is read from a proper prefix of the input.
pub proof fn lemma_string_list_consumes(s: Seq<u8>)
    ensures
        consumes(spec_string_list(s), s),
{
    if starts_with(s, b_l()) {
        lemma_string_items_consumes(s.drop_first(), Seq::empty());
        if let Ok((rest, _)) = spec_string_list(s) {
            assert(rest =~= s.skip(s.len() - rest.len()));
        }
    }
}

/// Parses an integer: `i`, a signed decimal number, `e`.
pub fn parse_bencode_int(input: &[u8]) -> (r: PResult<'_, i64>)
    ensures
        parsed_as(r, spec_int(input@)),
{
    let t = match expect_byte(input, 105) {
        Ok(t) => t,
        Err(e) => return Err(e),
    };
    let (u, num) = match dec_i64(t) {
        Ok(p) => p,
        Err(at) => return Err(error_at(ErrorKind::Digit, at)),
    };
    match expect_byte(u, 101) {
        Ok(rest) => Ok((rest, num)),
        Err(e) => Err(e),
    }
}

/// Parses a string: a decimal length, `:`, then that many bytes.
pub fn parse_bencode_string(input: &[u8]) -> (r: PResult<'_, &[u8]>)
    ensures
        parsed_as(r, spec_string(input@)),
{
    let (t, len) = match dec_u64(input) {
        Ok(p) => p,
        Err(at) => return Err(error_at(ErrorKind::Digit, at)),
    };
    let u = match expect_byte(t, 58) {
        Ok(u) => u,
        Err(e) => return Err(e),
    };
    take_u64(u, len)
}

/// Parses a list of strings.
pub fn parse_string_list(input: &[u8]) -> (r: PResult<'_, Vec<&[u8]>>)
    ensures
        parsed_as_deep(r, spec_string_list(input@)),
{
    let mut cur = match expect_byte(input, 108) {
        Ok(t) => t,
        Err(e) => return Err(e),
    };
    let mut list: Vec<&[u8]> = Vec::new();
    assert(list.deep_view() =~= Seq::<Seq<u8>>::empty());
    loop
        invariant
            spec_string_list(input@) == spec_string_items(cur@, list.deep_view()),
        decreases cur@.len(),
    {
        let b = match peek_byte(cur) {
            Some(b) => b,
            None => return Err(error_at(ErrorKind::Tag, cur)),
        };
        if b == 101 {
            let rest = advance(cur, 1);
            assert(rest@ =~= cur@.drop_first());
            return Ok((rest, list));
        }
        let (rest, x) = match parse_bencode_string(cur) {
            Ok(p) => p,
            Err(_) => return Err(error_at(ErrorKind::Tag, cur)),
        };
        proof {
            lemma_string_consumes(cur@);
        }
        let ghost old_list = list.deep_view();
        proof {
            lemma_bytes_deep_view(x);
        }
        list.push(x);
        assert(list.deep_view() =~= old_list.push(x@));
        cur = rest;
    }
}

/// Stepping over a string passes over exactly the bytes that parsing it reads.
pub proof fn lemma_skip_agrees_with_string(s: Seq<u8>)
    ensures
        spec_string(s) matches Ok((rest, _)) ==> spec_skip_value(s) == Ok::<(Seq<u8>, ()), ErrorModel>((rest, ())),
{
}

/// Stepping over an integer written without a `+` sign passes over exactly
/// the bytes that parsing it reads. (`i+5e` is read as 5 by the parser but
/// refused by the recogniser.)
pub proof fn lemma_skip_agrees_with_int(s: Seq<u8>)
    requires
        !starts_with(s.drop_first(), b_plus()),
    ensures
        spec_int(s) matches Ok((rest, _)) ==> spec_skip_value(s) == Ok::<(Seq<u8>, ()), ErrorModel>((rest, ())),
{
    if let Ok((rest, _)) = spec_int(s) {
        let t0 = s.drop_first();
        if starts_with(t0, b_minus()) {
            assert(t0.skip(1) =~= t0.drop_first());
        } else {
            assert(t0.skip(0) =~= t0);
        }
    }
}

/// Stepping over a list of strings passes over exactly the bytes that
/// parsing it reads.
pub proof fn lemma_skip_agrees_with_string_list(s: Seq<u8>)
    ensures
        spec_string_list(s) matches Ok((rest, _)) ==> spec_skip_value(s) == Ok::<(Seq<u8>, ()), ErrorModel>((rest, ())),
{
    if starts_with(s, b_l()) {
        lemma_skip_agrees_with_string_items(s.drop_first(), Seq::empty());
    }
}

proof fn lemma_skip_agrees_with_string_items(s: Seq<u8>, acc: Seq<Seq<u8>>)
    ensures
        spec_string_items(s, acc) matches Ok((rest, _)) ==> spec_skip_list_items(s) == Ok::<(Seq<u8>, ()), ErrorModel>((rest, ())),
    decreases s.len(),
{
    if s.len() > 0 && s[0] != b_e() {
        lemma_skip_agrees_with_string(s);
        lemma_string_consumes(s);
        if let Ok((r, x)) = spec_string(s) {
            lemma_skip_agrees_with_string_items(r, acc.push(x));
        }
    }
}

// ---------------------------------------------------------------------------
// Reading back what was written
// ---------------------------------------------------------------------------
/// A string in bencode: its length in decimal, `:`, its bytes.
pub open spec fn enc_string(x: Seq<u8>) -> Seq<u8> {
    decimal(x.len()) + seq![b_colon()] + x
}

/// An integer in bencode: `i`, the number in decimal with a `-` when it is
/// negative, `e`.
pub open spec fn enc_int(n: i64) -> Seq<u8> {
    seq![b_i()] + (if n < 0 {
        seq![b_minus()] + decimal((-n) as nat)
    } else {
        decimal(n as nat)
    }) + seq![b_e()]
}

/// Strings one after the other, each in bencode.
pub open spec fn enc_strings(xs: Seq<Seq<u8>>) -> Seq<u8>
    decreases xs.len(),
{
    if xs.len() == 0 {
        Seq::empty()
    } else {
        enc_string(xs[0]) + enc_strings(xs.drop_first())
    }
}

/// A list of strings in bencode: `l`, the strings, `e`.
pub open spec fn enc_string_list(xs: Seq<Seq<u8>>) -> Seq<u8> {
    seq![b_l()] + enc_strings(xs) + seq![b_e()]
}

/// A string written in bencode is read back, whatever follows it.
pub proof fn lemma_string_roundtrip(x: Seq<u8>, rest: Seq<u8>)
    requires
        x.len() <= u64::MAX,
    ensures
        spec_string(enc_string(x) + rest) == Ok::<(Seq<u8>, Seq<u8>), ErrorModel>((rest, x)),
{
    let d = decimal(x.len());
    let t = seq![b_colon()] + x + rest;
    lemma_decimal(x.len());
    lemma_digit_run_of(d, t);
    assert(enc_string(x) + rest =~= d + t);
    assert(t.drop_first() =~= x + rest);
    assert((x + rest).take(x.len() as int) =~= x);
    assert((x + rest).skip(x.len() as int) =~= rest);
}

/// An integer written in bencode is read back, whatever follows it.
pub proof fn lemma_int_roundtrip(n: i64, rest: Seq<u8>)
    ensures
        spec_int(enc_int(n) + rest) == Ok::<(Seq<u8>, i64), ErrorModel>((rest, n)),
{
    let s = enc_int(n) + rest;
    let t = seq![b_e()] + rest;
    if n < 0 {
        let v = (-n) as nat;
        let d = decimal(v);
        lemma_decimal(v);
        lemma_digit_run_of(d, t);
        assert(s.drop_first() =~= seq![b_minus()] + (d + t));
        assert(s.drop_first().skip(1) =~= d + t);
    } else {
        let d = decimal(n as nat);
        lemma_decimal(n as nat);
        lemma_digit_run_of(d, t);
        assert(s.drop_first() =~= d + t);
        assert(s.drop_first().skip(0) =~= d + t);
    }
    assert(t.drop_first() =~= rest);
}

/// Strings written in bencode, then the closing `e`, are read back as items
/// of a list.
proof fn lemma_string_items_roundtrip(xs: Seq<Seq<u8>>, acc: Seq<Seq<u8>>, rest: Seq<u8>)
    requires
        forall|i: int| 0 <= i < xs.len() ==> (#[trigger] xs[i]).len() <= u64::MAX,
    ensures
        spec_string_items(enc_strings(xs) + seq![b_e()] + rest, acc) == Ok::<
            (Seq<u8>, Seq<Seq<u8>>),
            ErrorModel,
        >((rest, acc + xs)),
    decreases xs.len(),
{
    let s = enc_strings(xs) + seq![b_e()] + rest;
    if xs.len() == 0 {
        assert(s =~= seq![b_e()] + rest);
        assert(s.drop_first() =~= rest);
        assert(acc + xs =~= acc);
    } else {
        let tail = enc_strings(xs.drop_first()) + seq![b_e()] + rest;
        assert(s =~= enc_string(xs[0]) + tail);
        lemma_string_roundtrip(xs[0], tail);
        lemma_decimal(xs[0].len());
        assert(s[0] == decimal(xs[0].len())[0]);
        lemma_string_items_roundtrip(xs.drop_first(), acc.push(xs[0]), rest);
        assert(acc.push(xs[0]) + xs.drop_first() =~= acc + xs);
    }
}

/// A list of strings written in bencode is read back, whatever follows it.
pub proof fn lemma_string_list_roundtrip(xs: Seq<Seq<u8>>, rest: Seq<u8>)
    requires
        forall|i: int| 0 <= i < xs.len() ==> (#[trigger] xs[i]).len() <= u64::MAX,
    ensures
        spec_string_list(enc_string_list(xs) + rest) == Ok::<(Seq<u8>, Seq<Seq<u8>>), ErrorModel>(
            (rest, xs),
        ),
{
    let s = enc_string_list(xs) + rest;
    assert(s.drop_first() =~= enc_strings(xs) + seq![b_e()] + rest);
    lemma_string_items_roundtrip(xs, Seq::empty(), rest);
    assert(Seq::<Seq<u8>>::empty() + xs =~= xs);
}

// ---------------------------------------------------------------------------
// Version 1 file entries
// ---------------------------------------------------------------------------
/// The fields of a file entry up to and including the closing `e`, after the
/// length and path read so far and the position `last` of the last key read;
/// a later field replaces an earlier one, and a negative length counts as
/// none. An input that ends before the closing `e` is an `Eof` error there.
pub open spec fn spec_file_fields(
    s: Seq<u8>,
    length: Option<usize>,
    path: Option<Seq<Seq<u8>>>,
    last: Seq<u8>,
) -> SpecResult<(Option<usize>, Option<Seq<Seq<u8>>>, Seq<u8>)>
    decreases s.len(),
{
    if s.len() == 0 {
        Err(err_at(ErrorKind::Eof, s))
    } else if s[0] == b_e() {
        Ok((s.drop_first(), (length, path, last)))
    } else {
        match spec_string(s) {
            Err(e) => Err(e),
            Ok((t, key)) => if t.len() >= s.len() {
                Err(err_at(ErrorKind::Tag, s))
            } else if key == key_length() {
                match spec_int(t) {
                    Err(e) => Err(e),
                    Ok((u, v)) => if u.len() < t.len() {
                        spec_file_fields(u, nonneg(v), path, s)
                    } else {
                        Err(err_at(ErrorKind::Tag, s))
                    },
                }
            } else if key == key_path() {
                match spec_string_list(t) {
                    Err(e) => Err(e),
                    Ok((u, p)) => if u.len() < t.len() {
                        spec_file_fields(u, length, Some(p), s)
                    } else {
                        Err(err_at(ErrorKind::Tag, s))
                    },
                }
            } else {
                match spec_skip_value(t) {
                    Err(e) => Err(e),
                    Ok((u, _)) => if u.len() < t.len() {
                        spec_file_fields(u, length, path, s)
                    } else {
                        Err(err_at(ErrorKind::Tag, s))
                    },
                }
            },
        }
    }
}

/// The file entry rule: a dictionary with a `length` and a `path`; other keys
/// are stepped over. A missing or negative length, or a missing path, is a
/// fatal `Fail` error at the last key (or after the `d` when there is none).
pub open spec fn spec_file_entry(s: Seq<u8>) -> SpecResult<FileV1Model> {
    if !starts_with(s, b_d()) {
        Err(err_at(ErrorKind::Tag, s))
    } else {
        match spec_file_fields(s.drop_first(), None, None, s.drop_first()) {
            Err(e) => Err(e),
            Ok((rest, (length, path, last))) => match (length, path) {
                (Some(l), Some(p)) => Ok((rest, FileV1Model { length: l, path: p })),
                _ => Err(fail_at(ErrorKind::Fail, last)),
            },
        }
    }
}

proof fn lemma_file_fields_consumes(
    s: Seq<u8>,
    length: Option<usize>,
    path: Option<Seq<Seq<u8>>>,
    last: Seq<u8>,
)
    ensures
        consumes(spec_file_fields(s, length, path, last), s),
    decreases s.len(),
{
    if s.len() > 0 {
        if s[0] == b_e() {
            assert(s.drop_first() =~= s.skip(1));
        } else {
            lemma_string_consumes(s);
            if let Ok((t, key)) = spec_string(s) {
                if key == key_length() {
                    lemma_int_consumes(t);
                    if let Ok((u, v)) = spec_int(t) {
                        lemma_suffix_trans(u, t, s);
                        lemma_file_fields_consumes(u, nonneg(v), path, s);
                        if let Ok((w, _)) = spec_file_fields(u, nonneg(v), path, s) {
                            lemma_suffix_trans(w, u, s);
                        }
                    }
                } else if key == key_path() {
                    lemma_string_list_consumes(t);
                    if let Ok((u, p)) = spec_string_list(t) {
                        lemma_suffix_trans(u, t, s);
                        lemma_file_fields_consumes(u, length, Some(p), s);
                        if let Ok((w, _)) = spec_file_fields(u, length, Some(p), s) {
                            lemma_suffix_trans(w, u, s);
                        }
                    }
                } else {
                    lemma_skip_value_consumes(t);
                    if let Ok((u, _)) = spec_skip_value(t) {
                        lemma_suffix_trans(u, t, s);
                        lemma_file_fields_consumes(u, length, path, s);
                        if let Ok((w, _)) = spec_file_fields(u, length, path, s) {
                            lemma_suffix_trans(w, u, s);
                        }
                    }
                }
            }
        }
    }
}

/// A file entry is read from a proper prefix of the input.
pub proof fn lemma_file_entry_consumes(s: Seq<u8>)
    ensures
        consumes(spec_file_entry(s), s),
{
    if starts_with(s, b_d()) {
        lemma_file_fields_consumes(s.drop_first(), None, None, s.drop_first());
        if let Ok((rest, _)) = spec_file_entry(s) {
            assert(rest =~= s.skip(s.len() - rest.len()));
        }
    }
}

/// The optional path list, taken by its bytes.
pub open spec fn opt_path(p: Option<Vec<&[u8]>>) -> Option<Seq<Seq<u8>>> {
    match p {
        Some(v) => Some(v.deep_view()),
        None => None,
    }
}

/// Parses a file entry of a version 1 multi-file torrent.
pub fn parse_file_entry<'a>(input: &'a [u8]) -> (r: PResult<'a, FileV1<'a>>)
    ensures
        parsed_as(r, spec_file_entry(input@)),
{
    let mut cur = match expect_byte(input, 100) {
        Ok(t) => t,
        Err(e) => return Err(e),
    };
    let mut len: Option<usize> = None;
    let mut path: Option<Vec<&'a [u8]>> = None;
    let mut last: &'a [u8] = cur;
    loop
        invariant
            spec_file_fields(input@.drop_first(), None, None, input@.drop_first())
                == spec_file_fields(cur@, len, opt_path(path), last@),
            starts_with(input@, b_d()),
        decreases cur@.len(),
    {
        let next = match peek_byte(cur) {
            Some(b) => b,
            None => return Err(error_at(ErrorKind::Eof, cur)),
        };
        if next == 101 {
            let rest = advance(cur, 1);
            assert(rest@ =~= cur@.drop_first());
            let length = match len {
                Some(l) => l,
                None => return Err(failure_at(ErrorKind::Fail, last)),
            };
            let path = match path {
                Some(p) => p,
                None => return Err(failure_at(ErrorKind::Fail, last)),
            };
            return Ok((rest, FileV1 { length, path }));
        }
        let (t, key) = match parse_bencode_string(cur) {
            Ok(p) => p,
            Err(e) => return Err(e),
        };
        proof {
            lemma_string_consumes(cur@);
        }
        last = cur;
        if is_key_length(key) {
            let (u, v) = match parse_bencode_int(t) {
                Ok(p) => p,
                Err(e) => return Err(e),
            };
            proof {
                lemma_int_consumes(t@);
            }
            len = if v < 0 {
                None
            } else {
                Some(v as usize)
            };
            cur = u;
        } else if is_key_path(key) {
            let (u, p) = match parse_string_list(t) {
                Ok(p) => p,
                Err(e) => return Err(e),
            };
            proof {
                lemma_string_list_consumes(t@);
            }
            path = Some(p);
            cur = u;
        } else {
            let (u, _) = match skip_bencode_value(t) {
                Ok(p) => p,
                Err(e) => return Err(e),
            };
            proof {
                lemma_skip_value_consumes(t@);
            }
            cur = u;
        }
    }
}

/// The entries of a file list up to and including its closing `e`, after
/// the entries `acc` already read. An entry that fails recoverably ends the
/// entries, and then the missing `e` is a `Tag` error where that entry
/// starts; a fatal failure is passed on.
pub open spec fn spec_file_items(s: Seq<u8>, acc: Seq<FileV1Model>) -> SpecResult<Seq<FileV1Model>>
    decreases s.len(),
{
    if s.len() == 0 {
        Err(err_at(ErrorKind::Tag, s))
    } else if s[0] == b_e() {
        Ok((s.drop_first(), acc))
    } else {
        match spec_file_entry(s) {
            Err(e) => if e.fatal {
                Err(e)
            } else {
                Err(err_at(ErrorKind::Tag, s))
            },
            Ok((rest, f)) => if rest.len() < s.len() {
                spec_file_items(rest, acc.push(f))
            } else {
                Err(err_at(ErrorKind::Tag, s))
            },
        }
    }
}

/// The file list rule: `l`, one or more file entries, `e`. The first entry
/// must be read: its error, of whatever kind, is the list's.
pub open spec fn spec_files_list(s: Seq<u8>) -> SpecResult<Seq<FileV1Model>> {
    if !starts_with(s, b_l()) {
        Err(err_at(ErrorKind::Tag, s))
    } else {
        let t = s.drop_first();
        match spec_file_entry(t) {
            Err(e) => Err(e),
            Ok((rest, f)) => if rest.len() < t.len() {
                spec_file_items(rest, seq![f])
            } else {
                Err(err_at(ErrorKind::Tag, t))
            },
        }
    }
}

proof fn lemma_file_items_consumes(s: Seq<u8>, acc: Seq<FileV1Model>)
    ensures
        consumes(spec_file_items(s, acc), s),
    decreases s.len(),
{
    if s.len() > 0 {
        if s[0] == b_e() {
            assert(s.drop_first() =~= s.skip(1));
        } else {
            lemma_file_entry_consumes(s);
            if let Ok((rest, f)) = spec_file_entry(s) {
                lemma_file_items_consumes(rest, acc.push(f));
                if let Ok((rest2, _)) = spec_file_items(rest, acc.push(f)) {
                    lemma_suffix_trans(rest2, rest, s);
                }
            }
        }
    }
}

/// A file list is read from a proper prefix of the input.
pub proof fn lemma_files_list_consumes(s: Seq<u8>)
    ensures
        consumes(spec_files_list(s), s),
{
    if starts_with(s, b_l()) {
        lemma_file_items_consumes(s.drop_first(), Seq::empty());
        if let Ok((rest, _)) = spec_files_list(s) {
            assert(rest =~= s.skip(s.len() - rest.len()));
        }
    }
}

proof fn lemma_file_items_len(s: Seq<u8>, acc: Seq<FileV1Model>)
    ensures
        spec_file_items(s, acc) matches Ok((_, r)) ==> r.len() >= acc.len() && (s[0] != b_e()
            ==> r.len() > acc.len()),
    decreases s.len(),
{
    if s.len() > 0 && s[0] != b_e() {
        lemma_file_entry_consumes(s);
        if let Ok((rest, f)) = spec_file_entry(s) {
            lemma_file_items_len(rest, acc.push(f));
        }
    }
}

/// A file list that the file list rule reads holds at least one file.
pub proof fn lemma_files_list_nonempty(s: Seq<u8>)
    ensures
        spec_files_list(s) matches Ok((_, l)) ==> l.len() > 0,
{
    if starts_with(s, b_l()) {
        lemma_file_items_len(s.drop_first(), Seq::empty());
    }
}

/// A file that can be written in bencode: its length fits in an `i64`, and
/// each part of its path has a length that fits in a `u64`.
pub open spec fn file_writable(f: FileV1Model) -> bool {
    &&& f.length <= i64::MAX
    &&& forall|i: int| 0 <= i < f.path.len() ==> (#[trigger] f.path[i]).len() <= u64::MAX
}

/// A file entry in bencode: `d`, `length` and the length, `path` and the
/// list of the path's parts, `e`.
pub open spec fn enc_file_entry(f: FileV1Model) -> Seq<u8> {
    seq![b_d()] + enc_string(key_length()) + enc_int(f.length as i64) + enc_string(key_path())
        + enc_string_list(f.path) + seq![b_e()]
}

/// File entries one after the other.
pub open spec fn enc_file_entries(fs: Seq<FileV1Model>) -> Seq<u8>
    decreases fs.len(),
{
    if fs.len() == 0 {
        Seq::empty()
    } else {
        enc_file_entry(fs[0]) + enc_file_entries(fs.drop_first())
    }
}

/// A file list in bencode: `l`, the entries, `e`.
pub open spec fn enc_files_list(fs: Seq<FileV1Model>) -> Seq<u8> {
    seq![b_l()] + enc_file_entries(fs) + seq![b_e()]
}

/// A file entry written in bencode is read back, whatever follows it: its
/// length (zero included) and its path are those written.
pub proof fn lemma_file_entry_roundtrip(f: FileV1Model, rest: Seq<u8>)
    requires
        file_writable(f),
    ensures
        spec_file_entry(enc_file_entry(f) + rest) == Ok::<(Seq<u8>, FileV1Model), ErrorModel>(
            (rest, f),
        ),
{
    let s = enc_file_entry(f) + rest;
    let n = f.length as i64;
    let tail = seq![b_e()] + rest;
    let x3 = enc_string_list(f.path) + tail;
    let x2 = enc_string(key_path()) + x3;
    let x1 = enc_int(n) + x2;
    let s1 = s.drop_first();
    assert(s1 =~= enc_string(key_length()) + x1);
    lemma_string_roundtrip(key_length(), x1);
    lemma_decimal(key_length().len());
    assert(s1[0] == decimal(key_length().len())[0]);
    lemma_int_roundtrip(n, x2);
    lemma_string_roundtrip(key_path(), x3);
    lemma_decimal(key_path().len());
    assert(x2[0] == decimal(key_path().len())[0]);
    assert(key_path().len() != key_length().len());
    lemma_string_list_roundtrip(f.path, tail);
    assert(tail.drop_first() =~= rest);
    assert(nonneg(n) == Some(f.length));
    assert(spec_file_fields(tail, Some(f.length), Some(f.path), x2) == Ok::<
        (Seq<u8>, (Option<usize>, Option<Seq<Seq<u8>>>, Seq<u8>)),
        ErrorModel,
    >((rest, (Some(f.length), Some(f.path), x2))));
    assert(spec_file_fields(x2, Some(f.length), None, s1) == Ok::<
        (Seq<u8>, (Option<usize>, Option<Seq<Seq<u8>>>, Seq<u8>)),
        ErrorModel,
    >((rest, (Some(f.length), Some(f.path), x2))));
    assert(spec_file_fields(s1, None, None, s1) == Ok::<
        (Seq<u8>, (Option<usize>, Option<Seq<Seq<u8>>>, Seq<u8>)),
        ErrorModel,
    >((rest, (Some(f.length), Some(f.path), x2))));
}

proof fn lemma_file_items_roundtrip(fs: Seq<FileV1Model>, acc: Seq<FileV1Model>, rest: Seq<u8>)
    requires
        forall|i: int| 0 <= i < fs.len() ==> file_writable(#[trigger] fs[i]),
    ensures
        spec_file_items(enc_file_entries(fs) + seq![b_e()] + rest, acc) == Ok::<
            (Seq<u8>, Seq<FileV1Model>),
            ErrorModel,
        >((rest, acc + fs)),
    decreases fs.len(),
{
    let s = enc_file_entries(fs) + seq![b_e()] + rest;
    if fs.len() == 0 {
        assert(s =~= seq![b_e()] + rest);
        assert(s.drop_first() =~= rest);
        assert(acc + fs =~= acc);
    } else {
        let tail = enc_file_entries(fs.drop_first()) + seq![b_e()] + rest;
        assert(s =~= enc_file_entry(fs[0]) + tail);
        assert(file_writable(fs[0]));
        lemma_file_entry_roundtrip(fs[0], tail);
        assert(s[0] == b_d());
        assert forall|i: int| 0 <= i < fs.drop_first().len() implies file_writable(
            #[trigger] fs.drop_first()[i],
        ) by {
            assert(file_writable(fs[i + 1]));
        }
        lemma_file_items_roundtrip(fs.drop_first(), acc.push(fs[0]), rest);
        assert(acc.push(fs[0]) + fs.drop_first() =~= acc + fs);
    }
}

/// A file list written in bencode is read back, whatever follows it: the
/// files come out as written, in the same order.
pub proof fn lemma_files_list_roundtrip(fs: Seq<FileV1Model>, rest: Seq<u8>)
    requires
        fs.len() >= 1,
        forall|i: int| 0 <= i < fs.len() ==> file_writable(#[trigger] fs[i]),
    ensures
        spec_files_list(enc_files_list(fs) + rest) == Ok::<(Seq<u8>, Seq<FileV1Model>), ErrorModel>(
            (rest, fs),
        ),
{
    let s = enc_files_list(fs) + rest;
    let t = s.drop_first();
    let tail = enc_file_entries(fs.drop_first()) + seq![b_e()] + rest;
    assert(t =~= enc_file_entry(fs[0]) + tail);
    assert(file_writable(fs[0]));
    lemma_file_entry_roundtrip(fs[0], tail);
    assert forall|i: int| 0 <= i < fs.drop_first().len() implies file_writable(
        #[trigger] fs.drop_first()[i],
    ) by {
        assert(file_writable(fs[i + 1]));
    }
    lemma_file_items_roundtrip(fs.drop_first(), seq![fs[0]], rest);
    assert(seq![fs[0]] + fs.drop_first() =~= fs);
}

/// Parses the list of files of a version 1 multi-file torrent.
pub fn parse_files_list<'a>(input: &'a [u8]) -> (r: PResult<'a, Vec<FileV1<'a>>>)
    ensures
        parsed_with(r, spec_files_list(input@), |v: Vec<FileV1<'a>>| files_model(v@)),
{
    let t = match expect_byte(input, 108) {
        Ok(t) => t,
        Err(e) => return Err(e),
    };
    let (mut cur, first) = match parse_file_entry(t) {
        Ok(p) => p,
        Err(e) => return Err(e),
    };
    proof {
        lemma_file_entry_consumes(t@);
    }
    let mut files: Vec<FileV1<'a>> = Vec::new();
    files.push(first);
    assert(files_model(files@) =~= seq![first@]);
    loop
        invariant
            spec_files_list(input@) == spec_file_items(cur@, files_model(files@)),
        decreases cur@.len(),
    {
        let b = match peek_byte(cur) {
            Some(b) => b,
            None => return Err(error_at(ErrorKind::Tag, cur)),
        };
        if b == 101 {
            let rest = advance(cur, 1);
            assert(rest@ =~= cur@.drop_first());
            return Ok((rest, files));
        }
        let (rest, f) = match parse_file_entry(cur) {
            Ok(p) => p,
            Err(ParseError::Failure(e)) => return Err(ParseError::Failure(e)),
            Err(ParseError::Error(_)) => return Err(error_at(ErrorKind::Tag, cur)),
        };
        proof {
            lemma_file_entry_consumes(cur@);
        }
        let ghost old_files = files_model(files@);
        files.push(f);
        assert(files_model(files@) =~= old_files.push(f@));
        cur = rest;
    }
}

// ---------------------------------------------------------------------------
// Version 2 file trees
// ---------------------------------------------------------------------------
/// The properties of a file up to and including the closing `e`, after the
/// length and pieces root read so far and the position `last` of the last
/// key read; a later property replaces an earlier one, and a negative length
/// counts as none. An input that ends before the closing `e` is an `Eof`
/// error there.
pub open spec fn spec_node_props(
    s: Seq<u8>,
    length: Option<usize>,
    root: Option<Seq<u8>>,
    last: Seq<u8>,
) -> SpecResult<(Option<usize>, Option<Seq<u8>>, Seq<u8>)>
    decreases s.len(),
{
    if s.len() == 0 {
        Err(err_at(ErrorKind::Eof, s))
    } else if s[0] == b_e() {
        Ok((s.drop_first(), (length, root, last)))
    } else {
        match spec_string(s) {
            Err(e) => Err(e),
            Ok((t, key)) => if t.len() >= s.len() {
                Err(err_at(ErrorKind::Tag, s))
            } else if key == key_length() {
                match spec_int(t) {
                    Err(e) => Err(e),
                    Ok((u, v)) => if u.len() < t.len() {
                        spec_node_props(u, nonneg(v), root, s)
                    } else {
                        Err(err_at(ErrorKind::Tag, s))
                    },
                }
            } else if key == key_pieces_root() {
                match spec_string(t) {
                    Err(e) => Err(e),
                    Ok((u, x)) => if u.len() < t.len() {
                        spec_node_props(u, length, Some(x), s)
                    } else {
                        Err(err_at(ErrorKind::Tag, s))
                    },
                }
            } else {
                match spec_skip_value(t) {
                    Err(e) => Err(e),
                    Ok((u, _)) => if u.len() < t.len() {
                        spec_node_props(u, length, root, s)
                    } else {
                        Err(err_at(ErrorKind::Tag, s))
                    },
                }
            },
        }
    }
}

/// The file tree node rule. A dictionary whose first key is the empty string
/// is a file: that key maps to a dictionary of properties, and the node ends
/// right after it; a file without a non-negative `length`, or with a
/// `pieces root` that is not 32 bytes long, is a fatal `Fail` error at the
/// last property's key (or at the node when there is none). Any other
/// dictionary is a directory, read as a file tree.
pub open spec fn spec_node(s: Seq<u8>) -> SpecResult<NodeModel>
    decreases s.len(), 2nat,
{
    if !starts_with(s, b_d()) {
        Err(err_at(ErrorKind::Tag, s))
    } else {
        match spec_string(s.drop_first()) {
            Err(e) => Err(e),
            Ok((t, name)) => if name.len() == 0 {
                if !starts_with(t, b_d()) {
                    Err(err_at(ErrorKind::Tag, t))
                } else {
                    spec_file_node(spec_node_props(t.drop_first(), None, None, s))
                }
            } else {
                match spec_tree(s) {
                    Err(e) => Err(e),
                    Ok((rest, m)) => Ok((rest, NodeModel::Directory(m))),
                }
            },
        }
    }
}

/// A file node from its properties and the rest after them: the rest must
/// start with the `e` that closes the node (otherwise a `Tag` error there).
pub open spec fn spec_file_node(
    props: SpecResult<(Option<usize>, Option<Seq<u8>>, Seq<u8>)>,
) -> SpecResult<NodeModel> {
    match props {
        Err(e) => Err(e),
        Ok((u, (length, root, last))) => if !starts_with(u, b_e()) {
            Err(err_at(ErrorKind::Tag, u))
        } else {
            match length {
                None => Err(fail_at(ErrorKind::Fail, last)),
                Some(l) => match root {
                    Some(x) => if x.len() != 32 {
                        Err(fail_at(ErrorKind::Fail, last))
                    } else {
                        Ok((u.drop_first(), NodeModel::File { length: l, pieces_root: Some(x) }))
                    },
                    None => Ok((u.drop_first(), NodeModel::File { length: l, pieces_root: None })),
                },
            }
        },
    }
}

/// The file tree rule: `d`, then names each followed by a node, then `e`.
/// A name that occurs again replaces the node stored under it.
pub open spec fn spec_tree(s: Seq<u8>) -> SpecResult<Map<Seq<u8>, NodeModel>>
    decreases s.len(), 1nat,
{
    if !starts_with(s, b_d()) {
        Err(err_at(ErrorKind::Tag, s))
    } else {
        spec_tree_entries(s.drop_first(), Map::empty())
    }
}

/// The entries of a file tree up to and including its closing `e`, after
/// the entries `acc` already read.
pub open spec fn spec_tree_entries(
    s: Seq<u8>,
    acc: Map<Seq<u8>, NodeModel>,
) -> SpecResult<Map<Seq<u8>, NodeModel>>
    decreases s.len(), 0nat,
{
    if s.len() == 0 {
        Err(err_at(ErrorKind::Eof, s))
    } else if s[0] == b_e() {
        Ok((s.drop_first(), acc))
    } else {
        match spec_string(s) {
            Err(e) => Err(e),
            Ok((t, name)) => if t.len() >= s.len() {
                Err(err_at(ErrorKind::Tag, s))
            } else {
                match spec_node(t) {
                    Err(e) => Err(e),
                    Ok((u, n)) => if u.len() < t.len() {
                        spec_tree_entries(u, acc.insert(name, n))
                    } else {
                        Err(err_at(ErrorKind::Tag, s))
                    },
                }
            },
        }
    }
}

proof fn lemma_node_props_consumes(
    s: Seq<u8>,
    length: Option<usize>,
    root: Option<Seq<u8>>,
    last: Seq<u8>,
)
    ensures
        consumes(spec_node_props(s, length, root, last), s),
    decreases s.len(),
{
    if s.len() > 0 {
        if s[0] == b_e() {
            assert(s.drop_first() =~= s.skip(1));
        } else {
            lemma_string_consumes(s);
            if let Ok((t, key)) = spec_string(s) {
                if key == key_length() {
                    lemma_int_consumes(t);
                    if let Ok((u, v)) = spec_int(t) {
                        lemma_suffix_trans(u, t, s);
                        lemma_node_props_consumes(u, nonneg(v), root, s);
                        if let Ok((w, _)) = spec_node_props(u, nonneg(v), root, s) {
                            lemma_suffix_trans(w, u, s);
                        }
                    }
                } else if key == key_pieces_root() {
                    lemma_string_consumes(t);
                    if let Ok((u, x)) = spec_string(t) {
                        lemma_suffix_trans(u, t, s);
                        lemma_node_props_consumes(u, length, Some(x), s);
                        if let Ok((w, _)) = spec_node_props(u, length, Some(x), s) {
                            lemma_suffix_trans(w, u, s);
                        }
                    }
                } else {
                    lemma_skip_value_consumes(t);
                    if let Ok((u, _)) = spec_skip_value(t) {
                        lemma_suffix_trans(u, t, s);
                        lemma_node_props_consumes(u, length, root, s);
                        if let Ok((w, _)) = spec_node_props(u, length, root, s) {
                            lemma_suffix_trans(w, u, s);
                        }
                    }
                }
            }
        }
    }
}

/// A file tree node is read from a proper prefix of the input.
pub proof fn lemma_node_consumes(s: Seq<u8>)
    ensures
        consumes(spec_node(s), s),
    decreases s.len(), 2nat,
{
    if starts_with(s, b_d()) {
        let s1 = s.drop_first();
        lemma_string_consumes(s1);
        if let Ok((t, name)) = spec_string(s1) {
            if name.len() == 0 {
                if starts_with(t, b_d()) {
                    lemma_node_props_consumes(t.drop_first(), None, None, s);
                    if let Ok((u, _)) = spec_node_props(t.drop_first(), None, None, s) {
                        if starts_with(u, b_e()) {
                            assert(u.drop_first() =~= s.skip(s.len() - u.drop_first().len()));
                        }
                    }
                }
            } else {
                lemma_tree_consumes(s);
            }
        }
    }
}

/// A file tree is read from a proper prefix of the input.
pub proof fn lemma_tree_consumes(s: Seq<u8>)
    ensures
        consumes(spec_tree(s), s),
    decreases s.len(), 1nat,
{
    if starts_with(s, b_d()) {
        lemma_tree_entries_consumes(s.drop_first(), Map::empty());
        if let Ok((rest, _)) = spec_tree(s) {
            assert(rest =~= s.skip(s.len() - rest.len()));
        }
    }
}

proof fn lemma_tree_entries_consumes(s: Seq<u8>, acc: Map<Seq<u8>, NodeModel>)
    ensures
        consumes(spec_tree_entries(s, acc), s),
    decreases s.len(), 0nat,
{
    if s.len() > 0 {
        if s[0] == b_e() {
            assert(s.drop_first() =~= s.skip(1));
        } else {
            lemma_string_consumes(s);
            if let Ok((t, name)) = spec_string(s) {
                lemma_node_consumes(t);
                if let Ok((u, n)) = spec_node(t) {
                    lemma_suffix_trans(u, t, s);
                    lemma_tree_entries_consumes(u, acc.insert(name, n));
                    if let Ok((w, _)) = spec_tree_entries(u, acc.insert(name, n)) {
                        lemma_suffix_trans(w, u, s);
                    }
                }
            }
        }
    }
}

/// A file node in bencode: `d`, the empty name, then `d`, `length` and the
/// length, `pieces root` and the root where there is one, `e`, and `e`.
pub open spec fn enc_file_node(length: usize, root: Option<Seq<u8>>) -> Seq<u8> {
    seq![b_d()] + enc_string(Seq::empty()) + seq![b_d()] + enc_string(key_length()) + enc_int(
        length as i64,
    ) + (match root {
        Some(x) => enc_string(key_pieces_root()) + enc_string(x),
        None => Seq::empty(),
    }) + seq![b_e(), b_e()]
}

/// A file node written in bencode is read back, whatever follows it: its
/// length is the integer written, in full, and its pieces root the one
/// written, where that is 32 bytes long.
pub proof fn lemma_file_node_roundtrip(length: usize, root: Option<Seq<u8>>, rest: Seq<u8>)
    requires
        length <= i64::MAX,
        root matches Some(x) ==> x.len() == 32,
    ensures
        spec_node(enc_file_node(length, root) + rest) == Ok::<(Seq<u8>, NodeModel), ErrorModel>(
            (rest, NodeModel::File { length, pieces_root: root }),
        ),
{
    let s = enc_file_node(length, root) + rest;
    let n = length as i64;
    let tail = seq![b_e(), b_e()] + rest;
    let props_end = match root {
        Some(x) => enc_string(key_pieces_root()) + enc_string(x) + tail,
        None => tail,
    };
    let x1 = enc_int(n) + props_end;
    let t1 = enc_string(key_length()) + x1;
    let t = seq![b_d()] + t1;
    let s1 = s.drop_first();
    assert(s1 =~= enc_string(Seq::empty()) + t);
    lemma_string_roundtrip(Seq::empty(), t);
    assert(t.drop_first() =~= t1);
    lemma_string_roundtrip(key_length(), x1);
    lemma_decimal(key_length().len());
    assert(t1[0] == decimal(key_length().len())[0]);
    lemma_int_roundtrip(n, props_end);
    assert(nonneg(n) == Some(length));
    let u = seq![b_e()] + rest;
    assert(tail.drop_first() =~= u);
    assert(u.drop_first() =~= rest);
    match root {
        Some(x) => {
            let y = enc_string(x) + tail;
            assert(props_end =~= enc_string(key_pieces_root()) + y);
            lemma_string_roundtrip(key_pieces_root(), y);
            lemma_decimal(key_pieces_root().len());
            assert(props_end[0] == decimal(key_pieces_root().len())[0]);
            assert(key_pieces_root().len() != key_length().len());
            lemma_string_roundtrip(x, tail);
            assert(spec_node_props(tail, Some(length), root, props_end) == Ok::<
                (Seq<u8>, (Option<usize>, Option<Seq<u8>>, Seq<u8>)),
                ErrorModel,
            >((u, (Some(length), root, props_end))));
            assert(spec_node_props(props_end, Some(length), None, t1) == Ok::<
                (Seq<u8>, (Option<usize>, Option<Seq<u8>>, Seq<u8>)),
                ErrorModel,
            >((u, (Some(length), root, props_end))));
            assert(spec_node_props(t1, None, None, s) == Ok::<
                (Seq<u8>, (Option<usize>, Option<Seq<u8>>, Seq<u8>)),
                ErrorModel,
            >((u, (Some(length), root, props_end))));
        },
        None => {
            assert(spec_node_props(t1, None, None, s) == Ok::<
                (Seq<u8>, (Option<usize>, Option<Seq<u8>>, Seq<u8>)),
                ErrorModel,
            >((u, (Some(length), root, t1))));
        },
    }
}

/// A file of a tree that can be written in bencode: its name has a length
/// that fits in a `u64`, its length fits in an `i64`, and its pieces root,
/// where it has one, is 32 bytes long.
pub open spec fn tree_file_writable(e: (Seq<u8>, usize, Option<Seq<u8>>)) -> bool {
    &&& e.0.len() <= u64::MAX
    &&& e.1 <= i64::MAX
    &&& e.2 matches Some(x) ==> x.len() == 32
}

/// Named files one after the other, each name in bencode followed by its
/// file node.
pub open spec fn enc_tree_files(es: Seq<(Seq<u8>, usize, Option<Seq<u8>>)>) -> Seq<u8>
    decreases es.len(),
{
    if es.len() == 0 {
        Seq::empty()
    } else {
        enc_string(es[0].0) + enc_file_node(es[0].1, es[0].2) + enc_tree_files(es.drop_first())
    }
}

/// The map `acc` after the named files `es` are stored in it, in order, a
/// later file replacing an earlier one of the same name.
pub open spec fn tree_files_map(
    acc: Map<Seq<u8>, NodeModel>,
    es: Seq<(Seq<u8>, usize, Option<Seq<u8>>)>,
) -> Map<Seq<u8>, NodeModel>
    decreases es.len(),
{
    if es.len() == 0 {
        acc
    } else {
        tree_files_map(
            acc.insert(es[0].0, NodeModel::File { length: es[0].1, pieces_root: es[0].2 }),
            es.drop_first(),
        )
    }
}

proof fn lemma_tree_files_roundtrip(
    es: Seq<(Seq<u8>, usize, Option<Seq<u8>>)>,
    acc: Map<Seq<u8>, NodeModel>,
    rest: Seq<u8>,
)
    requires
        forall|i: int| 0 <= i < es.len() ==> tree_file_writable(#[trigger] es[i]),
    ensures
        spec_tree_entries(enc_tree_files(es) + seq![b_e()] + rest, acc) == Ok::<
            (Seq<u8>, Map<Seq<u8>, NodeModel>),
            ErrorModel,
        >((rest, tree_files_map(acc, es))),
    decreases es.len(),
{
    let s = enc_tree_files(es) + seq![b_e()] + rest;
    if es.len() == 0 {
        assert(s =~= seq![b_e()] + rest);
        assert(s.drop_first() =~= rest);
    } else {
        let e = es[0];
        assert(tree_file_writable(e));
        let tail = enc_tree_files(es.drop_first()) + seq![b_e()] + rest;
        let t = enc_file_node(e.1, e.2) + tail;
        assert(s =~= enc_string(e.0) + t);
        lemma_string_roundtrip(e.0, t);
        lemma_decimal(e.0.len());
        assert(s[0] == decimal(e.0.len())[0]);
        lemma_file_node_roundtrip(e.1, e.2, tail);
        assert forall|i: int| 0 <= i < es.drop_first().len() implies tree_file_writable(
            #[trigger] es.drop_first()[i],
        ) by {
            assert(tree_file_writable(es[i + 1]));
        }
        lemma_tree_files_roundtrip(
            es.drop_first(),
            acc.insert(e.0, NodeModel::File { length: e.1, pieces_root: e.2 }),
            rest,
        );
    }
}

/// A file tree of named files written in bencode is read back, whatever
/// follows it: each name maps to the file written under it (the last one,
/// where a name is written twice).
pub proof fn lemma_file_tree_roundtrip(es: Seq<(Seq<u8>, usize, Option<Seq<u8>>)>, rest: Seq<u8>)
    requires
        forall|i: int| 0 <= i < es.len() ==> tree_file_writable(#[trigger] es[i]),
    ensures
        spec_tree(seq![b_d()] + enc_tree_files(es) + seq![b_e()] + rest) == Ok::<
            (Seq<u8>, Map<Seq<u8>, NodeModel>),
            ErrorModel,
        >((rest, tree_files_map(Map::empty(), es))),
{
    let s = seq![b_d()] + enc_tree_files(es) + seq![b_e()] + rest;
    assert(s.drop_first() =~= enc_tree_files(es) + seq![b_e()] + rest);
    lemma_tree_files_roundtrip(es, Map::empty(), rest);
}

/// Every node that the node rule reads is well-formed.
pub proof fn lemma_node_wf(s: Seq<u8>)
    ensures
        spec_node(s) matches Ok((_, n)) ==> node_wf(n),
    decreases s.len(), 2nat,
{
    if starts_with(s, b_d()) {
        let s1 = s.drop_first();
        lemma_string_consumes(s1);
        if let Ok((t, name)) = spec_string(s1) {
            if name.len() != 0 {
                assert(digit_run(s1) > 0);
                lemma_tree_entries_wf(s1, Map::empty());
            }
        }
    }
}

/// Every file tree that the tree rule reads is well-formed.
pub proof fn lemma_tree_wf(s: Seq<u8>)
    ensures
        spec_tree(s) matches Ok((_, m)) ==> tree_wf(m),
    decreases s.len(), 1nat,
{
    if starts_with(s, b_d()) {
        lemma_tree_entries_wf(s.drop_first(), Map::empty());
    }
}

/// The entries of a file tree keep the names already read, add at least one
/// when the first byte is not the closing `e`, and are well-formed when the
/// ones already read are.
proof fn lemma_tree_entries_wf(s: Seq<u8>, acc: Map<Seq<u8>, NodeModel>)
    ensures
        spec_tree_entries(s, acc) matches Ok((_, m)) ==> {
            &&& (tree_wf(acc) ==> tree_wf(m))
            &&& forall|k: Seq<u8>| #[trigger] acc.contains_key(k) ==> m.contains_key(k)
            &&& (s[0] != b_e() ==> exists|k: Seq<u8>| m.contains_key(k))
        },
    decreases s.len(), 0nat,
{
    if s.len() > 0 && s[0] != b_e() {
        lemma_string_consumes(s);
        if let Ok((t, name)) = spec_string(s) {
            lemma_node_wf(t);
            lemma_node_consumes(t);
            if let Ok((u, n)) = spec_node(t) {
                let acc2 = acc.insert(name, n);
                if tree_wf(acc) {
                    assert forall|k: Seq<u8>| #[trigger] acc2.contains_key(k) implies node_wf(
                        acc2[k],
                    ) by {
                        if k != name {
                            assert(acc.contains_key(k));
                        }
                    }
                }
                lemma_tree_entries_wf(u, acc2);
                assert(spec_tree_entries(s, acc) == spec_tree_entries(u, acc2));
                if let Ok((_, m)) = spec_tree_entries(u, acc2) {
                    assert(acc2.contains_key(name));
                    assert(m.contains_key(name));
                    assert(tree_wf(acc) ==> tree_wf(m));
                    assert forall|k: Seq<u8>| #[trigger] acc.contains_key(k) implies m.contains_key(k) by {
                        assert(acc2.contains_key(k));
                    }
                }
            }
        }
    }
}

/// Parses a node of a version 2 file tree: a file or a directory.
pub fn parse_file_tree_node<'a>(input: &'a [u8]) -> (r: PResult<'a, FileTreeNode<'a>>)
    ensures
        parsed_as(r, spec_node(input@)),
    decreases input@.len(), 1nat,
{
    let t0 = match expect_byte(input, 100) {
        Ok(t) => t,
        Err(e) => return Err(e),
    };
    let (t, name) = match parse_bencode_string(t0) {
        Ok(p) => p,
        Err(e) => return Err(e),
    };
    if name.len() != 0 {
        return match parse_file_tree(input) {
            Ok((rest, tree)) => Ok((rest, FileTreeNode::Directory(tree))),
            Err(e) => Err(e),
        };
    }
    let mut cur = match expect_byte(t, 100) {
        Ok(c) => c,
        Err(e) => return Err(e),
    };
    let mut length: Option<usize> = None;
    let mut pieces_root: Option<&'a [u8]> = None;
    let mut last: &'a [u8] = input;
    loop
        invariant
            spec_node(input@) == spec_file_node(
                spec_node_props(cur@, length, opt_bytes(pieces_root), last@),
            ),
        decreases cur@.len(),
    {
        let next = match peek_byte(cur) {
            Some(b) => b,
            None => return Err(error_at(ErrorKind::Eof, cur)),
        };
        if next == 101 {
            let u = advance(cur, 1);
            assert(u@ =~= cur@.drop_first());
            let rest = match expect_byte(u, 101) {
                Ok(rest) => rest,
                Err(e) => return Err(e),
            };
            let length = match length {
                Some(l) => l,
                None => return Err(failure_at(ErrorKind::Fail, last)),
            };
            if let Some(pr) = pieces_root {
                if pr.len() != 32 {
                    return Err(failure_at(ErrorKind::Fail, last));
                }
            }
            return Ok((rest, FileTreeNode::File { length, pieces_root }));
        }
        let (t1, property) = match parse_bencode_string(cur) {
            Ok(p) => p,
            Err(e) => return Err(e),
        };
        proof {
            lemma_string_consumes(cur@);
        }
        last = cur;
        if is_key_length(property) {
            let (u, v) = match parse_bencode_int(t1) {
                Ok(p) => p,
                Err(e) => return Err(e),
            };
            proof {
                lemma_int_consumes(t1@);
            }
            length = if v < 0 {
                None
            } else {
                Some(v as usize)
            };
            cur = u;
        } else if is_key_pieces_root(property) {
            let (u, x) = match parse_bencode_string(t1) {
                Ok(p) => p,
                Err(e) => return Err(e),
            };
            proof {
                lemma_string_consumes(t1@);
            }
            pieces_root = Some(x);
            cur = u;
        } else {
            let (u, _) = match skip_bencode_value(t1) {
                Ok(p) => p,
                Err(e) => return Err(e),
            };
            proof {
                lemma_skip_value_consumes(t1@);
            }
            cur = u;
        }
    }
}

/// Parses a version 2 file tree: a dictionary from names to nodes.
pub fn parse_file_tree<'a>(input: &'a [u8]) -> (r: PResult<'a, ByteMap<'a, FileTreeNode<'a>>>)
    ensures
        parsed_with(r, spec_tree(input@), |m: ByteMap<'a, FileTreeNode<'a>>| tree_model(m)),
    decreases input@.len(), 0nat,
{
    let mut cur = match expect_byte(input, 100) {
        Ok(t) => t,
        Err(e) => return Err(e),
    };
    let mut map: ByteMap<'a, FileTreeNode<'a>> = ByteMap::new();
    proof {
        lemma_tree_model(map);
        assert(tree_model(map) =~= Map::<Seq<u8>, NodeModel>::empty());
    }
    loop
        invariant
            cur@.len() < input@.len(),
            spec_tree(input@) == spec_tree_entries(cur@, tree_model(map)),
        decreases cur@.len(),
    {
        let next = match peek_byte(cur) {
            Some(b) => b,
            None => return Err(error_at(ErrorKind::Eof, cur)),
        };
        if next == 101 {
            let rest = advance(cur, 1);
            assert(rest@ =~= cur@.drop_first());
            return Ok((rest, map));
        }
        let (t, name) = match parse_bencode_string(cur) {
            Ok(p) => p,
            Err(e) => return Err(e),
        };
        proof {
            lemma_string_consumes(cur@);
        }
        let (u, node) = match parse_file_tree_node(t) {
            Ok(p) => p,
            Err(e) => return Err(e),
        };
        proof {
            lemma_node_consumes(t@);
        }
        let ghost old_map = map;
        let ghost n = node_model(node);
        map.insert(name, node);
        proof {
            lemma_tree_model(old_map);
            lemma_tree_model(map);
            assert(tree_model(map) =~= tree_model(old_map).insert(name@, n));
        }
        cur = u;
    }
}

// ---------------------------------------------------------------------------
// Each part delimits itself
// ---------------------------------------------------------------------------
/// Bytes after an integer do not change how it is read.
pub proof fn lemma_int_extend(s: Seq<u8>, t: Seq<u8>)
    ensures
        spec_int(s) matches Ok((rest, v)) ==> spec_int(s + t) == Ok::<(Seq<u8>, i64), ErrorModel>((rest + t, v)),
{
    if let Ok((rest, v)) = spec_int(s) {
        let t0 = s.drop_first();
        assert((s + t).drop_first() =~= t0 + t);
        let k: int = if starts_with(t0, b_minus()) || starts_with(t0, b_plus()) {
            1
        } else {
            0
        };
        let t1 = t0.skip(k);
        assert((t0 + t).skip(k) =~= t1 + t);
        let n = digit_run(t1);
        lemma_digit_run_bound(t1);
        lemma_digit_run_append(t1, t);
        assert((t1 + t).take(n as int) =~= t1.take(n as int));
        assert((t1 + t).skip(n as int) =~= t1.skip(n as int) + t);
        assert((t1.skip(n as int) + t).drop_first() =~= t1.skip(n as int).drop_first() + t);
    }
}

proof fn lemma_string_items_extend(s: Seq<u8>, acc: Seq<Seq<u8>>, t: Seq<u8>)
    ensures
        spec_string_items(s, acc) matches Ok((rest, m)) ==> spec_string_items(s + t, acc) == Ok::<
            (Seq<u8>, Seq<Seq<u8>>),
            ErrorModel,
        >((rest + t, m)),
    decreases s.len(),
{
    if s.len() > 0 {
        assert((s + t)[0] == s[0]);
        if s[0] == b_e() {
            assert((s + t).drop_first() =~= s.drop_first() + t);
        } else {
            lemma_string_extend(s, t);
            lemma_string_consumes(s);
            if let Ok((r, x)) = spec_string(s) {
                lemma_string_items_extend(r, acc.push(x), t);
            }
        }
    }
}

/// Bytes after a list of strings do not change how it is read.
pub proof fn lemma_string_list_extend(s: Seq<u8>, t: Seq<u8>)
    ensures
        spec_string_list(s) matches Ok((rest, m)) ==> spec_string_list(s + t) == Ok::<
            (Seq<u8>, Seq<Seq<u8>>),
            ErrorModel,
        >((rest + t, m)),
{
    if starts_with(s, b_l()) {
        assert((s + t).drop_first() =~= s.drop_first() + t);
        lemma_string_items_extend(s.drop_first(), Seq::empty(), t);
    }
}

proof fn lemma_file_fields_extend(
    s: Seq<u8>,
    length: Option<usize>,
    path: Option<Seq<Seq<u8>>>,
    last: Seq<u8>,
    t: Seq<u8>,
)
    ensures
        spec_file_fields(s, length, path, last) matches Ok((rest, (a, b, c))) ==> spec_file_fields(
            s + t,
            length,
            path,
            last + t,
        ) == Ok::<(Seq<u8>, (Option<usize>, Option<Seq<Seq<u8>>>, Seq<u8>)), ErrorModel>(
            (rest + t, (a, b, c + t)),
        ),
    decreases s.len(),
{
    if s.len() > 0 {
        assert((s + t)[0] == s[0]);
        if s[0] == b_e() {
            assert((s + t).drop_first() =~= s.drop_first() + t);
        } else {
            lemma_string_extend(s, t);
            if let Ok((k, key)) = spec_string(s) {
                lemma_string_consumes(s);
                lemma_int_extend(k, t);
                lemma_string_list_extend(k, t);
                lemma_skip_value_extend(k, t);
                lemma_int_consumes(k);
                lemma_string_list_consumes(k);
                lemma_skip_value_consumes(k);
                if key == key_length() {
                    if let Ok((u, v)) = spec_int(k) {
                        lemma_file_fields_extend(u, nonneg(v), path, s, t);
                    }
                } else if key == key_path() {
                    if let Ok((u, p)) = spec_string_list(k) {
                        lemma_file_fields_extend(u, length, Some(p), s, t);
                    }
                } else {
                    if let Ok((u, _)) = spec_skip_value(k) {
                        lemma_file_fields_extend(u, length, path, s, t);
                    }
                }
            }
        }
    }
}

/// Bytes after a file entry do not change how it is read.
pub proof fn lemma_file_entry_extend(s: Seq<u8>, t: Seq<u8>)
    ensures
        spec_file_entry(s) matches Ok((rest, m)) ==> spec_file_entry(s + t) == Ok::<
            (Seq<u8>, FileV1Model),
            ErrorModel,
        >((rest + t, m)),
{
    if starts_with(s, b_d()) {
        assert((s + t).drop_first() =~= s.drop_first() + t);
        lemma_file_fields_extend(s.drop_first(), None, None, s.drop_first(), t);
        assert((s + t).drop_first() =~= s.drop_first() + t);
    }
}

proof fn lemma_file_items_extend(s: Seq<u8>, acc: Seq<FileV1Model>, t: Seq<u8>)
    ensures
        spec_file_items(s, acc) matches Ok((rest, m)) ==> spec_file_items(s + t, acc) == Ok::<
            (Seq<u8>, Seq<FileV1Model>),
            ErrorModel,
        >((rest + t, m)),
    decreases s.len(),
{
    if s.len() > 0 {
        assert((s + t)[0] == s[0]);
        if s[0] == b_e() {
            assert((s + t).drop_first() =~= s.drop_first() + t);
        } else {
            lemma_file_entry_extend(s, t);
            lemma_file_entry_consumes(s);
            if let Ok((r, f)) = spec_file_entry(s) {
                lemma_file_items_extend(r, acc.push(f), t);
            }
        }
    }
}

/// Bytes after a file list do not change how it is read.
pub proof fn lemma_files_list_extend(s: Seq<u8>, t: Seq<u8>)
    ensures
        spec_files_list(s) matches Ok((rest, m)) ==> spec_files_list(s + t) == Ok::<
            (Seq<u8>, Seq<FileV1Model>),
            ErrorModel,
        >((rest + t, m)),
{
    if starts_with(s, b_l()) && !starts_with(s.drop_first(), b_e()) {
        assert((s + t).drop_first() =~= s.drop_first() + t);
        lemma_file_items_extend(s.drop_first(), Seq::empty(), t);
    }
}

proof fn lemma_node_props_extend(
    s: Seq<u8>,
    length: Option<usize>,
    root: Option<Seq<u8>>,
    last: Seq<u8>,
    t: Seq<u8>,
)
    ensures
        spec_node_props(s, length, root, last) matches Ok((rest, (a, b, c))) ==> spec_node_props(
            s + t,
            length,
            root,
            last + t,
        ) == Ok::<(Seq<u8>, (Option<usize>, Option<Seq<u8>>, Seq<u8>)), ErrorModel>(
            (rest + t, (a, b, c + t)),
        ),
    decreases s.len(),
{
    if s.len() > 0 {
        assert((s + t)[0] == s[0]);
        if s[0] == b_e() {
            assert((s + t).drop_first() =~= s.drop_first() + t);
        } else {
            lemma_string_extend(s, t);
            if let Ok((k, key)) = spec_string(s) {
                lemma_string_consumes(s);
                lemma_int_extend(k, t);
                lemma_string_extend(k, t);
                lemma_skip_value_extend(k, t);
                lemma_int_consumes(k);
                lemma_string_consumes(k);
                lemma_skip_value_consumes(k);
                if key == key_length() {
                    if let Ok((u, v)) = spec_int(k) {
                        lemma_node_props_extend(u, nonneg(v), root, s, t);
                    }
                } else if key == key_pieces_root() {
                    if let Ok((u, x)) = spec_string(k) {
                        lemma_node_props_extend(u, length, Some(x), s, t);
                    }
                } else {
                    if let Ok((u, _)) = spec_skip_value(k) {
                        lemma_node_props_extend(u, length, root, s, t);
                    }
                }
            }
        }
    }
}

/// Bytes after a file tree node do not change how it is read.
pub proof fn lemma_node_extend(s: Seq<u8>, t: Seq<u8>)
    ensures
        spec_node(s) matches Ok((rest, m)) ==> spec_node(s + t) == Ok::<(Seq<u8>, NodeModel), ErrorModel>(
            (rest + t, m),
        ),
    decreases s.len(), 2nat,
{
    if starts_with(s, b_d()) {
        let s1 = s.drop_first();
        assert((s + t).drop_first() =~= s1 + t);
        lemma_string_extend(s1, t);
        lemma_string_consumes(s1);
        if let Ok((k, name)) = spec_string(s1) {
            if name.len() == 0 {
                if starts_with(k, b_d()) {
                    assert((k + t).drop_first() =~= k.drop_first() + t);
                    lemma_node_props_extend(k.drop_first(), None, None, s, t);
                    if let Ok((u, _)) = spec_node_props(k.drop_first(), None, None, s) {
                        if starts_with(u, b_e()) {
                            assert((u + t)[0] == u[0]);
                            assert((u + t).drop_first() =~= u.drop_first() + t);
                        }
                    }
                }
            } else {
                lemma_tree_extend(s, t);
            }
        }
    }
}

/// Bytes after a file tree do not change how it is read.
pub proof fn lemma_tree_extend(s: Seq<u8>, t: Seq<u8>)
    ensures
        spec_tree(s) matches Ok((rest, m)) ==> spec_tree(s + t) == Ok::<
            (Seq<u8>, Map<Seq<u8>, NodeModel>),
            ErrorModel,
        >((rest + t, m)),
    decreases s.len(), 1nat,
{
    if starts_with(s, b_d()) {
        assert((s + t).drop_first() =~= s.drop_first() + t);
        lemma_tree_entries_extend(s.drop_first(), Map::empty(), t);
    }
}

proof fn lemma_tree_entries_extend(s: Seq<u8>, acc: Map<Seq<u8>, NodeModel>, t: Seq<u8>)
    ensures
        spec_tree_entries(s, acc) matches Ok((rest, m)) ==> spec_tree_entries(s + t, acc) == Ok::<
            (Seq<u8>, Map<Seq<u8>, NodeModel>),
            ErrorModel,
        >((rest + t, m)),
    decreases s.len(), 0nat,
{
    if s.len() > 0 {
        assert((s + t)[0] == s[0]);
        if s[0] == b_e() {
            assert((s + t).drop_first() =~= s.drop_first() + t);
        } else {
            lemma_string_extend(s, t);
            lemma_string_consumes(s);
            if let Ok((k, name)) = spec_string(s) {
                lemma_node_extend(k, t);
                lemma_node_consumes(k);
                if let Ok((u, n)) = spec_node(k) {
                    lemma_tree_entries_extend(u, acc.insert(name, n), t);
                }
            }
        }
    }
}

// ---------------------------------------------------------------------------
// Parsing and stepping over agree
// ---------------------------------------------------------------------------
/// No integer in the bencode value at the start of `s` is written with a
/// `+` sign. The value is followed as far as it reaches: into the items of a
/// list and the values of a dictionary, and not into strings.
pub open spec fn plus_free(s: Seq<u8>) -> bool
    decreases s.len(), 0nat,
{
    if s.len() == 0 {
        true
    } else if s[0] == b_i() {
        !(s.len() > 1 && s[1] == b_plus())
    } else if s[0] == b_l() {
        plus_free_items(s.drop_first())
    } else if s[0] == b_d() {
        plus_free_entries(s.drop_first())
    } else {
        true
    }
}

/// No integer in the items of a list, from the start of `s` to its closing
/// `e`, is written with a `+` sign.
pub open spec fn plus_free_items(s: Seq<u8>) -> bool
    decreases s.len(), 1nat,
{
    if s.len() == 0 || s[0] == b_e() {
        true
    } else {
        &&& plus_free(s)
        &&& match spec_skip_value(s) {
            Ok((r, _)) => if r.len() < s.len() {
                plus_free_items(r)
            } else {
                true
            },
            Err(_) => true,
        }
    }
}

/// No integer in the values of a dictionary, from the start of `s` to its
/// closing `e`, is written with a `+` sign.
pub open spec fn plus_free_entries(s: Seq<u8>) -> bool
    decreases s.len(), 1nat,
{
    if s.len() == 0 || s[0] == b_e() {
        true
    } else {
        match spec_string(s) {
            Ok((t, _)) => if t.len() < s.len() {
                &&& plus_free(t)
                &&& match spec_skip_value(t) {
                    Ok((r, _)) => if r.len() < t.len() {
                        plus_free_entries(r)
                    } else {
                        true
                    },
                    Err(_) => true,
                }
            } else {
                true
            },
            Err(_) => true,
        }
    }
}

proof fn lemma_int_agrees(s: Seq<u8>)
    requires
        plus_free(s),
    ensures
        spec_int(s) matches Ok((rest, _)) ==> spec_skip_value(s) == Ok::<(Seq<u8>, ()), ErrorModel>((rest, ())),
{
    if starts_with(s, b_i()) {
        lemma_skip_agrees_with_int(s);
    }
}

proof fn lemma_file_fields_agree(
    s: Seq<u8>,
    length: Option<usize>,
    path: Option<Seq<Seq<u8>>>,
    last: Seq<u8>,
)
    requires
        plus_free_entries(s),
    ensures
        spec_file_fields(s, length, path, last) matches Ok((rest, _)) ==> spec_skip_dict_items(s) == Ok::<(Seq<u8>, ()), ErrorModel>((rest, ())),
    decreases s.len(),
{
    if s.len() > 0 && s[0] != b_e() {
        lemma_string_consumes(s);
        if let Ok((t, key)) = spec_string(s) {
            lemma_int_agrees(t);
            lemma_int_consumes(t);
            lemma_skip_agrees_with_string_list(t);
            lemma_string_list_consumes(t);
            lemma_skip_value_consumes(t);
            if key == key_length() {
                if let Ok((u, v)) = spec_int(t) {
                    lemma_file_fields_agree(u, nonneg(v), path, s);
                }
            } else if key == key_path() {
                if let Ok((u, p)) = spec_string_list(t) {
                    lemma_file_fields_agree(u, length, Some(p), s);
                }
            } else {
                if let Ok((u, _)) = spec_skip_value(t) {
                    lemma_file_fields_agree(u, length, path, s);
                }
            }
        }
    }
}

proof fn lemma_file_entry_agrees(s: Seq<u8>)
    requires
        plus_free(s),
    ensures
        spec_file_entry(s) matches Ok((rest, _)) ==> spec_skip_value(s) == Ok::<(Seq<u8>, ()), ErrorModel>((rest, ())),
{
    if starts_with(s, b_d()) {
        assert(s.skip(1) =~= s.drop_first());
        lemma_file_fields_agree(s.drop_first(), None, None, s.drop_first());
    }
}

proof fn lemma_file_items_agree(s: Seq<u8>, acc: Seq<FileV1Model>)
    requires
        plus_free_items(s),
    ensures
        spec_file_items(s, acc) matches Ok((rest, _)) ==> spec_skip_list_items(s) == Ok::<(Seq<u8>, ()), ErrorModel>((rest, ())),
    decreases s.len(),
{
    if s.len() > 0 && s[0] != b_e() {
        lemma_file_entry_agrees(s);
        lemma_file_entry_consumes(s);
        if let Ok((r, f)) = spec_file_entry(s) {
            lemma_file_items_agree(r, acc.push(f));
        }
    }
}

proof fn lemma_files_list_agrees(s: Seq<u8>)
    requires
        plus_free(s),
    ensures
        spec_files_list(s) matches Ok((rest, _)) ==> spec_skip_value(s) == Ok::<(Seq<u8>, ()), ErrorModel>((rest, ())),
{
    if starts_with(s, b_l()) {
        assert(s.skip(1) =~= s.drop_first());
        lemma_file_items_agree(s.drop_first(), Seq::empty());
    }
}

proof fn lemma_node_props_agree(
    s: Seq<u8>,
    length: Option<usize>,
    root: Option<Seq<u8>>,
    last: Seq<u8>,
)
    requires
        plus_free_entries(s),
    ensures
        spec_node_props(s, length, root, last) matches Ok((rest, _)) ==> spec_skip_dict_items(s) == Ok::<(Seq<u8>, ()), ErrorModel>((rest, ())),
    decreases s.len(),
{
    if s.len() > 0 && s[0] != b_e() {
        lemma_string_consumes(s);
        if let Ok((t, key)) = spec_string(s) {
            lemma_int_agrees(t);
            lemma_int_consumes(t);
            lemma_skip_agrees_with_string(t);
            lemma_string_consumes(t);
            lemma_skip_value_consumes(t);
            if key == key_length() {
                if let Ok((u, v)) = spec_int(t) {
                    lemma_node_props_agree(u, nonneg(v), root, s);
                }
            } else if key == key_pieces_root() {
                if let Ok((u, x)) = spec_string(t) {
                    lemma_node_props_agree(u, length, Some(x), s);
                }
            } else {
                if let Ok((u, _)) = spec_skip_value(t) {
                    lemma_node_props_agree(u, length, root, s);
                }
            }
        }
    }
}

proof fn lemma_node_agrees(s: Seq<u8>)
    requires
        plus_free(s),
    ensures
        spec_node(s) matches Ok((rest, _)) ==> spec_skip_value(s) == Ok::<(Seq<u8>, ()), ErrorModel>((rest, ())),
    decreases s.len(), 2nat,
{
    if starts_with(s, b_d()) {
        let s1 = s.drop_first();
        assert(s.skip(1) =~= s1);
        lemma_string_consumes(s1);
        if let Ok((t, name)) = spec_string(s1) {
            assert(digit_run(s1) > 0);
            assert(s1[0] != b_e());
            assert(plus_free_entries(s1));
            assert(plus_free(t));
            if name.len() == 0 {
                if starts_with(t, b_d()) {
                    let t1 = t.drop_first();
                    assert(t.skip(1) =~= t1);
                    assert(plus_free_entries(t1));
                    lemma_node_props_agree(t1, None, None, s);
                    lemma_node_props_consumes(t1, None, None, s);
                    if let Ok((u, _)) = spec_node_props(t1, None, None, s) {
                        if starts_with(u, b_e()) {
                            assert(spec_skip_value(t) == Ok::<(Seq<u8>, ()), ErrorModel>((u, ())));
                            lemma_suffix_trans(u, t1, t);
                            assert(spec_skip_dict_items(u) == Ok::<(Seq<u8>, ()), ErrorModel>(
                                (u.drop_first(), ()),
                            ));
                        }
                    }
                }
            } else {
                lemma_tree_agrees(s);
            }
        }
    }
}

proof fn lemma_tree_agrees(s: Seq<u8>)
    requires
        plus_free(s),
    ensures
        spec_tree(s) matches Ok((rest, _)) ==> spec_skip_value(s) == Ok::<(Seq<u8>, ()), ErrorModel>((rest, ())),
    decreases s.len(), 1nat,
{
    if starts_with(s, b_d()) {
        assert(s.skip(1) =~= s.drop_first());
        lemma_tree_entries_agree(s.drop_first(), Map::empty());
    }
}

proof fn lemma_tree_entries_agree(s: Seq<u8>, acc: Map<Seq<u8>, NodeModel>)
    requires
        plus_free_entries(s),
    ensures
        spec_tree_entries(s, acc) matches Ok((rest, _)) ==> spec_skip_dict_items(s) == Ok::<(Seq<u8>, ()), ErrorModel>((rest, ())),
    decreases s.len(), 0nat,
{
    if s.len() > 0 && s[0] != b_e() {
        lemma_string_consumes(s);
        if let Ok((t, name)) = spec_string(s) {
            lemma_node_agrees(t);
            lemma_node_consumes(t);
            if let Ok((u, n)) = spec_node(t) {
                lemma_tree_entries_agree(u, acc.insert(name, n));
            }
        }
    }
}

// ---------------------------------------------------------------------------
// The info dictionary
// ---------------------------------------------------------------------------
/// The fields of an info dictionary read so far.
pub struct InfoFields {
    pub file_tree: Option<Map<Seq<u8>, NodeModel>>,
    pub files: Option<Seq<FileV1Model>>,
    pub length: Option<usize>,
    pub meta_version: Option<i64>,
    pub name: Option<Seq<u8>>,
    pub piece_length: Option<usize>,
    pub pieces: Option<Seq<u8>>,
}

/// No field read yet.
pub open spec fn no_info_fields() -> InfoFields {
    InfoFields {
        file_tree: None,
        files: None,
        length: None,
        meta_version: None,
        name: None,
        piece_length: None,
        pieces: None,
    }
}

/// The value of the field `key` at the start of `t`, stored into `f`:
/// `file tree` is a file tree, `files` a file list, `length` and
/// `piece length` integers (a negative one counts as none), `meta version`
/// an integer, `name` a string, and `pieces` a string (one whose length is
/// not a multiple of 20 counts as none). Any other value is stepped over.
pub open spec fn spec_info_value(key: Seq<u8>, t: Seq<u8>, f: InfoFields) -> SpecResult<InfoFields> {
    if key == key_file_tree() {
        match spec_tree(t) {
            Err(e) => Err(e),
            Ok((u, m)) => Ok((u, InfoFields { file_tree: Some(m), ..f })),
        }
    } else if key == key_files() {
        match spec_files_list(t) {
            Err(e) => Err(e),
            Ok((u, l)) => Ok((u, InfoFields { files: Some(l), ..f })),
        }
    } else if key == key_length() {
        match spec_int(t) {
            Err(e) => Err(e),
            Ok((u, v)) => Ok((u, InfoFields { length: nonneg(v), ..f })),
        }
    } else if key == key_meta_version() {
        match spec_int(t) {
            Err(e) => Err(e),
            Ok((u, v)) => Ok((u, InfoFields { meta_version: Some(v), ..f })),
        }
    } else if key == key_name() {
        match spec_string(t) {
            Err(e) => Err(e),
            Ok((u, x)) => Ok((u, InfoFields { name: Some(x), ..f })),
        }
    } else if key == key_piece_length() {
        match spec_int(t) {
            Err(e) => Err(e),
            Ok((u, v)) => Ok((u, InfoFields { piece_length: nonneg(v), ..f })),
        }
    } else if key == key_pieces() {
        match spec_string(t) {
            Err(e) => Err(e),
            Ok((u, x)) => Ok(
                (
                    u,
                    InfoFields {
                        pieces: if x.len() % 20 == 0 {
                            Some(x)
                        } else {
                            None
                        },
                        ..f
                    },
                ),
            ),
        }
    } else {
        match spec_skip_value(t) {
            Err(e) => Err(e),
            Ok((u, _)) => Ok((u, f)),
        }
    }
}

/// The fields of an info dictionary up to and including its closing `e`,
/// after the fields `f` read so far and the position `last` of the last key
/// read; a later field replaces an earlier one. An input that ends before
/// the closing `e` is an `Eof` error there.
pub open spec fn spec_info_fields(s: Seq<u8>, f: InfoFields, last: Seq<u8>) -> SpecResult<
    (InfoFields, Seq<u8>),
>
    decreases s.len(),
{
    if s.len() == 0 {
        Err(err_at(ErrorKind::Eof, s))
    } else if s[0] == b_e() {
        Ok((s.drop_first(), (f, last)))
    } else {
        match spec_string(s) {
            Err(e) => Err(e),
            Ok((t, key)) => if t.len() >= s.len() {
                Err(err_at(ErrorKind::Tag, s))
            } else {
                match spec_info_value(key, t, f) {
                    Err(e) => Err(e),
                    Ok((u, g)) => if u.len() < t.len() {
                        spec_info_fields(u, g, s)
                    } else {
                        Err(err_at(ErrorKind::Tag, s))
                    },
                }
            },
        }
    }
}

/// The file layout that the fields describe: a file tree alone (version 2);
/// a file tree, a file list and pieces (hybrid); a length and pieces (one
/// file); or a file list and pieces (several files). Any other combination
/// describes none.
pub open spec fn spec_layout(f: InfoFields) -> Option<LayoutModel> {
    match (f.file_tree, f.files, f.length, f.pieces) {
        (Some(ft), None, None, None) => Some(LayoutModel::V2 { file_tree: ft }),
        (Some(ft), Some(fl), None, Some(p)) => Some(
            LayoutModel::Hybrid { pieces: p, files: fl, file_tree: ft },
        ),
        (None, None, Some(l), Some(p)) => Some(LayoutModel::V1SingleFile { pieces: p, length: l }),
        (None, Some(fl), None, Some(p)) => Some(LayoutModel::V1MultiFile { pieces: p, files: fl }),
        _ => None,
    }
}

/// The info dictionary from its fields and the rest after them. A missing
/// or negative `piece length` is a fatal `Fail` error at the last key (or
/// after the `d` when there is none). Fields that describe no file layout
/// are a fatal `Fail` error: at the last key when there is no (non-negative)
/// `length`, otherwise after the dictionary.
pub open spec fn spec_info_from_fields(r: SpecResult<(InfoFields, Seq<u8>)>) -> SpecResult<
    InfoModel,
> {
    match r {
        Err(e) => Err(e),
        Ok((rest, (f, last))) => match f.piece_length {
            None => Err(fail_at(ErrorKind::Fail, last)),
            Some(pl) => match spec_layout(f) {
                None => if f.length is None {
                    Err(fail_at(ErrorKind::Fail, last))
                } else {
                    Err(fail_at(ErrorKind::Fail, rest))
                },
                Some(layout) => Ok(
                    (
                        rest,
                        InfoModel {
                            name: f.name,
                            piece_length: pl,
                            meta_version: f.meta_version,
                            file_layout: layout,
                        },
                    ),
                ),
            },
        },
    }
}

/// The info dictionary rule: `d`, fields, `e`.
pub open spec fn spec_info(s: Seq<u8>) -> SpecResult<InfoModel> {
    if !starts_with(s, b_d()) {
        Err(err_at(ErrorKind::Tag, s))
    } else {
        spec_info_from_fields(spec_info_fields(s.drop_first(), no_info_fields(), s.drop_first()))
    }
}

proof fn lemma_info_value_consumes(key: Seq<u8>, t: Seq<u8>, f: InfoFields)
    ensures
        consumes(spec_info_value(key, t, f), t),
{
    lemma_tree_consumes(t);
    lemma_files_list_consumes(t);
    lemma_int_consumes(t);
    lemma_string_consumes(t);
    lemma_skip_value_consumes(t);
}

proof fn lemma_info_fields_consumes(s: Seq<u8>, f: InfoFields, last: Seq<u8>)
    ensures
        consumes(spec_info_fields(s, f, last), s),
    decreases s.len(),
{
    if s.len() > 0 {
        if s[0] == b_e() {
            assert(s.drop_first() =~= s.skip(1));
        } else {
            lemma_string_consumes(s);
            if let Ok((t, key)) = spec_string(s) {
                lemma_info_value_consumes(key, t, f);
                if let Ok((u, g)) = spec_info_value(key, t, f) {
                    lemma_suffix_trans(u, t, s);
                    lemma_info_fields_consumes(u, g, s);
                    if let Ok((w, _)) = spec_info_fields(u, g, s) {
                        lemma_suffix_trans(w, u, s);
                    }
                }
            }
        }
    }
}

/// An info dictionary is read from a proper prefix of the input.
pub proof fn lemma_info_consumes(s: Seq<u8>)
    ensures
        consumes(spec_info(s), s),
{
    if starts_with(s, b_d()) {
        lemma_info_fields_consumes(s.drop_first(), no_info_fields(), s.drop_first());
        if let Ok((rest, _)) = spec_info(s) {
            assert(rest =~= s.skip(s.len() - rest.len()));
        }
    }
}

/// The fields read so far hold only well-formed values.
pub open spec fn info_fields_wf(f: InfoFields) -> bool {
    &&& (f.pieces matches Some(p) ==> p.len() % 20 == 0)
    &&& (f.files matches Some(l) ==> l.len() > 0)
    &&& (f.file_tree matches Some(m) ==> tree_wf(m))
}

proof fn lemma_info_fields_wf(s: Seq<u8>, f: InfoFields, last: Seq<u8>)
    requires
        info_fields_wf(f),
    ensures
        spec_info_fields(s, f, last) matches Ok((_, (g, _))) ==> info_fields_wf(g),
    decreases s.len(),
{
    if s.len() > 0 && s[0] != b_e() {
        lemma_string_consumes(s);
        if let Ok((t, key)) = spec_string(s) {
            lemma_tree_wf(t);
            lemma_files_list_nonempty(t);
            lemma_info_value_consumes(key, t, f);
            if let Ok((u, g)) = spec_info_value(key, t, f) {
                lemma_info_fields_wf(u, g, s);
            }
        }
    }
}

/// Every info dictionary that the info rule reads is well-formed (pieces a
/// multiple of 20 bytes, a non-empty file list, a well-formed file tree), and
/// it is read from a proper prefix of the input.
pub proof fn lemma_info_wf(s: Seq<u8>)
    ensures
        spec_info(s) matches Ok((rest, i)) ==> info_wf(i) && proper_suffix(rest, s),
{
    lemma_info_consumes(s);
    if starts_with(s, b_d()) {
        lemma_info_fields_wf(s.drop_first(), no_info_fields(), s.drop_first());
    }
}

proof fn lemma_info_value_agrees(key: Seq<u8>, t: Seq<u8>, f: InfoFields)
    requires
        plus_free(t),
    ensures
        spec_info_value(key, t, f) matches Ok((u, _)) ==> spec_skip_value(t) == Ok::<(Seq<u8>, ()), ErrorModel>((u, ())),
{
    if key == key_file_tree() {
        lemma_tree_agrees(t);
    } else if key == key_files() {
        lemma_files_list_agrees(t);
    } else if key == key_length() {
        lemma_int_agrees(t);
    } else if key == key_meta_version() {
        lemma_int_agrees(t);
    } else if key == key_name() {
        lemma_skip_agrees_with_string(t);
    } else if key == key_piece_length() {
        lemma_int_agrees(t);
    } else if key == key_pieces() {
        lemma_skip_agrees_with_string(t);
    } else {
        if let Ok((u, x)) = spec_skip_value(t) {
            assert(x == ());
            assert(spec_info_value(key, t, f) == Ok::<(Seq<u8>, InfoFields), ErrorModel>((u, f)));
        }
    }
}

proof fn lemma_info_fields_agree(s: Seq<u8>, f: InfoFields, last: Seq<u8>)
    requires
        plus_free_entries(s),
    ensures
        spec_info_fields(s, f, last) matches Ok((rest, _)) ==> spec_skip_dict_items(s) == Ok::<(Seq<u8>, ()), ErrorModel>((rest, ())),
    decreases s.len(),
{
    if s.len() > 0 && s[0] != b_e() {
        lemma_string_consumes(s);
        if let Ok((t, key)) = spec_string(s) {
            lemma_info_value_agrees(key, t, f);
            lemma_info_value_consumes(key, t, f);
            if let Ok((u, g)) = spec_info_value(key, t, f) {
                lemma_info_fields_agree(u, g, s);
            }
        }
    }
}

/// When no integer in the value at the start of the input is written with a
/// `+` sign (a `+` inside a string does not count), stepping over that value
/// passes over exactly the info dictionary that parsing reads: the bytes of
/// the dictionary are the input less the rest.
/// (`d12:piece lengthi+4e6:lengthi1e6:pieces0:e` is read as an info
/// dictionary but refused by `skip_bencode_value`.)
pub proof fn lemma_skip_agrees_with_info(s: Seq<u8>)
    requires
        plus_free(s),
    ensures
        spec_info(s) matches Ok((rest, _)) ==> spec_skip_value(s) == Ok::<(Seq<u8>, ()), ErrorModel>((rest, ())),
{
    if starts_with(s, b_d()) {
        assert(s.skip(1) =~= s.drop_first());
        lemma_info_fields_agree(s.drop_first(), no_info_fields(), s.drop_first());
    }
}

// ---------------------------------------------------------------------------
// The order of the info fields
// ---------------------------------------------------------------------------
/// A dictionary entry as bytes: the key in bencode, then the bytes of its value.
pub open spec fn enc_entry(e: (Seq<u8>, Seq<u8>)) -> Seq<u8> {
    enc_string(e.0) + e.1
}

/// Dictionary entries one after the other.
pub open spec fn enc_entries(es: Seq<(Seq<u8>, Seq<u8>)>) -> Seq<u8>
    decreases es.len(),
{
    if es.len() == 0 {
        Seq::empty()
    } else {
        enc_entry(es[0]) + enc_entries(es.drop_first())
    }
}

/// An info dictionary in bencode: `d`, the entries, `e`.
pub open spec fn enc_info(es: Seq<(Seq<u8>, Seq<u8>)>) -> Seq<u8> {
    seq![b_d()] + enc_entries(es) + seq![b_e()]
}

/// The bytes `e.1` are exactly one value of the info field named `e.0`
/// (for a key the info rule does not know, one bencode value).
pub open spec fn info_entry_ok(e: (Seq<u8>, Seq<u8>)) -> bool {
    &&& e.0.len() <= u64::MAX
    &&& spec_info_value(e.0, e.1, no_info_fields()) matches Ok((rest, _))
    &&& rest.len() == 0
}

/// Every entry of `es` is one.
pub open spec fn info_entries_ok(es: Seq<(Seq<u8>, Seq<u8>)>) -> bool {
    forall|i: int| 0 <= i < es.len() ==> #[trigger] info_entry_ok(es[i])
}

/// The fields `f` after the entry `e` is read into them.
#[verifier::opaque]
pub open spec fn info_update(f: InfoFields, e: (Seq<u8>, Seq<u8>)) -> InfoFields {
    match spec_info_value(e.0, e.1, f) {
        Ok((_, g)) => g,
        Err(_) => f,
    }
}

/// The fields `f` after the entries `es` are read into them, in order.
pub open spec fn info_fold(f: InfoFields, es: Seq<(Seq<u8>, Seq<u8>)>) -> InfoFields
    decreases es.len(),
{
    if es.len() == 0 {
        f
    } else {
        info_fold(info_update(f, es[0]), es.drop_first())
    }
}

/// One of the keys that the info rule reads.
pub open spec fn known_info_key(k: Seq<u8>) -> bool {
    k == key_file_tree() || k == key_files() || k == key_length() || k == key_meta_version() || k
        == key_name() || k == key_piece_length() || k == key_pieces()
}

#[verifier::spinoff_prover]
#[verifier::rlimit(40)]
proof fn lemma_info_value_extend(k: Seq<u8>, v: Seq<u8>, f: InfoFields, t: Seq<u8>)
    ensures
        spec_info_value(k, v, f) matches Ok((r, g)) ==> spec_info_value(k, v + t, f) == Ok::<
            (Seq<u8>, InfoFields),
            ErrorModel,
        >((r + t, g)),
{
    if k == key_file_tree() {
        lemma_tree_extend(v, t);
    } else if k == key_files() {
        lemma_files_list_extend(v, t);
    } else if k == key_length() || k == key_meta_version() || k == key_piece_length() {
        lemma_int_extend(v, t);
    } else if k == key_name() || k == key_pieces() {
        lemma_string_extend(v, t);
    } else {
        lemma_skip_value_extend(v, t);
    }
}

/// Whether a value is read, and where it ends, does not depend on the
/// fields read before it.
proof fn lemma_info_value_any_fields(k: Seq<u8>, v: Seq<u8>, f: InfoFields, g: InfoFields)
    ensures
        spec_info_value(k, v, f) matches Ok((r, _)) ==> spec_info_value(k, v, g) matches Ok((r2, _))
            && r2 == r,
{
}

/// An entry that is one value is read whole, whatever follows it and
/// whatever was read before it.
proof fn lemma_info_entry_in_context(e: (Seq<u8>, Seq<u8>), f: InfoFields, t: Seq<u8>)
    requires
        info_entry_ok(e),
    ensures
        spec_info_value(e.0, e.1 + t, f) == Ok::<(Seq<u8>, InfoFields), ErrorModel>(
            (t, info_update(f, e)),
        ),
        e.1.len() > 0,
{
    reveal(info_update);
    lemma_info_value_any_fields(e.0, e.1, no_info_fields(), f);
    lemma_info_value_extend(e.0, e.1, f, t);
    lemma_info_value_consumes(e.0, e.1, no_info_fields());
    assert(Seq::<u8>::empty() + t =~= t);
}

/// Entries in bencode, then the closing `e`, are read as the fold of the
/// entries, whatever follows.
proof fn lemma_info_fields_of_entries(
    es: Seq<(Seq<u8>, Seq<u8>)>,
    f: InfoFields,
    rest: Seq<u8>,
    last: Seq<u8>,
)
    requires
        info_entries_ok(es),
    ensures
        spec_info_fields(enc_entries(es) + seq![b_e()] + rest, f, last) matches Ok((r, (g, _)))
            && r == rest && g == info_fold(f, es),
    decreases es.len(),
{
    let s = enc_entries(es) + seq![b_e()] + rest;
    if es.len() == 0 {
        assert(s =~= seq![b_e()] + rest);
        assert(s.drop_first() =~= rest);
    } else {
        let e = es[0];
        assert(info_entry_ok(e));
        let tail = enc_entries(es.drop_first()) + seq![b_e()] + rest;
        assert(s =~= enc_string(e.0) + (e.1 + tail));
        lemma_string_roundtrip(e.0, e.1 + tail);
        lemma_decimal(e.0.len());
        assert(s[0] == decimal(e.0.len())[0]);
        lemma_info_entry_in_context(e, f, tail);
        assert forall|i: int| 0 <= i < es.drop_first().len() implies #[trigger] info_entry_ok(
            es.drop_first()[i],
        ) by {
            assert(info_entry_ok(es[i + 1]));
        }
        lemma_info_fields_of_entries(es.drop_first(), info_update(f, e), rest, s);
    }
}

proof fn lemma_info_fold_append(f: InfoFields, a: Seq<(Seq<u8>, Seq<u8>)>, b: Seq<(Seq<u8>, Seq<u8>)>)
    ensures
        info_fold(f, a + b) == info_fold(info_fold(f, a), b),
    decreases a.len(),
{
    if a.len() == 0 {
        assert(a + b =~= b);
    } else {
        assert((a + b).drop_first() =~= a.drop_first() + b);
        lemma_info_fold_append(info_update(f, a[0]), a.drop_first(), b);
    }
}

/// Reading an entry changes at most the field named by its key, to a value
/// that does not depend on the fields read before.
proof fn lemma_info_update_fields(f: InfoFields, e: (Seq<u8>, Seq<u8>))
    ensures
        ({
            let g = info_update(no_info_fields(), e);
            let h = info_update(f, e);
            let read = spec_info_value(e.0, e.1, no_info_fields()) is Ok;
            &&& h.file_tree == (if read && e.0 == key_file_tree() {
                g.file_tree
            } else {
                f.file_tree
            })
            &&& h.files == (if read && e.0 == key_files() {
                g.files
            } else {
                f.files
            })
            &&& h.length == (if read && e.0 == key_length() {
                g.length
            } else {
                f.length
            })
            &&& h.meta_version == (if read && e.0 == key_meta_version() {
                g.meta_version
            } else {
                f.meta_version
            })
            &&& h.name == (if read && e.0 == key_name() {
                g.name
            } else {
                f.name
            })
            &&& h.piece_length == (if read && e.0 == key_piece_length() {
                g.piece_length
            } else {
                f.piece_length
            })
            &&& h.pieces == (if read && e.0 == key_pieces() {
                g.pieces
            } else {
                f.pieces
            })
        }),
{
    reveal(info_update);
    lemma_info_value_any_fields(e.0, e.1, no_info_fields(), f);
    lemma_info_value_any_fields(e.0, e.1, f, no_info_fields());
    let k = e.0;
    if k == key_file_tree() {
    } else if k == key_files() {
    } else if k == key_length() {
    } else if k == key_meta_version() {
    } else if k == key_name() {
    } else if k == key_piece_length() {
    } else if k == key_pieces() {
    } else {
    }
}

/// Reading two entries in either order gives the same fields, where their
/// keys differ or the info rule does not know the first.
proof fn lemma_info_update_commute(f: InfoFields, e1: (Seq<u8>, Seq<u8>), e2: (Seq<u8>, Seq<u8>))
    requires
        e1.0 != e2.0 || !known_info_key(e1.0),
    ensures
        info_update(info_update(f, e1), e2) == info_update(info_update(f, e2), e1),
{
    lemma_info_update_fields(f, e1);
    lemma_info_update_fields(f, e2);
    lemma_info_update_fields(info_update(f, e1), e2);
    lemma_info_update_fields(info_update(f, e2), e1);
}

/// Reading an entry whose key the info rule does not know changes nothing.
proof fn lemma_info_update_unknown(f: InfoFields, e: (Seq<u8>, Seq<u8>))
    requires
        !known_info_key(e.0),
    ensures
        info_update(f, e) == f,
{
    lemma_info_update_fields(f, e);
}

/// The info dictionary as read from its entries.
proof fn lemma_info_of_entries(es: Seq<(Seq<u8>, Seq<u8>)>, rest: Seq<u8>)
    requires
        info_entries_ok(es),
    ensures
        exists|last: Seq<u8>|
            spec_info(enc_info(es) + rest) == spec_info_from_fields(
                Ok((rest, (info_fold(no_info_fields(), es), last))),
            ),
{
    let s = enc_info(es) + rest;
    assert(s.drop_first() =~= enc_entries(es) + seq![b_e()] + rest);
    lemma_info_fields_of_entries(es, no_info_fields(), rest, s.drop_first());
    let (_, (_, last)) = spec_info_fields(s.drop_first(), no_info_fields(), s.drop_first())->Ok_0;
    assert(spec_info(s) == spec_info_from_fields(
        Ok((rest, (info_fold(no_info_fields(), es), last))),
    ));
}

/// Where the last key stood matters only for errors: a successful result
/// depends on the fields and the rest alone.
proof fn lemma_info_from_fields_ok(rest: Seq<u8>, g: InfoFields, l1: Seq<u8>, l2: Seq<u8>)
    ensures
        spec_info_from_fields(Ok((rest, (g, l1)))) is Ok ==> spec_info_from_fields(
            Ok((rest, (g, l2))),
        ) == spec_info_from_fields(Ok((rest, (g, l1)))),
{
}

/// Two entry sequences read into the same fields give the same successful
/// info dictionary.
proof fn lemma_info_same_fold(
    a: Seq<(Seq<u8>, Seq<u8>)>,
    b: Seq<(Seq<u8>, Seq<u8>)>,
    rest: Seq<u8>,
)
    requires
        info_entries_ok(a),
        info_entries_ok(b),
        info_fold(no_info_fields(), a) == info_fold(no_info_fields(), b),
    ensures
        spec_info(enc_info(a) + rest) is Ok ==> spec_info(enc_info(b) + rest) == spec_info(
            enc_info(a) + rest,
        ),
{
    lemma_info_of_entries(a, rest);
    lemma_info_of_entries(b, rest);
    let la = choose|last: Seq<u8>|
        spec_info(enc_info(a) + rest) == spec_info_from_fields(
            Ok((rest, (info_fold(no_info_fields(), a), last))),
        );
    let lb = choose|last: Seq<u8>|
        spec_info(enc_info(b) + rest) == spec_info_from_fields(
            Ok((rest, (info_fold(no_info_fields(), b), last))),
        );
    lemma_info_from_fields_ok(rest, info_fold(no_info_fields(), a), la, lb);
}

proof fn lemma_info_entries_ok_concat(a: Seq<(Seq<u8>, Seq<u8>)>, b: Seq<(Seq<u8>, Seq<u8>)>)
    requires
        info_entries_ok(a),
        info_entries_ok(b),
    ensures
        info_entries_ok(a + b),
{
    assert forall|i: int| 0 <= i < (a + b).len() implies #[trigger] info_entry_ok((a + b)[i]) by {
        if i < a.len() {
            assert((a + b)[i] == a[i]);
        } else {
            assert((a + b)[i] == b[i - a.len()]);
        }
    }
}

proof fn lemma_info_fold_swap(
    f: InfoFields,
    pre: Seq<(Seq<u8>, Seq<u8>)>,
    e1: (Seq<u8>, Seq<u8>),
    e2: (Seq<u8>, Seq<u8>),
    post: Seq<(Seq<u8>, Seq<u8>)>,
)
    requires
        e1.0 != e2.0,
    ensures
        info_fold(f, pre + seq![e1, e2] + post) == info_fold(f, pre + seq![e2, e1] + post),
{
    lemma_info_fold_append(f, pre + seq![e1, e2], post);
    lemma_info_fold_append(f, pre + seq![e2, e1], post);
    lemma_info_fold_append(f, pre, seq![e1, e2]);
    lemma_info_fold_append(f, pre, seq![e2, e1]);
    let f0 = info_fold(f, pre);
    assert(seq![e1, e2].drop_first() =~= seq![e2]);
    assert(seq![e2, e1].drop_first() =~= seq![e1]);
    assert(seq![e2].drop_first() =~= Seq::<(Seq<u8>, Seq<u8>)>::empty());
    assert(seq![e1].drop_first() =~= Seq::<(Seq<u8>, Seq<u8>)>::empty());
    reveal_with_fuel(info_fold, 3);
    assert(info_fold(f0, seq![e1, e2]) == info_update(info_update(f0, e1), e2));
    assert(info_fold(f0, seq![e2, e1]) == info_update(info_update(f0, e2), e1));
    lemma_info_update_commute(f0, e1, e2);
}

proof fn lemma_info_fold_unknown(
    f: InfoFields,
    pre: Seq<(Seq<u8>, Seq<u8>)>,
    e: (Seq<u8>, Seq<u8>),
    post: Seq<(Seq<u8>, Seq<u8>)>,
)
    requires
        !known_info_key(e.0),
    ensures
        info_fold(f, pre + post) == info_fold(f, pre + seq![e] + post),
{
    lemma_info_fold_append(f, pre, post);
    lemma_info_fold_append(f, pre + seq![e], post);
    lemma_info_fold_append(f, pre, seq![e]);
    let f0 = info_fold(f, pre);
    assert(seq![e].drop_first() =~= Seq::<(Seq<u8>, Seq<u8>)>::empty());
    reveal_with_fuel(info_fold, 2);
    assert(info_fold(f0, seq![e]) == info_update(f0, e));
    lemma_info_update_unknown(f0, e);
}

/// Two adjacent fields of an info dictionary with different keys can be
/// written in either order: when one order is read, the other reads the same
/// dictionary.
#[verifier::spinoff_prover]
#[verifier::rlimit(40)]
pub proof fn lemma_info_swap_fields(
    pre: Seq<(Seq<u8>, Seq<u8>)>,
    e1: (Seq<u8>, Seq<u8>),
    e2: (Seq<u8>, Seq<u8>),
    post: Seq<(Seq<u8>, Seq<u8>)>,
    rest: Seq<u8>,
)
    requires
        info_entries_ok(pre),
        info_entries_ok(post),
        info_entry_ok(e1),
        info_entry_ok(e2),
        e1.0 != e2.0,
    ensures
        spec_info(enc_info(pre + seq![e1, e2] + post) + rest) is Ok ==> spec_info(
            enc_info(pre + seq![e2, e1] + post) + rest,
        ) == spec_info(enc_info(pre + seq![e1, e2] + post) + rest),
{
    assert(info_entries_ok(seq![e1, e2]));
    assert(info_entries_ok(seq![e2, e1]));
    lemma_info_entries_ok_concat(pre, seq![e1, e2]);
    lemma_info_entries_ok_concat(pre + seq![e1, e2], post);
    lemma_info_entries_ok_concat(pre, seq![e2, e1]);
    lemma_info_entries_ok_concat(pre + seq![e2, e1], post);
    lemma_info_fold_swap(no_info_fields(), pre, e1, e2, post);
    lemma_info_same_fold(pre + seq![e1, e2] + post, pre + seq![e2, e1] + post, rest);
}

/// A field whose key the info rule does not know can be added anywhere in an
/// info dictionary: when the dictionary without it is read, the one with it
/// reads the same.
pub proof fn lemma_info_unknown_field(
    pre: Seq<(Seq<u8>, Seq<u8>)>,
    e: (Seq<u8>, Seq<u8>),
    post: Seq<(Seq<u8>, Seq<u8>)>,
    rest: Seq<u8>,
)
    requires
        info_entries_ok(pre),
        info_entries_ok(post),
        info_entry_ok(e),
        !known_info_key(e.0),
    ensures
        spec_info(enc_info(pre + post) + rest) is Ok ==> spec_info(enc_info(pre + seq![e] + post) + rest)
            == spec_info(enc_info(pre + post) + rest),
{
    assert(info_entries_ok(seq![e]));
    lemma_info_entries_ok_concat(pre, post);
    lemma_info_entries_ok_concat(pre, seq![e]);
    lemma_info_entries_ok_concat(pre + seq![e], post);
    lemma_info_fold_unknown(no_info_fields(), pre, e, post);
    lemma_info_same_fold(pre + post, pre + seq![e] + post, rest);
}

/// Each key that the info rule reads stands in at most one of the entries.
pub open spec fn known_keys_distinct(es: Seq<(Seq<u8>, Seq<u8>)>) -> bool {
    forall|i: int, j: int|
        0 <= i < es.len() && 0 <= j < es.len() && i != j && known_info_key(#[trigger] es[i].0)
            ==> es[i].0 != #[trigger] es[j].0
}

/// An entry can be read first where its key differs from the keys of all
/// entries before it, or the info rule does not know its key.
proof fn lemma_info_fold_move_front(f: InfoFields, b: Seq<(Seq<u8>, Seq<u8>)>, j: int)
    requires
        0 <= j < b.len(),
        forall|i: int| 0 <= i < j ==> #[trigger] b[i].0 != b[j].0 || !known_info_key(b[j].0),
    ensures
        info_fold(f, b) == info_fold(f, seq![b[j]] + b.remove(j)),
    decreases j,
{
    let moved = seq![b[j]] + b.remove(j);
    if j == 0 {
        assert(moved =~= b);
    } else {
        let t = b.drop_first();
        assert forall|i: int| 0 <= i < j - 1 implies #[trigger] t[i].0 != t[j - 1].0
            || !known_info_key(t[j - 1].0) by {
            assert(b[i + 1].0 != b[j].0 || !known_info_key(b[j].0));
        }
        lemma_info_fold_move_front(info_update(f, b[0]), t, j - 1);
        let g = info_update(info_update(f, b[0]), b[j]);
        assert((seq![t[j - 1]] + t.remove(j - 1)).drop_first() =~= t.remove(j - 1));
        assert(info_fold(info_update(f, b[0]), seq![t[j - 1]] + t.remove(j - 1)) == info_fold(
            g,
            t.remove(j - 1),
        ));
        lemma_info_update_commute(f, b[0], b[j]);
        assert(moved.drop_first() =~= b.remove(j));
        assert(b.remove(j).drop_first() =~= t.remove(j - 1));
        assert(b.remove(j)[0] == b[0]);
        assert(info_fold(f, moved) == info_fold(info_update(f, b[j]), b.remove(j)));
        assert(info_fold(info_update(f, b[j]), b.remove(j)) == info_fold(
            info_update(info_update(f, b[j]), b[0]),
            t.remove(j - 1),
        ));
    }
}

/// Entries in which each key that the info rule reads stands at most once
/// read into the same fields in any order.
proof fn lemma_info_fold_permute(f: InfoFields, a: Seq<(Seq<u8>, Seq<u8>)>, b: Seq<(Seq<u8>, Seq<u8>)>)
    requires
        a.to_multiset() == b.to_multiset(),
        known_keys_distinct(a),
    ensures
        info_fold(f, a) == info_fold(f, b),
    decreases a.len(),
{
    broadcast use vstd::seq_lib::group_to_multiset_ensures;

    if a.len() == 0 {
        assert(a.to_multiset().len() == a.len());
        assert(b.to_multiset().len() == b.len());
        assert(b =~= a);
    } else {
        let e = a[0];
        let a1 = a.drop_first();
        assert(a1 =~= a.remove(0));
        assert(a.to_multiset().count(e) > 0);
        assert(b.contains(e));
        let j = choose|j: int| 0 <= j < b.len() && b[j] == e;
        let b1 = b.remove(j);
        assert(a1.to_multiset() == b1.to_multiset());
        assert forall|i: int| 0 <= i < j implies #[trigger] b[i].0 != b[j].0 || !known_info_key(
            b[j].0,
        ) by {
            assert(b1[i] == b[i]);
            assert(b1.to_multiset().count(b[i]) > 0);
            assert(a1.contains(b[i]));
            let k = choose|k: int| 0 <= k < a1.len() && a1[k] == b[i];
            assert(a[k + 1] == b[i]);
            if known_info_key(a[0].0) {
                assert(a[0].0 != a[k + 1].0);
            }
        }
        lemma_info_fold_move_front(f, b, j);
        assert((seq![b[j]] + b1).drop_first() =~= b1);
        assert forall|x: int, y: int|
            0 <= x < a1.len() && 0 <= y < a1.len() && x != y && known_info_key(
                #[trigger] a1[x].0,
            ) implies a1[x].0 != #[trigger] a1[y].0 by {
            assert(a[x + 1].0 != a[y + 1].0);
        }
        lemma_info_fold_permute(info_update(f, e), a1, b1);
    }
}

/// The fields of an info dictionary can be written in any order, where each
/// key that the info rule reads stands in one field at most: when one order is
/// read, every reordering reads the same dictionary.
pub proof fn lemma_info_permute_fields(
    es: Seq<(Seq<u8>, Seq<u8>)>,
    es2: Seq<(Seq<u8>, Seq<u8>)>,
    rest: Seq<u8>,
)
    requires
        info_entries_ok(es),
        known_keys_distinct(es),
        es2.to_multiset() == es.to_multiset(),
    ensures
        spec_info(enc_info(es) + rest) is Ok ==> spec_info(enc_info(es2) + rest) == spec_info(
            enc_info(es) + rest,
        ),
{
    broadcast use vstd::seq_lib::group_to_multiset_ensures;

    assert forall|i: int| 0 <= i < es2.len() implies #[trigger] info_entry_ok(es2[i]) by {
        assert(es2.to_multiset().count(es2[i]) > 0);
        assert(es.contains(es2[i]));
        let k = choose|k: int| 0 <= k < es.len() && es[k] == es2[i];
        assert(info_entry_ok(es[k]));
    }
    lemma_info_fold_permute(no_info_fields(), es, es2);
    lemma_info_same_fold(es, es2, rest);
}

/// A field whose key the info rule does not know can be added to an info
/// dictionary and all the fields reordered, where each key that the rule
/// reads stands in one field at most: when the dictionary without it is read,
/// the new one reads the same.
pub proof fn lemma_info_permute_with_unknown_field(
    es: Seq<(Seq<u8>, Seq<u8>)>,
    e: (Seq<u8>, Seq<u8>),
    es2: Seq<(Seq<u8>, Seq<u8>)>,
    rest: Seq<u8>,
)
    requires
        info_entries_ok(es),
        known_keys_distinct(es),
        info_entry_ok(e),
        !known_info_key(e.0),
        es2.to_multiset() == es.to_multiset().insert(e),
    ensures
        spec_info(enc_info(es) + rest) is Ok ==> spec_info(enc_info(es2) + rest) == spec_info(
            enc_info(es) + rest,
        ),
{
    broadcast use vstd::seq_lib::group_to_multiset_ensures;

    let empty = Seq::<(Seq<u8>, Seq<u8>)>::empty();
    let es1 = es.push(e);
    assert(es + empty =~= es);
    assert(es + seq![e] + empty =~= es1);
    assert(info_entries_ok(empty));
    lemma_info_unknown_field(es, e, empty, rest);
    assert(info_entries_ok(seq![e]));
    lemma_info_entries_ok_concat(es, seq![e]);
    assert(es + seq![e] =~= es1);
    assert forall|i: int, j: int|
        0 <= i < es1.len() && 0 <= j < es1.len() && i != j && known_info_key(
            #[trigger] es1[i].0,
        ) implies es1[i].0 != #[trigger] es1[j].0 by {
        if j < es.len() && i < es.len() {
            assert(es1[i] == es[i] && es1[j] == es[j]);
        }
    }
    lemma_info_permute_fields(es1, es2, rest);
}

/// Entries in which each key that the info rule reads stands at most once
/// read into the same fields as when the entry at `j` is read last.
proof fn lemma_info_fold_last(f: InfoFields, es: Seq<(Seq<u8>, Seq<u8>)>, j: int)
    requires
        known_keys_distinct(es),
        0 <= j < es.len(),
    ensures
        info_fold(f, es) == info_update(info_fold(f, es.remove(j)), es[j]),
{
    broadcast use vstd::seq_lib::group_to_multiset_ensures;

    let e = es[j];
    let b = es.remove(j).push(e);
    assert(es.contains(e));
    assert(es.to_multiset().count(e) > 0);
    assert(b.to_multiset() =~= es.to_multiset());
    lemma_info_fold_permute(f, es, b);
    lemma_info_fold_append(f, es.remove(j), seq![e]);
    assert(es.remove(j) + seq![e] =~= b);
    assert(seq![e].drop_first() =~= Seq::<(Seq<u8>, Seq<u8>)>::empty());
    reveal_with_fuel(info_fold, 2);
}

/// No entry has the key `k`.
pub open spec fn lacks_key(es: Seq<(Seq<u8>, Seq<u8>)>, k: Seq<u8>) -> bool {
    forall|i: int| 0 <= i < es.len() ==> (#[trigger] es[i]).0 != k
}

/// Entries none of which has the key of a layout field leave that field as
/// it was.
proof fn lemma_info_fold_keeps_layout(f: InfoFields, es: Seq<(Seq<u8>, Seq<u8>)>)
    ensures
        lacks_key(es, key_files()) ==> info_fold(f, es).files == f.files,
        lacks_key(es, key_file_tree()) ==> info_fold(f, es).file_tree == f.file_tree,
        lacks_key(es, key_length()) ==> info_fold(f, es).length == f.length,
        lacks_key(es, key_pieces()) ==> info_fold(f, es).pieces == f.pieces,
    decreases es.len(),
{
    if es.len() > 0 {
        lemma_info_update_fields(f, es[0]);
        let g = info_update(f, es[0]);
        let t = es.drop_first();
        lemma_info_fold_keeps_layout(g, t);
        assert forall|k: Seq<u8>| lacks_key(es, k) implies lacks_key(t, k) && es[0].0 != k by {
            assert forall|i: int| 0 <= i < t.len() implies (#[trigger] t[i]).0 != k by {
                assert(es[i + 1].0 != k);
            }
            assert(es[0].0 != k);
        }
    }
}

/// An info dictionary written as entries is read from the fields that the
/// entries give, wherever its last key stood.
proof fn lemma_info_result(es: Seq<(Seq<u8>, Seq<u8>)>, rest: Seq<u8>) -> (last: Seq<u8>)
    requires
        info_entries_ok(es),
    ensures
        spec_info(enc_info(es) + rest) == spec_info_from_fields(
            Ok((rest, (info_fold(no_info_fields(), es), last))),
        ),
{
    lemma_info_of_entries(es, rest);
    choose|last: Seq<u8>|
        spec_info(enc_info(es) + rest) == spec_info_from_fields(
            Ok((rest, (info_fold(no_info_fields(), es), last))),
        )
}

/// Reading an integer written under `length`, `meta version` or
/// `piece length` stores it (a negative length or piece length as none).
proof fn lemma_info_update_int(f: InfoFields, n: i64)
    ensures
        info_update(f, (key_length(), enc_int(n))).length == nonneg(n),
        info_update(f, (key_meta_version(), enc_int(n))).meta_version == Some(n),
        info_update(f, (key_piece_length(), enc_int(n))).piece_length == nonneg(n),
{
    reveal(info_update);
    lemma_int_roundtrip(n, Seq::empty());
    assert(enc_int(n) + Seq::<u8>::empty() =~= enc_int(n));
}

/// Reading a string written under `name` or `pieces` stores it (pieces
/// whose length is not a multiple of 20 as none).
proof fn lemma_info_update_string(f: InfoFields, x: Seq<u8>)
    requires
        x.len() <= u64::MAX,
    ensures
        info_update(f, (key_name(), enc_string(x))).name == Some(x),
        info_update(f, (key_pieces(), enc_string(x))).pieces == (if x.len() % 20 == 0 {
            Some(x)
        } else {
            None
        }),
{
    reveal(info_update);
    lemma_string_roundtrip(x, Seq::empty());
    assert(enc_string(x) + Seq::<u8>::empty() =~= enc_string(x));
}

/// The meta version of an info dictionary that is read is the integer
/// written under `meta version`, whatever the file layout.
pub proof fn lemma_info_meta_version(es: Seq<(Seq<u8>, Seq<u8>)>, m: i64, rest: Seq<u8>)
    requires
        info_entries_ok(es),
        known_keys_distinct(es),
        es.contains((key_meta_version(), enc_int(m))),
    ensures
        spec_info(enc_info(es) + rest) matches Ok((_, info)) ==> info.meta_version == Some(m),
{
    let e = (key_meta_version(), enc_int(m));
    let j = choose|j: int| 0 <= j < es.len() && es[j] == e;
    lemma_info_fold_last(no_info_fields(), es, j);
    lemma_info_update_int(info_fold(no_info_fields(), es.remove(j)), m);
    let last = lemma_info_result(es, rest);
}

/// The name of an info dictionary that is read is the string written under
/// `name`.
pub proof fn lemma_info_name(es: Seq<(Seq<u8>, Seq<u8>)>, x: Seq<u8>, rest: Seq<u8>)
    requires
        info_entries_ok(es),
        known_keys_distinct(es),
        es.contains((key_name(), enc_string(x))),
        x.len() <= u64::MAX,
    ensures
        spec_info(enc_info(es) + rest) matches Ok((_, info)) ==> info.name == Some(x),
{
    let e = (key_name(), enc_string(x));
    let j = choose|j: int| 0 <= j < es.len() && es[j] == e;
    lemma_info_fold_last(no_info_fields(), es, j);
    lemma_info_update_string(info_fold(no_info_fields(), es.remove(j)), x);
    let last = lemma_info_result(es, rest);
}

/// An info dictionary with a non-negative `length`, a non-negative
/// `piece length` and `pieces` whose length is a multiple of 20 (any number
/// of piece hashes), and neither `files` nor `file tree`, is read as one
/// file holding exactly those pieces and that length.
pub proof fn lemma_info_single_file(
    es: Seq<(Seq<u8>, Seq<u8>)>,
    n: i64,
    p: i64,
    x: Seq<u8>,
    rest: Seq<u8>,
)
    requires
        info_entries_ok(es),
        known_keys_distinct(es),
        es.contains((key_length(), enc_int(n))),
        es.contains((key_piece_length(), enc_int(p))),
        es.contains((key_pieces(), enc_string(x))),
        n >= 0,
        p >= 0,
        x.len() % 20 == 0,
        x.len() <= u64::MAX,
        lacks_key(es, key_files()),
        lacks_key(es, key_file_tree()),
    ensures
        spec_info(enc_info(es) + rest) matches Ok((r, info)) && r == rest && info.piece_length == p as usize
            && info.file_layout == (LayoutModel::V1SingleFile { pieces: x, length: n as usize }),
{
    let f0 = no_info_fields();
    let fold = info_fold(f0, es);
    let e1 = (key_length(), enc_int(n));
    let e2 = (key_piece_length(), enc_int(p));
    let e3 = (key_pieces(), enc_string(x));
    let j1 = choose|j: int| 0 <= j < es.len() && es[j] == e1;
    let j2 = choose|j: int| 0 <= j < es.len() && es[j] == e2;
    let j3 = choose|j: int| 0 <= j < es.len() && es[j] == e3;
    lemma_info_fold_last(f0, es, j1);
    lemma_info_update_int(info_fold(f0, es.remove(j1)), n);
    assert(fold.length == Some(n as usize));
    lemma_info_fold_last(f0, es, j2);
    lemma_info_update_int(info_fold(f0, es.remove(j2)), p);
    assert(fold.piece_length == Some(p as usize));
    lemma_info_fold_last(f0, es, j3);
    lemma_info_update_string(info_fold(f0, es.remove(j3)), x);
    assert(fold.pieces == Some(x));
    lemma_info_fold_keeps_layout(f0, es);
    assert(fold.files is None && fold.file_tree is None);
    let last = lemma_info_result(es, rest);
}

/// Reading a file list written under `files` stores it.
proof fn lemma_info_update_files(f: InfoFields, fs: Seq<FileV1Model>)
    requires
        fs.len() >= 1,
        forall|i: int| 0 <= i < fs.len() ==> file_writable(#[trigger] fs[i]),
    ensures
        info_update(f, (key_files(), enc_files_list(fs))).files == Some(fs),
{
    reveal(info_update);
    lemma_files_list_roundtrip(fs, Seq::empty());
    assert(enc_files_list(fs) + Seq::<u8>::empty() =~= enc_files_list(fs));
}

/// Reading a value under `file tree` that is exactly one file tree stores
/// that tree.
proof fn lemma_info_update_tree(f: InfoFields, v: Seq<u8>, m: Map<Seq<u8>, NodeModel>)
    requires
        spec_tree(v) == Ok::<(Seq<u8>, Map<Seq<u8>, NodeModel>), ErrorModel>((Seq::empty(), m)),
    ensures
        info_update(f, (key_file_tree(), v)).file_tree == Some(m),
{
    reveal(info_update);
}

/// An info dictionary with a file list under `files`, a non-negative
/// `piece length` and `pieces` whose length is a multiple of 20, and neither
/// `length` nor `file tree`, is read as several files: exactly those files,
/// in the order written, and those pieces.
pub proof fn lemma_info_multi_file(
    es: Seq<(Seq<u8>, Seq<u8>)>,
    fs: Seq<FileV1Model>,
    p: i64,
    x: Seq<u8>,
    rest: Seq<u8>,
)
    requires
        info_entries_ok(es),
        known_keys_distinct(es),
        es.contains((key_files(), enc_files_list(fs))),
        es.contains((key_piece_length(), enc_int(p))),
        es.contains((key_pieces(), enc_string(x))),
        fs.len() >= 1,
        forall|i: int| 0 <= i < fs.len() ==> file_writable(#[trigger] fs[i]),
        p >= 0,
        x.len() % 20 == 0,
        x.len() <= u64::MAX,
        lacks_key(es, key_length()),
        lacks_key(es, key_file_tree()),
    ensures
        spec_info(enc_info(es) + rest) matches Ok((r, info)) && r == rest && info.piece_length == p as usize
            && info.file_layout == (LayoutModel::V1MultiFile { pieces: x, files: fs }),
{
    let f0 = no_info_fields();
    let fold = info_fold(f0, es);
    let e1 = (key_files(), enc_files_list(fs));
    let e2 = (key_piece_length(), enc_int(p));
    let e3 = (key_pieces(), enc_string(x));
    let j1 = choose|j: int| 0 <= j < es.len() && es[j] == e1;
    let j2 = choose|j: int| 0 <= j < es.len() && es[j] == e2;
    let j3 = choose|j: int| 0 <= j < es.len() && es[j] == e3;
    lemma_info_fold_last(f0, es, j1);
    lemma_info_update_files(info_fold(f0, es.remove(j1)), fs);
    assert(fold.files == Some(fs));
    lemma_info_fold_last(f0, es, j2);
    lemma_info_update_int(info_fold(f0, es.remove(j2)), p);
    assert(fold.piece_length == Some(p as usize));
    lemma_info_fold_last(f0, es, j3);
    lemma_info_update_string(info_fold(f0, es.remove(j3)), x);
    assert(fold.pieces == Some(x));
    lemma_info_fold_keeps_layout(f0, es);
    assert(fold.length is None && fold.file_tree is None);
    let last = lemma_info_result(es, rest);
}

/// An info dictionary with exactly one file tree under `file tree`, a
/// non-negative `piece length`, and none of `files`, `length` and `pieces`,
/// is read as a version 2 layout holding that tree.
pub proof fn lemma_info_v2(
    es: Seq<(Seq<u8>, Seq<u8>)>,
    v: Seq<u8>,
    m: Map<Seq<u8>, NodeModel>,
    p: i64,
    rest: Seq<u8>,
)
    requires
        info_entries_ok(es),
        known_keys_distinct(es),
        es.contains((key_file_tree(), v)),
        spec_tree(v) == Ok::<(Seq<u8>, Map<Seq<u8>, NodeModel>), ErrorModel>((Seq::empty(), m)),
        es.contains((key_piece_length(), enc_int(p))),
        p >= 0,
        lacks_key(es, key_files()),
        lacks_key(es, key_length()),
        lacks_key(es, key_pieces()),
    ensures
        spec_info(enc_info(es) + rest) matches Ok((r, info)) && r == rest && info.piece_length == p as usize
            && info.file_layout == (LayoutModel::V2 { file_tree: m }),
{
    let f0 = no_info_fields();
    let fold = info_fold(f0, es);
    let e1 = (key_file_tree(), v);
    let e2 = (key_piece_length(), enc_int(p));
    let j1 = choose|j: int| 0 <= j < es.len() && es[j] == e1;
    let j2 = choose|j: int| 0 <= j < es.len() && es[j] == e2;
    lemma_info_fold_last(f0, es, j1);
    lemma_info_update_tree(info_fold(f0, es.remove(j1)), v, m);
    assert(fold.file_tree == Some(m));
    lemma_info_fold_last(f0, es, j2);
    lemma_info_update_int(info_fold(f0, es.remove(j2)), p);
    assert(fold.piece_length == Some(p as usize));
    lemma_info_fold_keeps_layout(f0, es);
    assert(fold.length is None && fold.files is None && fold.pieces is None);
    let last = lemma_info_result(es, rest);
}

/// An info dictionary with exactly one file tree under `file tree`, a file
/// list under `files`, a non-negative `piece length` and `pieces` whose
/// length is a multiple of 20, and no `length`, is read as a hybrid layout
/// holding that tree, those files in the order written, and those pieces.
pub proof fn lemma_info_hybrid(
    es: Seq<(Seq<u8>, Seq<u8>)>,
    v: Seq<u8>,
    m: Map<Seq<u8>, NodeModel>,
    fs: Seq<FileV1Model>,
    p: i64,
    x: Seq<u8>,
    rest: Seq<u8>,
)
    requires
        info_entries_ok(es),
        known_keys_distinct(es),
        es.contains((key_file_tree(), v)),
        spec_tree(v) == Ok::<(Seq<u8>, Map<Seq<u8>, NodeModel>), ErrorModel>((Seq::empty(), m)),
        es.contains((key_files(), enc_files_list(fs))),
        es.contains((key_piece_length(), enc_int(p))),
        es.contains((key_pieces(), enc_string(x))),
        fs.len() >= 1,
        forall|i: int| 0 <= i < fs.len() ==> file_writable(#[trigger] fs[i]),
        p >= 0,
        x.len() % 20 == 0,
        x.len() <= u64::MAX,
        lacks_key(es, key_length()),
    ensures
        spec_info(enc_info(es) + rest) matches Ok((r, info)) && r == rest && info.piece_length == p as usize
            && info.file_layout == (LayoutModel::Hybrid { pieces: x, files: fs, file_tree: m }),
{
    let f0 = no_info_fields();
    let fold = info_fold(f0, es);
    let e0 = (key_file_tree(), v);
    let e1 = (key_files(), enc_files_list(fs));
    let e2 = (key_piece_length(), enc_int(p));
    let e3 = (key_pieces(), enc_string(x));
    let j0 = choose|j: int| 0 <= j < es.len() && es[j] == e0;
    let j1 = choose|j: int| 0 <= j < es.len() && es[j] == e1;
    let j2 = choose|j: int| 0 <= j < es.len() && es[j] == e2;
    let j3 = choose|j: int| 0 <= j < es.len() && es[j] == e3;
    lemma_info_fold_last(f0, es, j0);
    lemma_info_update_tree(info_fold(f0, es.remove(j0)), v, m);
    assert(fold.file_tree == Some(m));
    lemma_info_fold_last(f0, es, j1);
    lemma_info_update_files(info_fold(f0, es.remove(j1)), fs);
    assert(fold.files == Some(fs));
    lemma_info_fold_last(f0, es, j2);
    lemma_info_update_int(info_fold(f0, es.remove(j2)), p);
    assert(fold.piece_length == Some(p as usize));
    lemma_info_fold_last(f0, es, j3);
    lemma_info_update_string(info_fold(f0, es.remove(j3)), x);
    assert(fold.pieces == Some(x));
    lemma_info_fold_keeps_layout(f0, es);
    assert(fold.length is None);
    let last = lemma_info_result(es, rest);
}

/// The fields read so far by the info parser.
struct InfoState<'a> {
    file_tree: Option<ByteMap<'a, FileTreeNode<'a>>>,
    files: Option<Vec<FileV1<'a>>>,
    length: Option<usize>,
    meta_version: Option<i64>,
    name: Option<&'a [u8]>,
    piece_length: Option<usize>,
    pieces: Option<&'a [u8]>,
}

impl<'a> InfoState<'a> {
    /// The fields taken by their models.
    spec fn model(&self) -> InfoFields {
        InfoFields {
            file_tree: match self.file_tree {
                Some(m) => Some(tree_model(m)),
                None => None,
            },
            files: match self.files {
                Some(v) => Some(files_model(v@)),
                None => None,
            },
            length: self.length,
            meta_version: self.meta_version,
            name: opt_bytes(self.name),
            piece_length: self.piece_length,
            pieces: opt_bytes(self.pieces),
        }
    }
}

/// Reads the value of the field `field` at the start of `t` into `st`.
fn parse_info_value<'a>(field: &[u8], t: &'a [u8], st: &mut InfoState<'a>) -> (r: Result<
    &'a [u8],
    ParseError<'a>,
>)
    ensures
        match spec_info_value(field@, t@, old(st).model()) {
            Ok((u, g)) => r matches Ok(rest) && rest@ == u && final(st).model() == g,
            Err(e) => r matches Err(f) && f@ == e,
        },
{
    if is_key_file_tree(field) {
        let (u, ft) = match parse_file_tree(t) {
            Ok(p) => p,
            Err(e) => return Err(e),
        };
        st.file_tree = Some(ft);
        Ok(u)
    } else if is_key_files(field) {
        let (u, f) = match parse_files_list(t) {
            Ok(p) => p,
            Err(e) => return Err(e),
        };
        st.files = Some(f);
        Ok(u)
    } else if is_key_length(field) {
        let (u, v) = match parse_bencode_int(t) {
            Ok(p) => p,
            Err(e) => return Err(e),
        };
        st.length = if v < 0 {
            None
        } else {
            Some(v as usize)
        };
        Ok(u)
    } else if is_key_meta_version(field) {
        let (u, v) = match parse_bencode_int(t) {
            Ok(p) => p,
            Err(e) => return Err(e),
        };
        st.meta_version = Some(v);
        Ok(u)
    } else if is_key_name(field) {
        let (u, x) = match parse_bencode_string(t) {
            Ok(p) => p,
            Err(e) => return Err(e),
        };
        st.name = Some(x);
        Ok(u)
    } else if is_key_piece_length(field) {
        let (u, v) = match parse_bencode_int(t) {
            Ok(p) => p,
            Err(e) => return Err(e),
        };
        st.piece_length = if v < 0 {
            None
        } else {
            Some(v as usize)
        };
        Ok(u)
    } else if is_key_pieces(field) {
        let (u, x) = match parse_bencode_string(t) {
            Ok(p) => p,
            Err(e) => return Err(e),
        };
        st.pieces = if x.len() % 20 == 0 {
            Some(x)
        } else {
            None
        };
        Ok(u)
    } else {
        match skip_bencode_value(t) {
            Ok((u, _)) => Ok(u),
            Err(e) => Err(e),
        }
    }
}

/// Builds the info dictionary from the fields read, `rest` being what
/// follows its closing `e`.
fn finish_info<'a>(rest: &'a [u8], st: InfoState<'a>, last: &'a [u8]) -> (r: PResult<'a, Info<'a>>)
    ensures
        parsed_as(r, spec_info_from_fields(Ok((rest@, (st.model(), last@))))),
{
    let InfoState { file_tree, files, length, meta_version, name, piece_length, pieces } = st;
    let piece_length = match piece_length {
        Some(pl) => pl,
        None => return Err(failure_at(ErrorKind::Fail, last)),
    };
    let no_length = length.is_none();
    let file_layout = match (file_tree, files, length, pieces) {
        (Some(ft), None, None, None) => FileLayout::V2 { file_tree: ft },
        (Some(ft), Some(f), None, Some(p)) => FileLayout::Hybrid {
            pieces: p,
            files: f,
            file_tree: ft,
        },
        (None, None, Some(l), Some(p)) => FileLayout::V1SingleFile { pieces: p, length: l },
        (None, Some(f), None, Some(p)) => FileLayout::V1MultiFile { pieces: p, files: f },
        _ => {
            return if no_length {
                Err(failure_at(ErrorKind::Fail, last))
            } else {
                Err(failure_at(ErrorKind::Fail, rest))
            };
        },
    };
    Ok((rest, Info { name, piece_length, meta_version, file_layout }))
}

/// Parses the `info` dictionary of a torrent.
pub fn parse_info_dict<'a>(input: &'a [u8]) -> (r: PResult<'a, Info<'a>>)
    ensures
        parsed_as(r, spec_info(input@)),
{
    let mut cur = match expect_byte(input, 100) {
        Ok(t) => t,
        Err(e) => return Err(e),
    };
    let mut st = InfoState {
        file_tree: None,
        files: None,
        length: None,
        meta_version: None,
        name: None,
        piece_length: None,
        pieces: None,
    };
    assert(st.model() == no_info_fields());
    let mut last: &'a [u8] = cur;
    loop
        invariant
            spec_info(input@) == spec_info_from_fields(spec_info_fields(cur@, st.model(), last@)),
        decreases cur@.len(),
    {
        let next = match peek_byte(cur) {
            Some(b) => b,
            None => return Err(error_at(ErrorKind::Eof, cur)),
        };
        if next == 101 {
            let rest = advance(cur, 1);
            assert(rest@ =~= cur@.drop_first());
            return finish_info(rest, st, last);
        }
        let (t, field) = match parse_bencode_string(cur) {
            Ok(p) => p,
            Err(e) => return Err(e),
        };
        proof {
            lemma_string_consumes(cur@);
            lemma_info_value_consumes(field@, t@, st.model());
        }
        last = cur;
        cur = match parse_info_value(field, t, &mut st) {
            Ok(u) => u,
            Err(e) => return Err(e),
        };
    }
}

} // verus!
