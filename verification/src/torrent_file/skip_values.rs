//! The grammar of bencode values, and a recogniser that steps over one value
//! without building it.
use crate::primitives::{
    advance, b_colon, b_d, b_e, b_i, b_l, b_minus, dec_u64, digit_run, digit_run_len,
    digits_value, err_at, error_at, expect_byte, fail_at, failure_at, is_digit,
    lemma_digit_run_append, lemma_digit_run_bound, parsed_as, peek_byte, spec_dec_u64,
    starts_with, take_u64, ErrorKind, ErrorModel, PResult, ParseError, SpecResult,
};
use vstd::prelude::*;

verus! {

/// `rest` is what is left of `s` after a non-empty prefix has been read.
pub open spec fn proper_suffix(rest: Seq<u8>, s: Seq<u8>) -> bool {
    rest.len() < s.len() && rest == s.skip(s.len() - rest.len())
}

/// A successful result leaves a proper suffix of `s`.
pub open spec fn consumes<M>(r: SpecResult<M>, s: Seq<u8>) -> bool {
    match r {
        Ok((rest, _)) => proper_suffix(rest, s),
        Err(_) => true,
    }
}

/// Reading past a proper suffix of a proper suffix leaves a proper suffix.
pub proof fn lemma_suffix_trans(a: Seq<u8>, b: Seq<u8>, c: Seq<u8>)
    requires
        proper_suffix(a, b),
        proper_suffix(b, c),
    ensures
        proper_suffix(a, c),
{
    assert(a =~= c.skip(c.len() - a.len()));
}

/// The string rule: a decimal length, `:`, then that many bytes. A missing
/// length is a `Digit` error at the input, a missing `:` a `Tag` error where
/// it should be, and too few bytes an `Eof` error after the `:`.
pub open spec fn spec_string(s: Seq<u8>) -> SpecResult<Seq<u8>> {
    match spec_dec_u64(s) {
        None => Err(err_at(ErrorKind::Digit, s)),
        Some((t, len)) => {
            if !starts_with(t, b_colon()) {
                Err(err_at(ErrorKind::Tag, t))
            } else {
                let u = t.drop_first();
                if len > u.len() {
                    Err(err_at(ErrorKind::Eof, u))
                } else {
                    Ok((u.skip(len as int), u.take(len as int)))
                }
            }
        },
    }
}

/// The string rule as a recogniser.
pub open spec fn spec_skip_string(s: Seq<u8>) -> SpecResult<()> {
    match spec_string(s) {
        Ok((rest, _)) => Ok((rest, ())),
        Err(e) => Err(e),
    }
}

/// The integer rule as a recogniser: `i`, an optional `-`, digits, `e`.
pub open spec fn spec_skip_integer(s: Seq<u8>) -> SpecResult<()> {
    if !starts_with(s, b_i()) {
        Err(err_at(ErrorKind::Tag, s))
    } else {
        let t = s.drop_first();
        let u = if starts_with(t, b_minus()) {
            t.drop_first()
        } else {
            t
        };
        let n = digit_run(u);
        let w = u.skip(n as int);
        if n == 0 {
            Err(err_at(ErrorKind::Digit, u))
        } else if !starts_with(w, b_e()) {
            Err(err_at(ErrorKind::Tag, w))
        } else {
            Ok((w.drop_first(), ()))
        }
    }
}

/// Whether `b` starts a list, a dictionary or an integer.
pub open spec fn starts_container_or_int(b: u8) -> bool {
    b == b_i() || b == b_l() || b == b_d()
}

/// One bencode value, told by its first byte: an integer, a string, a list,
/// or a dictionary whose keys are strings. An empty input is a recoverable
/// `Eof` error; a value that starts with `e` (the end of an enclosing list or
/// dictionary) is a recoverable `Tag` error; one that starts with any other
/// byte that starts no value is a fatal `Tag` error.
pub open spec fn spec_skip_value(s: Seq<u8>) -> SpecResult<()>
    decreases s.len(), 0nat,
{
    if s.len() == 0 {
        Err(err_at(ErrorKind::Eof, s))
    } else if s[0] == b_i() {
        spec_skip_integer(s)
    } else if is_digit(s[0]) {
        spec_skip_string(s)
    } else if s[0] == b_l() {
        spec_skip_list_items(s.drop_first())
    } else if s[0] == b_d() {
        spec_skip_dict_items(s.drop_first())
    } else if s[0] == b_e() {
        Err(err_at(ErrorKind::Tag, s))
    } else {
        Err(fail_at(ErrorKind::Tag, s))
    }
}

/// The items of a list up to and including its closing `e`. An item that
/// fails recoverably ends the items, and then the missing `e` is a `Tag`
/// error where that item starts; a fatal failure is passed on.
pub open spec fn spec_skip_list_items(s: Seq<u8>) -> SpecResult<()>
    decreases s.len(), 1nat,
{
    if s.len() == 0 {
        Err(err_at(ErrorKind::Tag, s))
    } else if s[0] == b_e() {
        Ok((s.drop_first(), ()))
    } else {
        match spec_skip_value(s) {
            Err(e) => if e.fatal {
                Err(e)
            } else {
                Err(err_at(ErrorKind::Tag, s))
            },
            Ok((rest, _)) => if rest.len() < s.len() {
                spec_skip_list_items(rest)
            } else {
                Err(err_at(ErrorKind::Tag, s))
            },
        }
    }
}

/// The entries of a dictionary (a string key, then a value) up to and
/// including its closing `e`. An entry that fails recoverably, or whose key
/// is an integer, a list or a dictionary, ends the entries, and then the
/// missing `e` is a `Tag` error where that entry starts; a key that starts
/// with a byte that starts no value is a fatal `Tag` error, and a fatal
/// failure of a value is passed on.
pub open spec fn spec_skip_dict_items(s: Seq<u8>) -> SpecResult<()>
    decreases s.len(), 1nat,
{
    if s.len() == 0 {
        Err(err_at(ErrorKind::Tag, s))
    } else if s[0] == b_e() {
        Ok((s.drop_first(), ()))
    } else if starts_container_or_int(s[0]) {
        Err(err_at(ErrorKind::Tag, s))
    } else if !is_digit(s[0]) {
        Err(fail_at(ErrorKind::Tag, s))
    } else {
        match spec_string(s) {
            Err(_) => Err(err_at(ErrorKind::Tag, s)),
            Ok((after_key, _)) => if after_key.len() < s.len() {
                match spec_skip_value(after_key) {
                    Err(e) => if e.fatal {
                        Err(e)
                    } else {
                        Err(err_at(ErrorKind::Tag, s))
                    },
                    Ok((rest, _)) => if rest.len() < after_key.len() {
                        spec_skip_dict_items(rest)
                    } else {
                        Err(err_at(ErrorKind::Tag, s))
                    },
                }
            } else {
                Err(err_at(ErrorKind::Tag, s))
            },
        }
    }
}

/// A string is read from a proper prefix of the input.
pub proof fn lemma_string_consumes(s: Seq<u8>)
    ensures
        consumes(spec_string(s), s),
{
    lemma_digit_run_bound(s);
    if let Some((t, len)) = spec_dec_u64(s) {
        let n = digit_run(s);
        if starts_with(t, b_colon()) && len <= t.len() - 1 {
            let u = t.drop_first();
            assert(u.skip(len as int) =~= s.skip(n + 1 + len));
        }
    }
}

/// A value is read from a proper prefix of the input.
pub proof fn lemma_skip_value_consumes(s: Seq<u8>)
    ensures
        consumes(spec_skip_value(s), s),
    decreases s.len(), 0nat,
{
    if s.len() > 0 {
        if s[0] == b_i() {
            let t = s.drop_first();
            let u = if starts_with(t, b_minus()) {
                t.drop_first()
            } else {
                t
            };
            let n = digit_run(u);
            lemma_digit_run_bound(u);
            if let Ok((rest, _)) = spec_skip_integer(s) {
                assert(rest =~= s.skip(s.len() - rest.len()));
            }
        } else if is_digit(s[0]) {
            lemma_string_consumes(s);
        } else if s[0] == b_l() {
            lemma_skip_list_items_consumes(s.drop_first());
            if let Ok((rest, _)) = spec_skip_list_items(s.drop_first()) {
                assert(rest =~= s.skip(s.len() - rest.len()));
            }
        } else if s[0] == b_d() {
            lemma_skip_dict_items_consumes(s.drop_first());
            if let Ok((rest, _)) = spec_skip_dict_items(s.drop_first()) {
                assert(rest =~= s.skip(s.len() - rest.len()));
            }
        }
    }
}

/// The items of a list are read from a proper prefix of the input.
pub proof fn lemma_skip_list_items_consumes(s: Seq<u8>)
    ensures
        consumes(spec_skip_list_items(s), s),
    decreases s.len(), 1nat,
{
    if s.len() > 0 {
        if s[0] == b_e() {
            assert(s.drop_first() =~= s.skip(1));
        } else {
            lemma_skip_value_consumes(s);
            if let Ok((rest, _)) = spec_skip_value(s) {
                lemma_skip_list_items_consumes(rest);
                if let Ok((rest2, _)) = spec_skip_list_items(rest) {
                    lemma_suffix_trans(rest2, rest, s);
                }
            }
        }
    }
}

/// The entries of a dictionary are read from a proper prefix of the input.
pub proof fn lemma_skip_dict_items_consumes(s: Seq<u8>)
    ensures
        consumes(spec_skip_dict_items(s), s),
    decreases s.len(), 1nat,
{
    if s.len() > 0 {
        if s[0] == b_e() {
            assert(s.drop_first() =~= s.skip(1));
        } else {
            lemma_string_consumes(s);
            if let Ok((after_key, _)) = spec_string(s) {
                lemma_skip_value_consumes(after_key);
                if let Ok((rest, _)) = spec_skip_value(after_key) {
                    lemma_suffix_trans(rest, after_key, s);
                    lemma_skip_dict_items_consumes(rest);
                    if let Ok((rest2, _)) = spec_skip_dict_items(rest) {
                        lemma_suffix_trans(rest2, rest, s);
                    }
                }
            }
        }
    }
}

// ---------------------------------------------------------------------------
// A value delimits itself
// ---------------------------------------------------------------------------
/// Bytes after a string do not change how it is read.
pub proof fn lemma_string_extend(s: Seq<u8>, t: Seq<u8>)
    ensures
        spec_string(s) matches Ok((rest, x)) ==> spec_string(s + t) == Ok::<(Seq<u8>, Seq<u8>), ErrorModel>((rest + t, x)),
{
    if let Ok((rest, x)) = spec_string(s) {
        let n = digit_run(s);
        lemma_digit_run_bound(s);
        lemma_digit_run_append(s, t);
        assert((s + t).take(n as int) =~= s.take(n as int));
        let st = (s + t).skip(n as int);
        assert(st =~= s.skip(n as int) + t);
        let u = s.skip(n as int).drop_first();
        assert(st.drop_first() =~= u + t);
        let len = digits_value(s.take(n as int)) as u64;
        assert((u + t).take(len as int) =~= u.take(len as int));
        assert((u + t).skip(len as int) =~= u.skip(len as int) + t);
    }
}

/// Bytes after an integer do not change how it is stepped over.
proof fn lemma_skip_integer_extend(s: Seq<u8>, t: Seq<u8>)
    ensures
        spec_skip_integer(s) matches Ok((rest, _)) ==> spec_skip_integer(s + t) == Ok::<(Seq<u8>, ()), ErrorModel>((rest + t, ())),
{
    if let Ok((rest, _)) = spec_skip_integer(s) {
        let s1 = s.drop_first();
        assert((s + t).drop_first() =~= s1 + t);
        let u = if starts_with(s1, b_minus()) {
            s1.drop_first()
        } else {
            s1
        };
        if starts_with(s1, b_minus()) {
            assert((s1 + t).drop_first() =~= u + t);
        }
        let n = digit_run(u);
        lemma_digit_run_bound(u);
        lemma_digit_run_append(u, t);
        assert((u + t).skip(n as int) =~= u.skip(n as int) + t);
        assert((u.skip(n as int) + t).drop_first() =~= u.skip(n as int).drop_first() + t);
    }
}

/// Bytes after a value do not change how it is stepped over: a bencode value
/// delimits itself.
pub proof fn lemma_skip_value_extend(s: Seq<u8>, t: Seq<u8>)
    ensures
        spec_skip_value(s) matches Ok((rest, _)) ==> spec_skip_value(s + t) == Ok::<(Seq<u8>, ()), ErrorModel>((rest + t, ())),
    decreases s.len(), 0nat,
{
    if let Ok((rest, _)) = spec_skip_value(s) {
        assert((s + t)[0] == s[0]);
        assert((s + t).drop_first() =~= s.drop_first() + t);
        if s[0] == b_i() {
            lemma_skip_integer_extend(s, t);
        } else if is_digit(s[0]) {
            lemma_string_extend(s, t);
        } else if s[0] == b_l() {
            lemma_skip_list_items_extend(s.drop_first(), t);
        } else {
            lemma_skip_dict_items_extend(s.drop_first(), t);
        }
    }
}

/// Bytes after a list's closing `e` do not change how its items are stepped over.
pub proof fn lemma_skip_list_items_extend(s: Seq<u8>, t: Seq<u8>)
    ensures
        spec_skip_list_items(s) matches Ok((rest, _)) ==> spec_skip_list_items(s + t) == Ok::<(Seq<u8>, ()), ErrorModel>((rest + t, ())),
    decreases s.len(), 1nat,
{
    if let Ok((rest, _)) = spec_skip_list_items(s) {
        assert((s + t)[0] == s[0]);
        if s[0] == b_e() {
            assert((s + t).drop_first() =~= s.drop_first() + t);
        } else {
            lemma_skip_value_extend(s, t);
            let (r, _) = spec_skip_value(s)->Ok_0;
            lemma_skip_list_items_extend(r, t);
        }
    }
}

/// Bytes after a dictionary's closing `e` do not change how its entries are stepped over.
pub proof fn lemma_skip_dict_items_extend(s: Seq<u8>, t: Seq<u8>)
    ensures
        spec_skip_dict_items(s) matches Ok((rest, _)) ==> spec_skip_dict_items(s + t) == Ok::<(Seq<u8>, ()), ErrorModel>((rest + t, ())),
    decreases s.len(), 1nat,
{
    if let Ok((rest, _)) = spec_skip_dict_items(s) {
        assert((s + t)[0] == s[0]);
        if s[0] == b_e() {
            assert((s + t).drop_first() =~= s.drop_first() + t);
        } else {
            lemma_string_extend(s, t);
            let (k, _) = spec_string(s)->Ok_0;
            lemma_skip_value_extend(k, t);
            let (r, _) = spec_skip_value(k)->Ok_0;
            lemma_skip_dict_items_extend(r, t);
        }
    }
}

// ---------------------------------------------------------------------------
// The recogniser
// ---------------------------------------------------------------------------
/// Steps over the bencode value at the start of `input`.
pub fn skip_bencode_value(input: &[u8]) -> (r: PResult<'_, ()>)
    ensures
        parsed_as(r, spec_skip_value(input@)),
    decreases input@.len(), 1nat,
{
    let first_byte = match peek_byte(input) {
        Some(b) => b,
        None => return Err(error_at(ErrorKind::Eof, input)),
    };
    if first_byte == 105 {
        skip_integer(input)
    } else if 48 <= first_byte && first_byte <= 57 {
        skip_string(input)
    } else if first_byte == 108 {
        skip_list(input)
    } else if first_byte == 100 {
        skip_dictionary(input)
    } else if first_byte == 101 {
        Err(error_at(ErrorKind::Tag, input))
    } else {
        Err(failure_at(ErrorKind::Tag, input))
    }
}

/// Steps over an integer.
fn skip_integer(input: &[u8]) -> (r: PResult<'_, ()>)
    ensures
        parsed_as(r, spec_skip_integer(input@)),
{
    let t = match expect_byte(input, 105) {
        Ok(t) => t,
        Err(e) => return Err(e),
    };
    let u = match expect_byte(t, 45) {
        Ok(u) => u,
        Err(_) => t,
    };
    let n = digit_run_len(u);
    if n == 0 {
        return Err(error_at(ErrorKind::Digit, u));
    }
    let w = advance(u, n);
    match expect_byte(w, 101) {
        Ok(rest) => Ok((rest, ())),
        Err(e) => Err(e),
    }
}

/// Steps over a string.
fn skip_string(input: &[u8]) -> (r: PResult<'_, ()>)
    ensures
        parsed_as(r, spec_skip_string(input@)),
{
    let (t, len) = match dec_u64(input) {
        Ok(p) => p,
        Err(at) => return Err(error_at(ErrorKind::Digit, at)),
    };
    let u = match expect_byte(t, 58) {
        Ok(u) => u,
        Err(e) => return Err(e),
    };
    match take_u64(u, len) {
        Ok((rest, _)) => Ok((rest, ())),
        Err(e) => Err(e),
    }
}

/// Steps over a list, starting at its `l`.
fn skip_list(input: &[u8]) -> (r: PResult<'_, ()>)
    requires
        starts_with(input@, b_l()),
    ensures
        parsed_as(r, spec_skip_list_items(input@.drop_first())),
    decreases input@.len(), 0nat,
{
    let mut cur = advance(input, 1);
    assert(cur@ =~= input@.drop_first());
    loop
        invariant
            cur@.len() < input@.len(),
            spec_skip_list_items(input@.drop_first()) == spec_skip_list_items(cur@),
        decreases cur@.len(),
    {
        let b = match peek_byte(cur) {
            Some(b) => b,
            None => return Err(error_at(ErrorKind::Tag, cur)),
        };
        if b == 101 {
            let rest = advance(cur, 1);
            assert(rest@ =~= cur@.drop_first());
            return Ok((rest, ()));
        }
        let rest = match skip_bencode_value(cur) {
            Ok((rest, _)) => rest,
            Err(ParseError::Failure(e)) => return Err(ParseError::Failure(e)),
            Err(ParseError::Error(_)) => return Err(error_at(ErrorKind::Tag, cur)),
        };
        proof {
            lemma_skip_value_consumes(cur@);
        }
        cur = rest;
    }
}

/// Steps over a dictionary, starting at its `d`.
fn skip_dictionary(input: &[u8]) -> (r: PResult<'_, ()>)
    requires
        starts_with(input@, b_d()),
    ensures
        parsed_as(r, spec_skip_dict_items(input@.drop_first())),
    decreases input@.len(), 0nat,
{
    let mut cur = advance(input, 1);
    assert(cur@ =~= input@.drop_first());
    loop
        invariant
            cur@.len() < input@.len(),
            spec_skip_dict_items(input@.drop_first()) == spec_skip_dict_items(cur@),
        decreases cur@.len(),
    {
        let b = match peek_byte(cur) {
            Some(b) => b,
            None => return Err(error_at(ErrorKind::Tag, cur)),
        };
        if b == 101 {
            let rest = advance(cur, 1);
            assert(rest@ =~= cur@.drop_first());
            return Ok((rest, ()));
        }
        if b == 105 || b == 108 || b == 100 {
            return Err(error_at(ErrorKind::Tag, cur));
        }
        if !(48 <= b && b <= 57) {
            return Err(failure_at(ErrorKind::Tag, cur));
        }
        let after_key = match skip_string(cur) {
            Ok((rest, _)) => rest,
            Err(_) => return Err(error_at(ErrorKind::Tag, cur)),
        };
        proof {
            lemma_string_consumes(cur@);
        }
        let rest = match skip_bencode_value(after_key) {
            Ok((rest, _)) => rest,
            Err(ParseError::Failure(e)) => return Err(ParseError::Failure(e)),
            Err(ParseError::Error(_)) => return Err(error_at(ErrorKind::Tag, cur)),
        };
        proof {
            lemma_skip_value_consumes(after_key@);
        }
        cur = rest;
    }
}

} // verus!
