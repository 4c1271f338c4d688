//! Byte-level building blocks shared by the bencode parsers: the error type,
//! single-byte tags, counted takes, digit runs, byte-string comparison, and
//! the decimal number readers of `nom`.
use vstd::prelude::*;

verus! {

/// What a parser found wrong.
#[derive(Debug, Clone, Copy, PartialEq, Eq, Structural)]
pub enum ErrorKind {
    /// An expected byte (`i`, `e`, `l`, `d`, `:`) is not there, or a byte
    /// starts no bencode value.
    Tag,
    /// A decimal number is missing or out of range.
    Digit,
    /// The input ends too early.
    Eof,
    /// A dictionary was read but lacks a required field, or holds fields
    /// that do not fit together.
    Fail,
}

/// Where a parse went wrong (the input from that point on), and what was wrong.
#[derive(Debug, Clone, Copy, PartialEq, Eq)]
pub struct ErrorAt<'a> {
    pub input: &'a [u8],
    pub code: ErrorKind,
}

/// Why a parse did not succeed.
///
/// `Error` is a recoverable failure: an enclosing repetition may stop at it
/// and try what comes next. `Failure` is fatal: the input was recognised far
/// enough to know that it is malformed, and no alternative is tried.
#[derive(Debug, Clone, Copy, PartialEq, Eq)]
pub enum ParseError<'a> {
    Error(ErrorAt<'a>),
    Failure(ErrorAt<'a>),
}

/// The model of a parse error.
pub struct ErrorModel {
    pub fatal: bool,
    pub input: Seq<u8>,
    pub code: ErrorKind,
}

impl<'a> View for ParseError<'a> {
    type V = ErrorModel;

    open spec fn view(&self) -> ErrorModel {
        match *self {
            ParseError::Error(e) => ErrorModel { fatal: false, input: e.input@, code: e.code },
            ParseError::Failure(e) => ErrorModel { fatal: true, input: e.input@, code: e.code },
        }
    }
}

/// A recoverable error of kind `code` at `at`.
pub open spec fn err_at(code: ErrorKind, at: Seq<u8>) -> ErrorModel {
    ErrorModel { fatal: false, input: at, code }
}

/// A fatal error of kind `code` at `at`.
pub open spec fn fail_at(code: ErrorKind, at: Seq<u8>) -> ErrorModel {
    ErrorModel { fatal: true, input: at, code }
}

/// Builds a recoverable error of kind `code` at `at`.
pub fn error_at(code: ErrorKind, at: &[u8]) -> (e: ParseError<'_>)
    ensures
        e@ == err_at(code, at@),
{
    ParseError::Error(ErrorAt { input: at, code })
}

/// Builds a fatal error of kind `code` at `at`.
pub fn failure_at(code: ErrorKind, at: &[u8]) -> (e: ParseError<'_>)
    ensures
        e@ == fail_at(code, at@),
{
    ParseError::Failure(ErrorAt { input: at, code })
}

/// The result of a parser: the unread rest of the input and the parsed value.
pub type PResult<'a, T> = Result<(&'a [u8], T), ParseError<'a>>;

/// What a parser does on a given input, as a mathematical value: the rest of
/// the input that is left unread and the model of the parsed value, or the
/// model of the error.
pub type SpecResult<M> = Result<(Seq<u8>, M), ErrorModel>;

/// `r` is what the specification `s` describes, the parsed value taken by its view.
pub open spec fn parsed_as<T: View>(r: PResult<T>, s: SpecResult<T::V>) -> bool {
    match s {
        Ok((rest, m)) => match r {
            Ok((r_rest, v)) => r_rest@ == rest && v@ == m,
            Err(_) => false,
        },
        Err(e) => match r {
            Ok(_) => false,
            Err(f) => f@ == e,
        },
    }
}

/// `r` is what the specification `s` describes, the parsed value taken by its deep view.
pub open spec fn parsed_as_deep<T: DeepView>(r: PResult<T>, s: SpecResult<T::V>) -> bool {
    match s {
        Ok((rest, m)) => match r {
            Ok((r_rest, v)) => r_rest@ == rest && v.deep_view() == m,
            Err(_) => false,
        },
        Err(e) => match r {
            Ok(_) => false,
            Err(f) => f@ == e,
        },
    }
}

// ---------------------------------------------------------------------------
// Bytes of the grammar
// ---------------------------------------------------------------------------
/// `'i'`
pub open spec fn b_i() -> u8 {
    105u8
}

/// `'l'`
pub open spec fn b_l() -> u8 {
    108u8
}

/// `'d'`
pub open spec fn b_d() -> u8 {
    100u8
}

/// `'e'`
pub open spec fn b_e() -> u8 {
    101u8
}

/// `':'`
pub open spec fn b_colon() -> u8 {
    58u8
}

/// `'-'`
pub open spec fn b_minus() -> u8 {
    45u8
}

/// `'+'`
pub open spec fn b_plus() -> u8 {
    43u8
}

/// An ASCII decimal digit.
pub open spec fn is_digit(b: u8) -> bool {
    48 <= b <= 57
}

/// Whether `s` starts with the byte `b`.
pub open spec fn starts_with(s: Seq<u8>, b: u8) -> bool {
    s.len() > 0 && s[0] == b
}

/// The length of the longest prefix of `s` made of ASCII digits.
pub open spec fn digit_run(s: Seq<u8>) -> nat
    decreases s.len(),
{
    if s.len() > 0 && is_digit(s[0]) {
        1 + digit_run(s.drop_first())
    } else {
        0
    }
}

/// A run of digits lies within the sequence.
pub proof fn lemma_digit_run_bound(s: Seq<u8>)
    ensures
        digit_run(s) <= s.len(),
    decreases s.len(),
{
    if s.len() > 0 && is_digit(s[0]) {
        lemma_digit_run_bound(s.drop_first());
    }
}

/// Bytes after a terminated run of digits do not change the run.
pub proof fn lemma_digit_run_append(s: Seq<u8>, t: Seq<u8>)
    requires
        digit_run(s) < s.len(),
    ensures
        digit_run(s + t) == digit_run(s),
    decreases s.len(),
{
    if is_digit(s[0]) {
        assert((s + t).drop_first() =~= s.drop_first() + t);
        lemma_digit_run_append(s.drop_first(), t);
    }
}

/// The number that a sequence of ASCII digits writes in decimal.
pub open spec fn digits_value(d: Seq<u8>) -> nat
    decreases d.len(),
{
    if d.len() == 0 {
        0
    } else {
        digits_value(d.drop_last()) * 10 + (d.last() - 48) as nat
    }
}

/// The decimal digits of `n`, without leading zeros.
pub open spec fn decimal(n: nat) -> Seq<u8>
    decreases n,
{
    if n < 10 {
        seq![(48 + n) as u8]
    } else {
        decimal(n / 10).push((48 + n % 10) as u8)
    }
}

/// The decimal digits of `n` are digits, at least one, and write `n`.
pub proof fn lemma_decimal(n: nat)
    ensures
        decimal(n).len() >= 1,
        forall|i: int| 0 <= i < decimal(n).len() ==> is_digit(#[trigger] decimal(n)[i]),
        digits_value(decimal(n)) == n,
    decreases n,
{
    if n >= 10 {
        lemma_decimal(n / 10);
        assert(decimal(n).drop_last() =~= decimal(n / 10));
        assert(decimal(n).last() == (48 + n % 10) as u8);
        assert((decimal(n).last() - 48) as nat == n % 10);
        assert(n == (n / 10) * 10 + n % 10);
        assert(digits_value(decimal(n)) == digits_value(decimal(n).drop_last()) * 10 + (
        decimal(n).last() - 48) as nat);
    } else {
        assert(decimal(n).drop_last() =~= Seq::<u8>::empty());
        assert(digits_value(decimal(n)) == digits_value(decimal(n).drop_last()) * 10 + (
        decimal(n).last() - 48) as nat);
    }
}

/// A run of digits followed by a non-digit (or by nothing) is read whole.
pub proof fn lemma_digit_run_of(d: Seq<u8>, t: Seq<u8>)
    requires
        forall|i: int| 0 <= i < d.len() ==> is_digit(#[trigger] d[i]),
        t.len() == 0 || !is_digit(t[0]),
    ensures
        digit_run(d + t) == d.len(),
        (d + t).take(d.len() as int) == d,
        (d + t).skip(d.len() as int) == t,
    decreases d.len(),
{
    assert((d + t).take(d.len() as int) =~= d);
    assert((d + t).skip(d.len() as int) =~= t);
    if d.len() > 0 {
        assert((d + t).drop_first() =~= d.drop_first() + t);
        lemma_digit_run_of(d.drop_first(), t);
    } else {
        assert(d + t =~= t);
    }
}

/// What `nom`'s `u64` reader gives on `s`: the run of leading digits and its
/// value, or nothing when there is no leading digit or the value exceeds
/// `u64::MAX`.
pub open spec fn spec_dec_u64(s: Seq<u8>) -> Option<(Seq<u8>, u64)> {
    let n = digit_run(s);
    let v = digits_value(s.take(n as int));
    if n == 0 || v > u64::MAX {
        None
    } else {
        Some((s.skip(n as int), v as u64))
    }
}

/// What `nom`'s `i64` reader gives on `s`: an optional `-` or `+`, then a run
/// of digits whose signed value fits in an `i64`.
pub open spec fn spec_dec_i64(s: Seq<u8>) -> Option<(Seq<u8>, i64)> {
    let negative = starts_with(s, b_minus());
    let k: int = if starts_with(s, b_minus()) || starts_with(s, b_plus()) {
        1
    } else {
        0
    };
    let t = s.skip(k);
    let n = digit_run(t);
    let v = digits_value(t.take(n as int));
    if n == 0 {
        None
    } else if !negative {
        if v > i64::MAX {
            None
        } else {
            Some((t.skip(n as int), v as i64))
        }
    } else {
        if v > 0x8000_0000_0000_0000 {
            None
        } else {
            Some((t.skip(n as int), (-v) as i64))
        }
    }
}

// ---------------------------------------------------------------------------
// Calls into nom
// ---------------------------------------------------------------------------
/// Calls `nom::character::complete::u64` on `input`.
///
/// Trusted: the result is the one that `spec_dec_u64` describes (the leading
/// run of ASCII digits, read with checked arithmetic). On every error this
/// reader returns `nom::Err::Error` with the code `Digit` at `input` itself;
/// the wrapper hands back that position.
#[verifier::external_body]
pub(crate) fn dec_u64(input: &[u8]) -> (r: Result<(&[u8], u64), &[u8]>)
    ensures
        match spec_dec_u64(input@) {
            Some((rest, v)) => r matches Ok((r_rest, w)) && r_rest@ == rest && w == v,
            None => r matches Err(at) && at@ == input@,
        },
{
    match nom::character::complete::u64::<&[u8], nom::error::Error<&[u8]>>(input) {
        Ok((rest, v)) => Ok((rest, v)),
        Err(nom::Err::Error(e)) => Err(e.input),
        Err(nom::Err::Failure(e)) => Err(e.input),
        Err(nom::Err::Incomplete(_)) => Err(input),
    }
}

/// Calls `nom::character::complete::i64` on `input`.
///
/// Trusted: the result is the one that `spec_dec_i64` describes (an optional
/// sign, then the leading run of ASCII digits, accumulated with checked
/// arithmetic towards the sign). On every error this reader returns
/// `nom::Err::Error` with the code `Digit` at `input` itself, before any
/// sign; the wrapper hands back that position.
#[verifier::external_body]
pub(crate) fn dec_i64(input: &[u8]) -> (r: Result<(&[u8], i64), &[u8]>)
    ensures
        match spec_dec_i64(input@) {
            Some((rest, v)) => r matches Ok((r_rest, w)) && r_rest@ == rest && w == v,
            None => r matches Err(at) && at@ == input@,
        },
{
    match nom::character::complete::i64::<&[u8], nom::error::Error<&[u8]>>(input) {
        Ok((rest, v)) => Ok((rest, v)),
        Err(nom::Err::Error(e)) => Err(e.input),
        Err(nom::Err::Failure(e)) => Err(e.input),
        Err(nom::Err::Incomplete(_)) => Err(input),
    }
}

// ---------------------------------------------------------------------------
// Byte-level steps
// ---------------------------------------------------------------------------
/// Drops the first `n` bytes of `input`.
pub fn advance(input: &[u8], n: usize) -> (rest: &[u8])
    requires
        n <= input@.len(),
    ensures
        rest@ == input@.skip(n as int),
{
    vstd::slice::slice_subrange(input, n, input.len())
}

/// Consumes the byte `b` at the start of `input`; otherwise a recoverable
/// `Tag` error at `input`.
pub fn expect_byte(input: &[u8], b: u8) -> (r: Result<&[u8], ParseError<'_>>)
    ensures
        match r {
            Ok(rest) => starts_with(input@, b) && rest@ == input@.drop_first(),
            Err(e) => !starts_with(input@, b) && e@ == err_at(ErrorKind::Tag, input@),
        },
{
    if input.len() > 0 && input[0] == b {
        let rest = advance(input, 1);
        assert(rest@ =~= input@.drop_first());
        Ok(rest)
    } else {
        Err(error_at(ErrorKind::Tag, input))
    }
}

/// Looks at the first byte of `input` without consuming it.
pub fn peek_byte(input: &[u8]) -> (r: Option<u8>)
    ensures
        match r {
            Some(b) => input@.len() > 0 && b == input@[0],
            None => input@.len() == 0,
        },
{
    if input.len() > 0 {
        Some(input[0])
    } else {
        None
    }
}

/// Splits `len` bytes off the start of `input`; otherwise a recoverable
/// `Eof` error at `input`.
pub fn take_u64(input: &[u8], len: u64) -> (r: PResult<'_, &[u8]>)
    ensures
        if len <= input@.len() {
            r matches Ok((rest, taken)) && taken@ == input@.take(len as int) && rest@ == input@.skip(
                len as int,
            )
        } else {
            r matches Err(e) && e@ == err_at(ErrorKind::Eof, input@)
        },
{
    if (input.len() as u64) < len {
        Err(error_at(ErrorKind::Eof, input))
    } else {
        let n = len as usize;
        let taken = vstd::slice::slice_subrange(input, 0, n);
        let rest = advance(input, n);
        assert(taken@ =~= input@.take(len as int));
        Ok((rest, taken))
    }
}

/// Consumes the longest run of ASCII digits at the start of `input`.
pub fn digit_run_len(input: &[u8]) -> (n: usize)
    ensures
        n == digit_run(input@),
        n <= input@.len(),
{
    let mut i: usize = 0;
    assert(input@.skip(0) =~= input@);
    while i < input.len() && 48 <= input[i] && input[i] <= 57
        invariant
            i <= input@.len(),
            digit_run(input@) == i + digit_run(input@.skip(i as int)),
        decreases input@.len() - i,
    {
        assert(input@.skip(i as int).drop_first() =~= input@.skip(i + 1));
        i = i + 1;
    }
    i
}

/// Compares two byte strings for equality.
pub fn bytes_eq(a: &[u8], b: &[u8]) -> (r: bool)
    ensures
        r == (a@ == b@),
{
    if a.len() != b.len() {
        return false;
    }
    let mut i: usize = 0;
    while i < a.len()
        invariant
            a@.len() == b@.len(),
            i <= a@.len(),
            forall|j: int| 0 <= j < i ==> a@[j] == b@[j],
        decreases a@.len() - i,
    {
        if a[i] != b[i] {
            return false;
        }
        i = i + 1;
    }
    assert(a@ =~= b@);
    true
}

/// The deep view of a byte string is its view.
pub proof fn lemma_bytes_deep_view(b: &[u8])
    ensures
        b.deep_view() == b@,
{
    assert(b.deep_view() =~= b@);
}

// ---------------------------------------------------------------------------
// Lexicographic order of byte strings
// ---------------------------------------------------------------------------
/// `a` comes strictly before `b` in the lexicographic order of byte strings
/// (the order of `<[u8] as Ord>`: a proper prefix comes first).
pub open spec fn lex_lt(a: Seq<u8>, b: Seq<u8>) -> bool
    decreases a.len(),
{
    if b.len() == 0 {
        false
    } else if a.len() == 0 {
        true
    } else if a[0] != b[0] {
        a[0] < b[0]
    } else {
        lex_lt(a.drop_first(), b.drop_first())
    }
}

/// No byte string comes before itself.
pub proof fn lemma_lex_irreflexive(a: Seq<u8>)
    ensures
        !lex_lt(a, a),
    decreases a.len(),
{
    if a.len() > 0 {
        lemma_lex_irreflexive(a.drop_first());
    }
}

/// The lexicographic order is transitive.
pub proof fn lemma_lex_transitive(a: Seq<u8>, b: Seq<u8>, c: Seq<u8>)
    requires
        lex_lt(a, b),
        lex_lt(b, c),
    ensures
        lex_lt(a, c),
    decreases a.len(),
{
    if a.len() > 0 && b.len() > 0 && c.len() > 0 && a[0] == b[0] && b[0] == c[0] {
        lemma_lex_transitive(a.drop_first(), b.drop_first(), c.drop_first());
    }
}

/// Of two different byte strings, one comes before the other.
pub proof fn lemma_lex_total(a: Seq<u8>, b: Seq<u8>)
    requires
        a != b,
    ensures
        lex_lt(a, b) || lex_lt(b, a),
    decreases a.len(),
{
    if a.len() > 0 && b.len() > 0 && a[0] == b[0] {
        if a.drop_first() == b.drop_first() {
            assert(a =~= seq![a[0]] + a.drop_first());
            assert(b =~= seq![b[0]] + b.drop_first());
        }
        lemma_lex_total(a.drop_first(), b.drop_first());
    } else if a.len() == 0 && b.len() == 0 {
        assert(a =~= b);
    }
}

/// Decides `lex_lt(a@, b@)`.
pub fn bytes_lt(a: &[u8], b: &[u8]) -> (r: bool)
    ensures
        r == lex_lt(a@, b@),
{
    let mut i: usize = 0;
    assert(a@.skip(0) =~= a@);
    assert(b@.skip(0) =~= b@);
    while i < a.len() && i < b.len() && a[i] == b[i]
        invariant
            i <= a@.len(),
            i <= b@.len(),
            lex_lt(a@, b@) == lex_lt(a@.skip(i as int), b@.skip(i as int)),
        decreases a@.len() - i,
    {
        assert(a@.skip(i as int).drop_first() =~= a@.skip(i + 1));
        assert(b@.skip(i as int).drop_first() =~= b@.skip(i + 1));
        i = i + 1;
    }
    if i == b.len() {
        false
    } else if i == a.len() {
        true
    } else {
        a[i] < b[i]
    }
}

} // verus!
