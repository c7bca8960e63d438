use crate::value::{pairs_view, seq_view, BEncodedType, BValue};
use vstd::prelude::*;
use vstd::slice::slice_subrange;

verus! {

/// Why a rule did not produce a value.
#[derive(Debug, PartialEq, Eq, Clone, Copy)]
pub enum ErrorKind {
    /// An expected marker byte (`i`, `l`, `d`, `:`, `e`) is missing.
    Tag,
    /// A digit was expected.
    Digit,
    /// A number is written with a leading zero, or as `-0`.
    OneOf,
    /// The input ends before the value does.
    Eof,
    /// An integer does not fit in 64 signed bits.
    TooLarge,
    /// Lists and dictionaries are nested deeper than the parser allows.
    TooDeep,
}

/// A parse failure, with the input that remained where it was detected.
///
/// `Error` means that the rule's lead token did not match, so another rule
/// may be tried; `Failure` means that a rule began to match and then found
/// the input malformed.
#[derive(Debug, PartialEq)]
pub enum ParseError<'a> {
    Error(&'a [u8], ErrorKind),
    Failure(&'a [u8], ErrorKind),
}

/// What the grammar makes of an input: a value and the rest, a soft
/// mismatch, or a hard failure.
pub enum Outcome<T> {
    Done(T, Seq<u8>),
    Soft(Seq<u8>, ErrorKind),
    Hard(Seq<u8>, ErrorKind),
}

impl<'a> ParseError<'a> {
    /// The outcome that this error stands for.
    pub open spec fn model<T>(&self) -> Outcome<T> {
        match self {
            ParseError::Error(r, k) => Outcome::Soft(r@, *k),
            ParseError::Failure(r, k) => Outcome::Hard(r@, *k),
        }
    }
}

/// Deepest nesting of lists and dictionaries that `parse_primitive` accepts.
pub const MAX_DEPTH: usize = 128;

/// The ASCII bytes that the grammar reads: `0`, `9`, `:`, `-`, `i`, `l`,
/// `d` and `e`.
pub const ZERO: u8 = 48;
pub const NINE: u8 = 57;
pub const COLON: u8 = 58;
pub const MINUS: u8 = 45;
pub const INT_MARK: u8 = 105;
pub const LIST_MARK: u8 = 108;
pub const DICT_MARK: u8 = 100;
pub const END_MARK: u8 = 101;

pub open spec fn is_digit(b: u8) -> bool {
    ZERO <= b <= NINE
}

/// Number of ASCII digits at the start of `s`.
pub open spec fn digit_run(s: Seq<u8>) -> nat
    decreases s.len(),
{
    if s.len() > 0 && is_digit(s[0]) {
        1 + digit_run(s.drop_first())
    } else {
        0
    }
}

/// The number that a run of ASCII digits writes in decimal.
pub open spec fn decimal(d: Seq<u8>) -> int
    decreases d.len(),
{
    if d.len() == 0 {
        0
    } else {
        10 * decimal(d.drop_last()) + (d.last() - ZERO)
    }
}

/// Byte string rule: `<length>:<payload>`.
pub open spec fn spec_str(s: Seq<u8>) -> Outcome<Seq<u8>> {
    let n = digit_run(s) as int;
    if n == 0 {
        Outcome::Soft(s, ErrorKind::Digit)
    } else if s[0] == ZERO && n > 1 {
        Outcome::Hard(s, ErrorKind::OneOf)
    } else if n == s.len() || s[n] != COLON {
        Outcome::Hard(s.subrange(n, s.len() as int), ErrorKind::Tag)
    } else {
        let rest = s.subrange(n + 1, s.len() as int);
        let len = decimal(s.subrange(0, n));
        if len > rest.len() {
            Outcome::Hard(rest, ErrorKind::Eof)
        } else {
            Outcome::Done(rest.subrange(0, len), rest.subrange(len, rest.len() as int))
        }
    }
}

/// Integer rule: `i<optional '-'><canonical digits>e`.
pub open spec fn spec_int(s: Seq<u8>) -> Outcome<int> {
    if s.len() == 0 || s[0] != INT_MARK {
        Outcome::Soft(s, ErrorKind::Tag)
    } else {
        let t = s.subrange(1, s.len() as int);
        let neg = t.len() > 0 && t[0] == MINUS;
        let u = if neg { t.subrange(1, t.len() as int) } else { t };
        let n = digit_run(u) as int;
        if n == 0 {
            Outcome::Hard(u, ErrorKind::Digit)
        } else if u[0] == ZERO && (neg || n > 1) {
            Outcome::Hard(u, ErrorKind::OneOf)
        } else {
            let m = decimal(u.subrange(0, n));
            let v = if neg { -m } else { m };
            if v < i64::MIN || v > i64::MAX {
                Outcome::Hard(u, ErrorKind::TooLarge)
            } else {
                let w = u.subrange(n, u.len() as int);
                if w.len() == 0 || w[0] != END_MARK {
                    Outcome::Hard(w, ErrorKind::Tag)
                } else {
                    Outcome::Done(v, w.subrange(1, w.len() as int))
                }
            }
        }
    }
}

/// A value in front of a sequence that the rest of a rule produced.
pub open spec fn prepend<T>(pre: Seq<T>, o: Outcome<Seq<T>>) -> Outcome<Seq<T>> {
    match o {
        Outcome::Done(vs, r) => Outcome::Done(pre + vs, r),
        Outcome::Soft(r, k) => Outcome::Soft(r, k),
        Outcome::Hard(r, k) => Outcome::Hard(r, k),
    }
}

/// A failure of an inner rule, which no other rule may take over.
pub open spec fn harden<T, U>(o: Outcome<T>) -> Outcome<U> {
    match o {
        Outcome::Done(_, r) => Outcome::Hard(r, ErrorKind::Eof),
        Outcome::Soft(r, k) => Outcome::Hard(r, k),
        Outcome::Hard(r, k) => Outcome::Hard(r, k),
    }
}

/// Any value: dispatches on the lead byte.
pub open spec fn spec_value(s: Seq<u8>, depth: nat) -> Outcome<BValue>
    decreases depth, s.len(), 2nat,
{
    if s.len() == 0 {
        Outcome::Soft(s, ErrorKind::Eof)
    } else if is_digit(s[0]) {
        match spec_str(s) {
            Outcome::Done(b, r) => Outcome::Done(BValue::Bytes(b), r),
            Outcome::Soft(r, k) => Outcome::Soft(r, k),
            Outcome::Hard(r, k) => Outcome::Hard(r, k),
        }
    } else if s[0] == INT_MARK {
        match spec_int(s) {
            Outcome::Done(v, r) => Outcome::Done(BValue::Int(v), r),
            Outcome::Soft(r, k) => Outcome::Soft(r, k),
            Outcome::Hard(r, k) => Outcome::Hard(r, k),
        }
    } else if s[0] == LIST_MARK {
        match spec_list(s, depth) {
            Outcome::Done(v, r) => Outcome::Done(BValue::List(v), r),
            Outcome::Soft(r, k) => Outcome::Soft(r, k),
            Outcome::Hard(r, k) => Outcome::Hard(r, k),
        }
    } else if s[0] == DICT_MARK {
        match spec_dict(s, depth) {
            Outcome::Done(v, r) => Outcome::Done(BValue::Dict(v), r),
            Outcome::Soft(r, k) => Outcome::Soft(r, k),
            Outcome::Hard(r, k) => Outcome::Hard(r, k),
        }
    } else {
        Outcome::Soft(s, ErrorKind::Tag)
    }
}

/// List rule: `l<values>e`, nested at most `depth` deep.
pub open spec fn spec_list(s: Seq<u8>, depth: nat) -> Outcome<Seq<BValue>>
    decreases depth, s.len(), 1nat,
{
    if s.len() == 0 || s[0] != LIST_MARK {
        Outcome::Soft(s, ErrorKind::Tag)
    } else if depth == 0 {
        Outcome::Hard(s, ErrorKind::TooDeep)
    } else {
        spec_items(s.subrange(1, s.len() as int), depth)
    }
}

/// The items of a list up to and including its `e`.
pub open spec fn spec_items(t: Seq<u8>, depth: nat) -> Outcome<Seq<BValue>>
    decreases depth, t.len(), 0nat,
{
    if t.len() == 0 {
        Outcome::Hard(t, ErrorKind::Eof)
    } else if t[0] == END_MARK {
        Outcome::Done(seq![], t.subrange(1, t.len() as int))
    } else if depth == 0 {
        Outcome::Hard(t, ErrorKind::TooDeep)
    } else {
        match spec_value(t, (depth - 1) as nat) {
            // A value always consumes input, so the guard holds; it is
            // there to make the recursion visibly well-founded.
            Outcome::Done(v, r) => if r.len() < t.len() {
                prepend(seq![v], spec_items(r, depth))
            } else {
                Outcome::Hard(r, ErrorKind::Eof)
            },
            o => harden(o),
        }
    }
}

/// Dictionary rule: `d<byte string key><value>...e`, nested at most `depth` deep.
pub open spec fn spec_dict(s: Seq<u8>, depth: nat) -> Outcome<Seq<(Seq<u8>, BValue)>>
    decreases depth, s.len(), 1nat,
{
    if s.len() == 0 || s[0] != DICT_MARK {
        Outcome::Soft(s, ErrorKind::Tag)
    } else if depth == 0 {
        Outcome::Hard(s, ErrorKind::TooDeep)
    } else {
        spec_entries(s.subrange(1, s.len() as int), depth)
    }
}

/// The entries of a dictionary up to and including its `e`.
pub open spec fn spec_entries(t: Seq<u8>, depth: nat) -> Outcome<Seq<(Seq<u8>, BValue)>>
    decreases depth, t.len(), 0nat,
{
    if t.len() == 0 {
        Outcome::Hard(t, ErrorKind::Eof)
    } else if t[0] == END_MARK {
        Outcome::Done(seq![], t.subrange(1, t.len() as int))
    } else if depth == 0 {
        Outcome::Hard(t, ErrorKind::TooDeep)
    } else {
        match spec_str(t) {
            Outcome::Done(key, r1) => match spec_value(r1, (depth - 1) as nat) {
                // Always true, as in `spec_items`.
                Outcome::Done(v, r2) => if r2.len() < t.len() {
                    prepend(seq![(key, v)], spec_entries(r2, depth))
                } else {
                    Outcome::Hard(r2, ErrorKind::Eof)
                },
                o => harden(o),
            },
            Outcome::Soft(r, _) => Outcome::Hard(r, ErrorKind::Tag),
            Outcome::Hard(r, k) => Outcome::Hard(r, k),
        }
    }
}

proof fn lemma_prepend_twice<T>(a: Seq<T>, b: Seq<T>, o: Outcome<Seq<T>>)
    ensures
        prepend(a, prepend(b, o)) == prepend(a + b, o),
{
    if let Outcome::Done(vs, r) = o {
        assert(a + (b + vs) =~= (a + b) + vs);
    }
}

pub(crate) proof fn lemma_digit_run(s: Seq<u8>, n: int)
    requires
        0 <= n <= s.len(),
        forall|i: int| 0 <= i < n ==> is_digit(#[trigger] s[i]),
        n == s.len() || !is_digit(s[n]),
    ensures
        digit_run(s) == n,
    decreases n,
{
    if n > 0 {
        let t = s.drop_first();
        assert forall|i: int| 0 <= i < n - 1 implies is_digit(#[trigger] t[i]) by {
            assert(t[i] == s[i + 1]);
        }
        if n - 1 < t.len() {
            assert(t[n - 1] == s[n]);
        }
        lemma_digit_run(t, n - 1);
    }
}

proof fn lemma_decimal_nonneg(d: Seq<u8>)
    requires
        forall|k: int| 0 <= k < d.len() ==> is_digit(#[trigger] d[k]),
    ensures
        0 <= decimal(d),
    decreases d.len(),
{
    if d.len() > 0 {
        lemma_decimal_nonneg(d.drop_last());
    }
}

proof fn lemma_decimal_grows(d: Seq<u8>, i: int, j: int)
    requires
        0 <= i <= j <= d.len(),
        forall|k: int| 0 <= k < d.len() ==> is_digit(#[trigger] d[k]),
    ensures
        decimal(d.subrange(0, i)) <= decimal(d.subrange(0, j)),
    decreases j - i,
{
    if j > i {
        lemma_decimal_grows(d, i, j - 1);
        assert(d.subrange(0, j).drop_last() =~= d.subrange(0, j - 1));
        lemma_decimal_nonneg(d.subrange(0, j - 1));
    }
}

/// Counts the ASCII digits at the start of `s`.
fn digit_run_len(s: &[u8]) -> (n: usize)
    ensures
        n == digit_run(s@),
        n <= s@.len(),
        forall|k: int| 0 <= k < n ==> is_digit(#[trigger] s@[k]),
{
    let mut i: usize = 0;
    while i < s.len() && ZERO <= s[i] && s[i] <= NINE
        invariant
            i <= s@.len(),
            forall|k: int| 0 <= k < i ==> is_digit(#[trigger] s@[k]),
        decreases s.len() - i,
    {
        i = i + 1;
    }
    proof {
        lemma_digit_run(s@, i as int);
    }
    i
}

/// The value of a run of decimal digits, or `None` where it exceeds `cap`.
pub fn from_digit(d: &[u8], cap: u64) -> (r: Option<u64>)
    requires
        forall|k: int| 0 <= k < d@.len() ==> is_digit(#[trigger] d@[k]),
    ensures
        decimal(d@) <= cap ==> r == Some(decimal(d@) as u64),
        decimal(d@) > cap ==> r is None,
        r matches Some(v) ==> v <= cap && v == decimal(d@),
{
    let mut val: u64 = 0;
    let mut i: usize = 0;
    while i < d.len()
        invariant
            i <= d@.len(),
            val <= cap,
            val == decimal(d@.subrange(0, i as int)),
            forall|k: int| 0 <= k < d@.len() ==> is_digit(#[trigger] d@[k]),
        decreases d.len() - i,
    {
        proof {
            assert(d@.subrange(0, i + 1).drop_last() =~= d@.subrange(0, i as int));
            lemma_decimal_grows(d@, i + 1, d@.len() as int);
        }
        let digit = (d[i] - ZERO) as u64;
        if digit > cap || val > (cap - digit) / 10 {
            proof {
                assert(val * 10 + digit > cap) by (nonlinear_arith)
                    requires
                        digit > cap || val > (cap - digit) / 10,
                        val >= 0,
                        digit >= 0,
                ;
                assert(d@.subrange(0, d@.len() as int) =~= d@);
            }
            return None;
        }
        proof {
            assert(val * 10 + digit <= cap) by (nonlinear_arith)
                requires
                    digit <= cap,
                    val <= (cap - digit) / 10,
            ;
        }
        val = val * 10 + digit;
        i = i + 1;
    }
    proof {
        assert(d@.subrange(0, i as int) =~= d@);
    }
    Some(val)
}

/// The outcome that a result of `parse_str` stands for.
pub open spec fn bytes_outcome<'a>(r: Result<(&'a [u8], &'a [u8]), ParseError<'a>>) -> Outcome<
    Seq<u8>,
> {
    match r {
        Ok((rest, b)) => Outcome::Done(b@, rest@),
        Err(e) => e.model(),
    }
}

/// The outcome that a result of `parse_int` stands for.
pub open spec fn int_outcome<'a>(r: Result<(&'a [u8], i64), ParseError<'a>>) -> Outcome<int> {
    match r {
        Ok((rest, v)) => Outcome::Done(v as int, rest@),
        Err(e) => e.model(),
    }
}

/// Reads a byte string `<length>:<payload>` at the start of `input`;
/// returns the rest of the input and the payload.
pub fn parse_str<'a>(input: &'a [u8]) -> (r: Result<(&'a [u8], &'a [u8]), ParseError<'a>>)
    ensures
        bytes_outcome(r) == spec_str(input@),
        r matches Ok((rest, _)) ==> rest@.len() < input@.len(),
{
    let n = digit_run_len(input);
    if n == 0 {
        return Err(ParseError::Error(input, ErrorKind::Digit));
    }
    if input[0] == ZERO && n > 1 {
        return Err(ParseError::Failure(input, ErrorKind::OneOf));
    }
    if n == input.len() || input[n] != COLON {
        return Err(ParseError::Failure(slice_subrange(input, n, input.len()), ErrorKind::Tag));
    }
    let rest = slice_subrange(input, n + 1, input.len());
    let digits = slice_subrange(input, 0, n);
    match from_digit(digits, rest.len() as u64) {
        None => Err(ParseError::Failure(rest, ErrorKind::Eof)),
        Some(len) => {
            let len = len as usize;
            Ok((slice_subrange(rest, len, rest.len()), slice_subrange(rest, 0, len)))
        },
    }
}

/// Reads an integer `i<digits>e` at the start of `input`; returns the rest
/// of the input and the integer.
pub fn parse_int<'a>(input: &'a [u8]) -> (r: Result<(&'a [u8], i64), ParseError<'a>>)
    ensures
        int_outcome(r) == spec_int(input@),
        r matches Ok((rest, _)) ==> rest@.len() < input@.len(),
{
    if input.len() == 0 || input[0] != INT_MARK {
        return Err(ParseError::Error(input, ErrorKind::Tag));
    }
    let t = slice_subrange(input, 1, input.len());
    let neg = t.len() > 0 && t[0] == MINUS;
    let u = if neg {
        slice_subrange(t, 1, t.len())
    } else {
        t
    };
    let n = digit_run_len(u);
    if n == 0 {
        return Err(ParseError::Failure(u, ErrorKind::Digit));
    }
    if u[0] == ZERO && (neg || n > 1) {
        return Err(ParseError::Failure(u, ErrorKind::OneOf));
    }
    let digits = slice_subrange(u, 0, n);
    let cap: u64 = if neg {
        9223372036854775808
    } else {
        9223372036854775807
    };
    let m = match from_digit(digits, cap) {
        None => {
            return Err(ParseError::Failure(u, ErrorKind::TooLarge));
        },
        Some(m) => m,
    };
    let v: i64 = if !neg {
        m as i64
    } else if m == 9223372036854775808 {
        i64::MIN
    } else {
        -(m as i64)
    };
    let w = slice_subrange(u, n, u.len());
    if w.len() == 0 || w[0] != END_MARK {
        return Err(ParseError::Failure(w, ErrorKind::Tag));
    }
    Ok((slice_subrange(w, 1, w.len()), v))
}

/// The outcome that a result of `parse_primitive` stands for.
pub open spec fn value_outcome<'a>(
    r: Result<(&'a [u8], BEncodedType<'a>), ParseError<'a>>,
) -> Outcome<BValue> {
    match r {
        Ok((rest, v)) => Outcome::Done(v@, rest@),
        Err(e) => e.model(),
    }
}

/// The outcome that a result of `parse_list` stands for.
pub open spec fn list_outcome<'a>(
    r: Result<(&'a [u8], Vec<BEncodedType<'a>>), ParseError<'a>>,
) -> Outcome<Seq<BValue>> {
    match r {
        Ok((rest, v)) => Outcome::Done(seq_view(v@), rest@),
        Err(e) => e.model(),
    }
}

/// The outcome that a result of `parse_dictionary` stands for.
pub open spec fn dict_outcome<'a>(
    r: Result<(&'a [u8], Vec<(&'a [u8], BEncodedType<'a>)>), ParseError<'a>>,
) -> Outcome<Seq<(Seq<u8>, BValue)>> {
    match r {
        Ok((rest, v)) => Outcome::Done(pairs_view(v@), rest@),
        Err(e) => e.model(),
    }
}

fn value_at<'a>(input: &'a [u8], depth: usize) -> (r: Result<
    (&'a [u8], BEncodedType<'a>),
    ParseError<'a>,
>)
    ensures
        value_outcome(r) == spec_value(input@, depth as nat),
        r matches Ok((rest, _)) ==> rest@.len() < input@.len(),
    decreases depth, input@.len(), 2nat,
{
    if input.len() == 0 {
        return Err(ParseError::Error(input, ErrorKind::Eof));
    }
    let c = input[0];
    if ZERO <= c && c <= NINE {
        match parse_str(input) {
            Ok((rest, b)) => Ok((rest, BEncodedType::String(b))),
            Err(e) => Err(e),
        }
    } else if c == INT_MARK {
        match parse_int(input) {
            Ok((rest, v)) => Ok((rest, BEncodedType::Integer(v))),
            Err(e) => Err(e),
        }
    } else if c == LIST_MARK {
        match list_at(input, depth) {
            Ok((rest, v)) => {
                let ghost items = v@;
                let out = BEncodedType::List(v);
                assert(out@ == BValue::List(seq_view(items))) by {
                    assert(seq_view(items) =~= match out@ {
                        BValue::List(w) => w,
                        _ => seq_view(items),
                    });
                }
                Ok((rest, out))
            },
            Err(e) => Err(e),
        }
    } else if c == DICT_MARK {
        match dict_at(input, depth) {
            Ok((rest, v)) => {
                let ghost entries = v@;
                let out = BEncodedType::Dictionary(v);
                assert(out@ == BValue::Dict(pairs_view(entries))) by {
                    assert(pairs_view(entries) =~= match out@ {
                        BValue::Dict(w) => w,
                        _ => pairs_view(entries),
                    });
                }
                Ok((rest, out))
            },
            Err(e) => Err(e),
        }
    } else {
        Err(ParseError::Error(input, ErrorKind::Tag))
    }
}

fn list_at<'a>(input: &'a [u8], depth: usize) -> (r: Result<
    (&'a [u8], Vec<BEncodedType<'a>>),
    ParseError<'a>,
>)
    ensures
        list_outcome(r) == spec_list(input@, depth as nat),
        r matches Ok((rest, _)) ==> rest@.len() < input@.len(),
    decreases depth, input@.len(), 1nat,
{
    if input.len() == 0 || input[0] != LIST_MARK {
        return Err(ParseError::Error(input, ErrorKind::Tag));
    }
    if depth == 0 {
        return Err(ParseError::Failure(input, ErrorKind::TooDeep));
    }
    let mut cur = slice_subrange(input, 1, input.len());
    let mut items: Vec<BEncodedType<'a>> = Vec::new();
    proof {
        assert(seq_view(items@) + seq![] =~= seq![]);
        assert(prepend(seq_view(items@), spec_items(cur@, depth as nat)) == spec_items(cur@, depth as nat)) by {
            if let Outcome::Done(vs, rr) = spec_items(cur@, depth as nat) {
                assert(seq_view(items@) + vs =~= vs);
            }
        }
    }
    loop
        invariant
            depth > 0,
            cur@.len() < input@.len(),
            spec_list(input@, depth as nat) == prepend(seq_view(items@), spec_items(cur@, depth as nat)),
        decreases cur@.len(),
    {
        if cur.len() == 0 {
            return Err(ParseError::Failure(cur, ErrorKind::Eof));
        }
        if cur[0] == END_MARK {
            let rest = slice_subrange(cur, 1, cur.len());
            proof {
                assert(seq_view(items@) + seq![] =~= seq_view(items@));
            }
            return Ok((rest, items));
        }
        match value_at(cur, depth - 1) {
            Ok((rest, v)) => {
                proof {
                    lemma_prepend_twice(seq_view(items@), seq![v@], spec_items(rest@, depth as nat));
                    assert(seq_view(items@) + seq![v@] =~= seq_view(items@.push(v)));
                }
                items.push(v);
                cur = rest;
            },
            Err(ParseError::Error(r, k)) => {
                return Err(ParseError::Failure(r, k));
            },
            Err(e) => {
                return Err(e);
            },
        }
    }
}

fn dict_at<'a>(input: &'a [u8], depth: usize) -> (r: Result<
    (&'a [u8], Vec<(&'a [u8], BEncodedType<'a>)>),
    ParseError<'a>,
>)
    ensures
        dict_outcome(r) == spec_dict(input@, depth as nat),
        r matches Ok((rest, _)) ==> rest@.len() < input@.len(),
    decreases depth, input@.len(), 1nat,
{
    if input.len() == 0 || input[0] != DICT_MARK {
        return Err(ParseError::Error(input, ErrorKind::Tag));
    }
    if depth == 0 {
        return Err(ParseError::Failure(input, ErrorKind::TooDeep));
    }
    let mut cur = slice_subrange(input, 1, input.len());
    let mut entries: Vec<(&'a [u8], BEncodedType<'a>)> = Vec::new();
    proof {
        assert(prepend(pairs_view(entries@), spec_entries(cur@, depth as nat)) == spec_entries(cur@, depth as nat)) by {
            if let Outcome::Done(vs, rr) = spec_entries(cur@, depth as nat) {
                assert(pairs_view(entries@) + vs =~= vs);
            }
        }
    }
    loop
        invariant
            depth > 0,
            cur@.len() < input@.len(),
            spec_dict(input@, depth as nat) == prepend(pairs_view(entries@), spec_entries(cur@, depth as nat)),
        decreases cur@.len(),
    {
        if cur.len() == 0 {
            return Err(ParseError::Failure(cur, ErrorKind::Eof));
        }
        if cur[0] == END_MARK {
            let rest = slice_subrange(cur, 1, cur.len());
            proof {
                assert(pairs_view(entries@) + seq![] =~= pairs_view(entries@));
            }
            return Ok((rest, entries));
        }
        let (after_key, key) = match parse_str(cur) {
            Ok(found) => found,
            Err(ParseError::Error(r, _)) => {
                return Err(ParseError::Failure(r, ErrorKind::Tag));
            },
            Err(e) => {
                return Err(e);
            },
        };
        match value_at(after_key, depth - 1) {
            Ok((rest, v)) => {
                proof {
                    lemma_prepend_twice(pairs_view(entries@), seq![(key@, v@)], spec_entries(rest@, depth as nat));
                    assert(pairs_view(entries@) + seq![(key@, v@)] =~= pairs_view(entries@.push((key, v))));
                }
                entries.push((key, v));
                cur = rest;
            },
            Err(ParseError::Error(r, k)) => {
                return Err(ParseError::Failure(r, k));
            },
            Err(e) => {
                return Err(e);
            },
        }
    }
}

/// Reads one value of any kind at the start of `input`; returns the rest of
/// the input and the value.
pub fn parse_primitive<'a>(input: &'a [u8]) -> (r: Result<(&'a [u8], BEncodedType<'a>), ParseError<'a>>)
    ensures
        value_outcome(r) == spec_value(input@, MAX_DEPTH as nat),
{
    value_at(input, MAX_DEPTH)
}

/// Reads a list `l<values>e` at the start of `input`; returns the rest of
/// the input and the items in order.
pub fn parse_list<'a>(input: &'a [u8]) -> (r: Result<(&'a [u8], Vec<BEncodedType<'a>>), ParseError<'a>>)
    ensures
        list_outcome(r) == spec_list(input@, MAX_DEPTH as nat),
{
    list_at(input, MAX_DEPTH)
}

/// Reads a dictionary `d<key><value>...e` at the start of `input`; returns
/// the rest of the input and the entries in the order in which they appear.
/// Key order is not checked.
pub fn parse_dictionary<'a>(input: &'a [u8]) -> (r: Result<
    (&'a [u8], Vec<(&'a [u8], BEncodedType<'a>)>),
    ParseError<'a>,
>)
    ensures
        dict_outcome(r) == spec_dict(input@, MAX_DEPTH as nat),
{
    dict_at(input, MAX_DEPTH)
}

/// Decodes the one value at the start of a buffer and hands back the bytes
/// after it; whether trailing bytes are acceptable is the caller's choice.
pub fn decode<'a>(buf: &'a [u8]) -> (r: Result<(BEncodedType<'a>, &'a [u8]), ParseError<'a>>)
    ensures
        match r {
            Ok((v, rest)) => spec_value(buf@, MAX_DEPTH as nat) == Outcome::Done(v@, rest@),
            Err(e) => spec_value(buf@, MAX_DEPTH as nat) == e.model::<BValue>(),
        },
{
    match value_at(buf, MAX_DEPTH) {
        Ok((rest, v)) => Ok((v, rest)),
        Err(e) => Err(e),
    }
}

} // verus!
