use crate::parser::{
    decimal, digit_run, is_digit, spec_int, spec_str, spec_value, ErrorKind, Outcome, COLON,
    END_MARK, INT_MARK, MAX_DEPTH, MINUS, ZERO,
};
use crate::value::{key_set, spec_get, type_label, AccessError, BValue};
use vstd::prelude::*;

verus! {

/// The canonical decimal form of `n`: no leading zero, except for `0` itself.
pub open spec fn digits_of(n: nat) -> Seq<u8>
    decreases n,
{
    if n < 10 {
        seq![(n + 48) as u8]
    } else {
        digits_of(n / 10).push((n % 10 + 48) as u8)
    }
}

proof fn lemma_digits_of(n: nat)
    ensures
        digits_of(n).len() >= 1,
        forall|i: int| 0 <= i < digits_of(n).len() ==> is_digit(#[trigger] digits_of(n)[i]),
        decimal(digits_of(n)) == n,
        digits_of(n)[0] == ZERO <==> n == 0,
        n == 0 ==> digits_of(n).len() == 1,
    decreases n,
{
    let d = digits_of(n);
    if n < 10 {
        assert(d.drop_last() =~= Seq::<u8>::empty());
        assert(d.last() as int == n + 48);
        assert(decimal(d.drop_last()) == 0);
        assert(decimal(d) == 10 * decimal(d.drop_last()) + (d.last() - ZERO));
    } else {
        lemma_digits_of(n / 10);
        assert(d.drop_last() =~= digits_of(n / 10));
        assert(d.last() as int == n % 10 + 48);
        assert(10 * (n / 10) + n % 10 == n);
        assert(decimal(d) == 10 * decimal(d.drop_last()) + (d.last() - ZERO));
    }
}

/// Where `d` is a run of digits and `s` goes on with a byte that is no digit,
/// the run at the start of `s` is exactly `d`.
proof fn lemma_run_prefix(d: Seq<u8>, s: Seq<u8>)
    requires
        d.len() < s.len(),
        d =~= s.subrange(0, d.len() as int),
        forall|i: int| 0 <= i < d.len() ==> is_digit(#[trigger] d[i]),
        !is_digit(s[d.len() as int]),
    ensures
        digit_run(s) == d.len(),
{
    assert forall|i: int| 0 <= i < d.len() implies is_digit(#[trigger] s[i]) by {
        assert(s[i] == d[i]);
    }
    crate::parser::lemma_digit_run(s, d.len() as int);
}

/// Decoding `i<n>e`, with `n` in canonical decimal form, gives the integer `n`.
pub proof fn lemma_decode_nonnegative(n: nat)
    requires
        n <= i64::MAX,
    ensures
        spec_value(seq![INT_MARK] + digits_of(n) + seq![END_MARK], MAX_DEPTH as nat)
            == Outcome::Done(BValue::Int(n as int), Seq::<u8>::empty()),
{
    let d = digits_of(n);
    let s = seq![INT_MARK] + d + seq![END_MARK];
    lemma_digits_of(n);
    let u = s.subrange(1, s.len() as int);
    assert(u =~= d + seq![END_MARK]);
    assert(u[0] == d[0]);
    lemma_run_prefix(d, u);
    assert(u.subrange(0, d.len() as int) =~= d);
    let w = u.subrange(d.len() as int, u.len() as int);
    assert(w =~= seq![END_MARK]);
    assert(w.subrange(1, w.len() as int) =~= Seq::<u8>::empty());
    assert(spec_int(s) == Outcome::Done(n as int, Seq::<u8>::empty()));
}

/// Decoding `i-<n>e`, with `n > 0` in canonical decimal form, gives `-n`.
pub proof fn lemma_decode_negative(n: nat)
    requires
        0 < n <= 9223372036854775808,
    ensures
        spec_value(seq![INT_MARK, MINUS] + digits_of(n) + seq![END_MARK], MAX_DEPTH as nat)
            == Outcome::Done(BValue::Int(-n), Seq::<u8>::empty()),
{
    let d = digits_of(n);
    let s = seq![INT_MARK, MINUS] + d + seq![END_MARK];
    lemma_digits_of(n);
    let t = s.subrange(1, s.len() as int);
    let u = t.subrange(1, t.len() as int);
    assert(u =~= d + seq![END_MARK]);
    assert(u[0] == d[0]);
    lemma_run_prefix(d, u);
    assert(u.subrange(0, d.len() as int) =~= d);
    let w = u.subrange(d.len() as int, u.len() as int);
    assert(w =~= seq![END_MARK]);
    assert(w.subrange(1, w.len() as int) =~= Seq::<u8>::empty());
    assert(spec_int(s) == Outcome::Done(-n, Seq::<u8>::empty()));
}

/// A zero with more digits after it, and a negative zero with or without
/// more digits, are malformed integers: decoding fails hard.
pub proof fn lemma_zero_padding_rejected(ds: Seq<u8>)
    requires
        forall|i: int| 0 <= i < ds.len() ==> is_digit(#[trigger] ds[i]),
    ensures
        ds.len() > 0 ==> spec_value(seq![INT_MARK, ZERO] + ds + seq![END_MARK], MAX_DEPTH as nat) matches Outcome::Hard(_, ErrorKind::OneOf),
        spec_value(seq![INT_MARK, MINUS, ZERO] + ds + seq![END_MARK], MAX_DEPTH as nat) matches Outcome::Hard(_, ErrorKind::OneOf),
{
    let z = seq![ZERO] + ds;
    assert forall|i: int| 0 <= i < z.len() implies is_digit(#[trigger] z[i]) by {
        if i > 0 {
            assert(z[i] == ds[i - 1]);
        }
    }
    let s1 = seq![INT_MARK, ZERO] + ds + seq![END_MARK];
    let u1 = s1.subrange(1, s1.len() as int);
    assert(u1 =~= z + seq![END_MARK]);
    assert(u1[0] == z[0]);
    lemma_run_prefix(z, u1);
    let s2 = seq![INT_MARK, MINUS, ZERO] + ds + seq![END_MARK];
    let t2 = s2.subrange(1, s2.len() as int);
    let u2 = t2.subrange(1, t2.len() as int);
    assert(u2 =~= z + seq![END_MARK]);
    assert(u2[0] == z[0]);
    lemma_run_prefix(z, u2);
}

/// Decoding `<L>:<s>` followed by anything gives the byte string `s` of
/// length `L`, and leaves what follows as the rest.
pub proof fn lemma_decode_byte_string(s: Seq<u8>, tail: Seq<u8>)
    ensures
        spec_value(digits_of(s.len()) + seq![COLON] + s + tail, MAX_DEPTH as nat)
            == Outcome::Done(BValue::Bytes(s), tail),
{
    let d = digits_of(s.len());
    let x = d + seq![COLON] + s + tail;
    lemma_digits_of(s.len());
    assert(x[0] == d[0]);
    assert(x[d.len() as int] == COLON);
    lemma_run_prefix(d, x);
    assert(x.subrange(0, d.len() as int) =~= d);
    let rest = x.subrange(d.len() as int + 1, x.len() as int);
    assert(rest =~= s + tail);
    assert(rest.subrange(0, s.len() as int) =~= s);
    assert(rest.subrange(s.len() as int, rest.len() as int) =~= tail);
    assert(spec_str(x) == Outcome::Done(s, tail));
}

/// Decoding `<L>:` followed by fewer than `L` bytes fails hard.
pub proof fn lemma_short_byte_string(len: nat, t: Seq<u8>)
    requires
        t.len() < len,
    ensures
        spec_value(digits_of(len) + seq![COLON] + t, MAX_DEPTH as nat) == Outcome::<BValue>::Hard(t, ErrorKind::Eof),
{
    let d = digits_of(len);
    let x = d + seq![COLON] + t;
    lemma_digits_of(len);
    assert(x[0] == d[0]);
    assert(x[d.len() as int] == COLON);
    lemma_run_prefix(d, x);
    assert(x.subrange(0, d.len() as int) =~= d);
    assert(x.subrange(d.len() as int + 1, x.len() as int) =~= t);
}

/// Whatever decodes successfully has the kind that its lead byte announces,
/// and so the matching label.
pub proof fn lemma_label_follows_lead(s: Seq<u8>, depth: nat)
    ensures
        spec_value(s, depth) matches Outcome::Done(v, _) ==> {
            &&& is_digit(s[0]) ==> type_label(v) == "string"@
            &&& s[0] == INT_MARK ==> type_label(v) == "integer"@
            &&& s[0] == crate::parser::LIST_MARK ==> type_label(v) == "list"@
            &&& s[0] == crate::parser::DICT_MARK ==> type_label(v) == "dictionary"@
        },
{
}

/// Lookup in a dictionary finds the value of the last entry under the key
/// when the key is present, reports a missing key otherwise, and reports a
/// kind mismatch on any other kind of value.
pub proof fn lemma_dict_get(v: BValue, k: Seq<u8>)
    ensures
        v matches BValue::Dict(ps) ==> (key_set(ps).contains(k) <==> spec_get(v, k) is Ok),
        v matches BValue::Dict(ps) ==> (spec_get(v, k) matches Ok(x) ==> exists|i: int|
            0 <= i < ps.len() && ps[i] == (k, x) && forall|j: int| i < j < ps.len() ==> ps[j].0 != k),
        v matches BValue::Dict(ps) ==> (!key_set(ps).contains(k) ==> spec_get(v, k) == Err::<BValue, AccessError>(AccessError::KeyNotFound)),
        !(v is Dict) ==> spec_get(v, k) == Err::<BValue, AccessError>(AccessError::TypeMismatch),
{
    if let BValue::Dict(ps) = v {
        lemma_lookup(ps, k);
    }
}

proof fn lemma_lookup(ps: Seq<(Seq<u8>, BValue)>, k: Seq<u8>)
    ensures
        key_set(ps).contains(k) <==> crate::value::lookup(ps, k) is Some,
        crate::value::lookup(ps, k) matches Some(x) ==> exists|i: int|
            0 <= i < ps.len() && ps[i] == (k, x) && forall|j: int| i < j < ps.len() ==> ps[j].0 != k,
    decreases ps.len(),
{
    if ps.len() > 0 {
        let init = ps.drop_last();
        lemma_lookup(init, k);
        if ps.last().0 == k {
            assert(ps[ps.len() - 1].0 == k);
            assert(key_set(ps).contains(k));
        } else {
            if key_set(ps).contains(k) {
                let i = choose|i: int| 0 <= i < ps.len() && #[trigger] ps[i].0 == k;
                assert(init[i].0 == k);
            }
            if key_set(init).contains(k) {
                let i = choose|i: int| 0 <= i < init.len() && #[trigger] init[i].0 == k;
                assert(ps[i].0 == k);
            }
            if let Some(x) = crate::value::lookup(init, k) {
                let i = choose|i: int|
                    0 <= i < init.len() && init[i] == (k, x) && forall|j: int| i < j < init.len() ==> init[j].0 != k;
                assert(ps[i] == (k, x));
                assert forall|j: int| i < j < ps.len() implies ps[j].0 != k by {
                    if j < init.len() {
                        assert(init[j] == ps[j]);
                    }
                }
            }
        }
    }
}

} // verus!
