use vstd::prelude::*;
use vstd::string::StringSliceAdditionalSpecFns;
use vstd::utf8::valid_utf8;

verus! {

/// Mathematical model of a decoded value.
pub enum BValue {
    Bytes(Seq<u8>),
    Int(int),
    List(Seq<BValue>),
    /// Key/value pairs in the order in which they were read.
    Dict(Seq<(Seq<u8>, BValue)>),
}

/// A decoded value whose byte strings borrow from the input buffer.
#[derive(Debug, PartialEq)]
pub enum BEncodedType<'a> {
    String(&'a [u8]),
    Integer(i64),
    List(Vec<BEncodedType<'a>>),
    Dictionary(Vec<(&'a [u8], BEncodedType<'a>)>),
}

/// Why an accessor could not give what was asked.
#[derive(Debug, PartialEq, Eq, Clone, Copy)]
pub enum AccessError {
    /// The value is of another kind than the accessor needs.
    TypeMismatch,
    /// The dictionary has no entry under the key.
    KeyNotFound,
    /// The byte string is not valid UTF-8.
    InvalidText,
}

/// The value stored under `k`; where a key was repeated, the last entry wins.
pub open spec fn lookup(ps: Seq<(Seq<u8>, BValue)>, k: Seq<u8>) -> Option<BValue>
    decreases ps.len(),
{
    if ps.len() == 0 {
        None
    } else if ps.last().0 == k {
        Some(ps.last().1)
    } else {
        lookup(ps.drop_last(), k)
    }
}

/// The keys that occur in a sequence of entries.
pub open spec fn key_set(ps: Seq<(Seq<u8>, BValue)>) -> Set<Seq<u8>> {
    Set::new(|k: Seq<u8>| exists|i: int| 0 <= i < ps.len() && #[trigger] ps[i].0 == k)
}

/// What `dict_get` gives for a value and a key.
pub open spec fn spec_get(v: BValue, k: Seq<u8>) -> Result<BValue, AccessError> {
    match v {
        BValue::Dict(ps) => match lookup(ps, k) {
            Some(x) => Ok(x),
            None => Err(AccessError::KeyNotFound),
        },
        _ => Err(AccessError::TypeMismatch),
    }
}

/// What `as_str` gives for a value: the bytes of the text, or why not.
pub open spec fn spec_text(v: BValue) -> Result<Seq<u8>, AccessError> {
    match v {
        BValue::Bytes(b) => if valid_utf8(b) {
            Ok(b)
        } else {
            Err(AccessError::InvalidText)
        },
        _ => Err(AccessError::TypeMismatch),
    }
}

/// The label that names a value's kind.
pub open spec fn type_label(v: BValue) -> Seq<char> {
    match v {
        BValue::Bytes(_) => "string"@,
        BValue::Int(_) => "integer"@,
        BValue::List(_) => "list"@,
        BValue::Dict(_) => "dictionary"@,
    }
}

/// Relies on std::str::from_utf8: it accepts exactly the valid UTF-8 byte
/// slices and returns a str over the same bytes.
#[verifier::external_body]
fn utf8_text<'a>(b: &'a [u8]) -> (r: Option<&'a str>)
    ensures
        r is Some <==> valid_utf8(b@),
        r matches Some(s) ==> s.spec_bytes() == b@,
{
    std::str::from_utf8(b).ok()
}

/// Byte-wise equality of two slices.
fn bytes_eq(a: &[u8], b: &[u8]) -> (r: bool)
    ensures
        r == (a@ == b@),
{
    if a.len() != b.len() {
        return false;
    }
    let mut i: usize = 0;
    while i < a.len()
        invariant
            a@.len() == b@.len(),
            i <= a@.len(),
            forall|k: int| 0 <= k < i ==> a@[k] == b@[k],
        decreases a.len() - i,
    {
        if a[i] != b[i] {
            return false;
        }
        i = i + 1;
    }
    assert(a@ =~= b@);
    true
}

impl<'a> BEncodedType<'a> {
    pub open spec fn view(&self) -> BValue
        decreases self,
    {
        match self {
            BEncodedType::String(b) => BValue::Bytes(b@),
            BEncodedType::Integer(i) => BValue::Int(*i as int),
            BEncodedType::List(v) => BValue::List(
                Seq::new(v.len() as nat, |i: int| if 0 <= i < v.len() { v[i].view() } else { BValue::Int(0) }),
            ),
            BEncodedType::Dictionary(v) => BValue::Dict(
                Seq::new(v.len() as nat, |i: int| if 0 <= i < v.len() { (v[i].0@, v[i].1.view()) } else { (Seq::empty(), BValue::Int(0)) }),
            ),
        }
    }

    /// Names the kind of the value: "string", "integer", "list" or "dictionary".
    pub fn type_str(&self) -> (r: &'static str)
        ensures
            r@ == type_label(self@),
    {
        proof {
            reveal_strlit("string");
            reveal_strlit("integer");
            reveal_strlit("list");
            reveal_strlit("dictionary");
        }
        match self {
            BEncodedType::String(_) => "string",
            BEncodedType::Integer(_) => "integer",
            BEncodedType::List(_) => "list",
            BEncodedType::Dictionary(_) => "dictionary",
        }
    }

    /// The value stored under `key` in a dictionary.
    pub fn dict_get<'b>(&'b self, key: &str) -> (r: Result<&'b BEncodedType<'a>, AccessError>)
        ensures
            match r {
                Ok(x) => spec_get(self@, key.spec_bytes()) == Ok::<BValue, AccessError>(x@),
                Err(e) => spec_get(self@, key.spec_bytes()) == Err::<BValue, AccessError>(e),
            },
    {
        match self {
            BEncodedType::Dictionary(entries) => {
                let ghost ps = pairs_view(entries@);
                assert(self@ == BValue::Dict(ps)) by {
                    assert(ps =~= match self@ {
                        BValue::Dict(w) => w,
                        _ => ps,
                    });
                }
                let k = key.as_bytes();
                let mut i: usize = entries.len();
                assert(ps.subrange(0, i as int) =~= ps);
                while i > 0
                    invariant
                        i <= entries@.len(),
                        ps == pairs_view(entries@),
                        k@ == key.spec_bytes(),
                        self@ == BValue::Dict(ps),
                        lookup(ps, k@) == lookup(ps.subrange(0, i as int), k@),
                    decreases i,
                {
                    let ghost front = ps.subrange(0, i as int);
                    assert(front.drop_last() =~= ps.subrange(0, i - 1));
                    assert(front.last() == ps[i - 1]);
                    assert(ps[i - 1] == (entries@[i - 1].0@, entries@[i - 1].1@));
                    if bytes_eq(entries[i - 1].0, k) {
                        assert(lookup(front, k@) == Some(ps[i - 1].1));
                        assert(k@ == key.spec_bytes());
                        return Ok(&entries[i - 1].1);
                    }
                    i = i - 1;
                }
                Err(AccessError::KeyNotFound)
            },
            _ => Err(AccessError::TypeMismatch),
        }
    }

    /// The keys of a dictionary, each once.
    pub fn dict_keys(&self) -> (r: Result<Vec<&'a [u8]>, AccessError>)
        ensures
            match self@ {
                BValue::Dict(ps) => r matches Ok(ks) && ({
                    let kv = Seq::new(ks@.len(), |i: int| ks@[i]@);
                    kv.no_duplicates() && kv.to_set() == key_set(ps)
                }),
                _ => r == Err::<Vec<&'a [u8]>, AccessError>(AccessError::TypeMismatch),
            },
    {
        match self {
            BEncodedType::Dictionary(entries) => {
                let ghost ps = pairs_view(entries@);
                assert(self@ == BValue::Dict(ps)) by {
                    assert(ps =~= match self@ {
                        BValue::Dict(w) => w,
                        _ => ps,
                    });
                }
                let mut ks: Vec<&'a [u8]> = Vec::new();
                let mut i: usize = 0;
                while i < entries.len()
                    invariant
                        i <= entries@.len(),
                        ps == pairs_view(entries@),
                        Seq::new(ks@.len(), |j: int| ks@[j]@).no_duplicates(),
                        Seq::new(ks@.len(), |j: int| ks@[j]@).to_set() == key_set(ps.subrange(0, i as int)),
                    decreases entries.len() - i,
                {
                    let key = entries[i].0;
                    let mut seen = false;
                    let mut j: usize = 0;
                    while j < ks.len()
                        invariant
                            j <= ks@.len(),
                            seen <==> exists|m: int| 0 <= m < j && ks@[m]@ == key@,
                        decreases ks.len() - j,
                    {
                        if bytes_eq(ks[j], key) {
                            seen = true;
                        }
                        j = j + 1;
                    }
                    let ghost old_kv = Seq::new(ks@.len(), |m: int| ks@[m]@);
                    proof {
                        let next = ps.subrange(0, i + 1);
                        assert(next.drop_last() =~= ps.subrange(0, i as int));
                        assert(next[i as int].0 == key@);
                        if seen {
                            let m = choose|m: int| 0 <= m < ks@.len() && ks@[m]@ == key@;
                            assert(old_kv[m] == key@);
                        }
                    }
                    if !seen {
                        ks.push(key);
                    }
                    proof {
                        let next = ps.subrange(0, i + 1);
                        let prev = ps.subrange(0, i as int);
                        let kv = Seq::new(ks@.len(), |m: int| ks@[m]@);
                        if !seen {
                            assert(kv =~= old_kv.push(key@));
                        } else {
                            assert(kv =~= old_kv);
                        }
                        assert(kv.to_set() =~= key_set(next)) by {
                            assert forall|x: Seq<u8>| key_set(next).contains(x) implies kv.to_set().contains(x) by {
                                let w = choose|w: int| 0 <= w < next.len() && #[trigger] next[w].0 == x;
                                if w < i {
                                    assert(prev[w].0 == x);
                                    assert(key_set(prev).contains(x));
                                    assert(old_kv.to_set().contains(x));
                                    let m = choose|m: int| 0 <= m < old_kv.len() && old_kv[m] == x;
                                    assert(kv[m] == x);
                                } else if !seen {
                                    assert(kv[kv.len() - 1] == x);
                                } else {
                                    let m = choose|m: int| 0 <= m < ks@.len() && ks@[m]@ == key@;
                                    assert(kv[m] == x);
                                }
                            }
                            assert forall|x: Seq<u8>| kv.to_set().contains(x) implies key_set(next).contains(x) by {
                                let m = choose|m: int| 0 <= m < kv.len() && kv[m] == x;
                                if m < old_kv.len() {
                                    assert(old_kv[m] == x);
                                    assert(old_kv.to_set().contains(x));
                                    assert(key_set(prev).contains(x));
                                    let w = choose|w: int| 0 <= w < prev.len() && #[trigger] prev[w].0 == x;
                                    assert(next[w].0 == x);
                                } else {
                                    assert(next[i as int].0 == x);
                                }
                            }
                        }
                        if !seen {
                            assert forall|a: int, b: int| 0 <= a < b < kv.len() implies kv[a] != kv[b] by {
                                if b == kv.len() - 1 {
                                    assert(old_kv[a] == ks@[a]@);
                                }
                            }
                        }
                    }
                    i = i + 1;
                }
                proof {
                    assert(ps.subrange(0, entries@.len() as int) =~= ps);
                }
                Ok(ks)
            },
            _ => Err(AccessError::TypeMismatch),
        }
    }

    /// The text of a byte string, where it is valid UTF-8.
    pub fn as_str(&self) -> (r: Result<&'a str, AccessError>)
        ensures
            match r {
                Ok(s) => spec_text(self@) == Ok::<Seq<u8>, AccessError>(s.spec_bytes()),
                Err(e) => spec_text(self@) == Err::<Seq<u8>, AccessError>(e),
            },
    {
        match self {
            BEncodedType::String(b) => match utf8_text(b) {
                Some(s) => Ok(s),
                None => Err(AccessError::InvalidText),
            },
            _ => Err(AccessError::TypeMismatch),
        }
    }
}

/// The models of a sequence of values.
pub open spec fn seq_view<'a>(v: Seq<BEncodedType<'a>>) -> Seq<BValue> {
    Seq::new(v.len(), |i: int| v[i]@)
}

/// The models of a sequence of key/value pairs.
pub open spec fn pairs_view<'a>(v: Seq<(&'a [u8], BEncodedType<'a>)>) -> Seq<(Seq<u8>, BValue)> {
    Seq::new(v.len(), |i: int| (v[i].0@, v[i].1@))
}

} // verus!
