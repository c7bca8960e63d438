use crate::parser::{decode, Outcome, ParseError, MAX_DEPTH, spec_value};
use crate::value::{spec_get, spec_text, AccessError, BEncodedType, BValue};
use vstd::prelude::*;
use vstd::string::StringSliceAdditionalSpecFns;

verus! {

/// Why a torrent's metadata could not be read.
#[derive(Debug, PartialEq)]
pub enum MetadataError<'a> {
    /// The buffer does not start with a well-formed value.
    Parse(ParseError<'a>),
    /// The value lacks a field, or a field is of the wrong kind.
    Access(AccessError),
}

/// The conventional fields of a torrent file, borrowed from its buffer.
pub struct Metadata<'a> {
    /// The whole decoded tree.
    pub be: BEncodedType<'a>,
    pub announce: &'a str,
    pub name: &'a str,
}

/// The texts of `announce` and of `info.name` in a decoded torrent.
pub open spec fn spec_fields(v: BValue) -> Result<(Seq<u8>, Seq<u8>), AccessError> {
    match spec_get(v, "announce".spec_bytes()) {
        Err(e) => Err(e),
        Ok(a) => match spec_text(a) {
            Err(e) => Err(e),
            Ok(announce) => match spec_get(v, "info".spec_bytes()) {
                Err(e) => Err(e),
                Ok(info) => match spec_get(info, "name".spec_bytes()) {
                    Err(e) => Err(e),
                    Ok(n) => match spec_text(n) {
                        Err(e) => Err(e),
                        Ok(name) => Ok((announce, name)),
                    },
                },
            },
        },
    }
}

impl<'a> Metadata<'a> {
    /// Decodes a torrent file and picks out its announce URL and its name.
    pub fn parse(buf: &'a [u8]) -> (r: Result<Metadata<'a>, MetadataError<'a>>)
        ensures
            match r {
                Ok(m) => spec_value(buf@, MAX_DEPTH as nat) matches Outcome::Done(v, _) && m.be@ == v
                    && spec_fields(v) == Ok::<(Seq<u8>, Seq<u8>), AccessError>(
                    (m.announce.spec_bytes(), m.name.spec_bytes()),
                ),
                Err(MetadataError::Parse(e)) => spec_value(buf@, MAX_DEPTH as nat) == e.model::<BValue>(),
                Err(MetadataError::Access(e)) => spec_value(buf@, MAX_DEPTH as nat) matches Outcome::Done(
                    v,
                    _,
                ) && spec_fields(v) == Err::<(Seq<u8>, Seq<u8>), AccessError>(e),
            },
    {
        let be = match decode(buf) {
            Ok((v, _)) => v,
            Err(e) => {
                return Err(MetadataError::Parse(e));
            },
        };
        let announce = match be.dict_get("announce") {
            Ok(a) => match a.as_str() {
                Ok(t) => t,
                Err(e) => {
                    return Err(MetadataError::Access(e));
                },
            },
            Err(e) => {
                return Err(MetadataError::Access(e));
            },
        };
        let info = match be.dict_get("info") {
            Ok(i) => i,
            Err(e) => {
                return Err(MetadataError::Access(e));
            },
        };
        let name = match info.dict_get("name") {
            Ok(n) => match n.as_str() {
                Ok(t) => t,
                Err(e) => {
                    return Err(MetadataError::Access(e));
                },
            },
            Err(e) => {
                return Err(MetadataError::Access(e));
            },
        };
        Ok(Metadata { be, announce, name })
    }
}

} // verus!
