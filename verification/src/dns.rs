//! The decision rules of the DNS stub.
//!
//! The stub serves only standard queries with exactly one question; it
//! answers an AAAA question for an encodable name with one AAAA record
//! carrying the synthetic address, answers any other type with success and no
//! records, and translates an encoder failure to NXDOMAIN. Framing — parsing
//! the request and serializing the response — is the caller's affair.

use vstd::prelude::*;
use crate::codec::CodecError;

verus! {

/// The record type number of an AAAA question.
pub const QTYPE_AAAA: u16 = 28;

/// The time to live, in seconds, of the one answer the stub gives.
pub const DNS_ANSWER_TTL: u32 = 15;

/// What the stub answers.
#[derive(Debug, Clone, PartialEq, Eq)]
pub enum DnsAction {
    /// The request is not a standard query with exactly one question.
    Refuse,
    /// The question name does not encode.
    NxDomain,
    /// Success, with one AAAA answer carrying these 16 bytes at
    /// `DNS_ANSWER_TTL`.
    Answer(Vec<u8>),
    /// Success with no answer: the name has no record of the asked type.
    NoAnswer,
}

/// Whether the request shape is served at all: a standard query with exactly
/// one question.
pub fn dns_shape_accepted(is_query: bool, n_questions: u16) -> (r: bool)
    ensures
        r == (is_query && n_questions == 1),
{
    is_query && n_questions == 1
}

/// The response to a request, given the outcome of encoding its question
/// name: a malformed shape is refused; an encoder failure is NXDOMAIN; a
/// success carries one AAAA answer for an AAAA question and no answer for any
/// other question type.
pub fn resolve_dns_request(
    is_query: bool,
    n_questions: u16,
    qtype: u16,
    enc: Result<Vec<u8>, CodecError>,
) -> (r: DnsAction)
    ensures
        !(is_query && n_questions == 1) ==> r == DnsAction::Refuse,
        (is_query && n_questions == 1) ==> match enc {
            Err(_) => r == DnsAction::NxDomain,
            Ok(v) => if qtype == QTYPE_AAAA {
                r == DnsAction::Answer(v)
            } else {
                r == DnsAction::NoAnswer
            },
        },
{
    if !dns_shape_accepted(is_query, n_questions) {
        return DnsAction::Refuse;
    }
    match enc {
        Err(_) => DnsAction::NxDomain,
        Ok(v) => {
            if qtype == QTYPE_AAAA {
                DnsAction::Answer(v)
            } else {
                DnsAction::NoAnswer
            }
        },
    }
}

} // verus!
