use vstd::prelude::*;
use vstd::string::*;
use crate::error::DnsError;
use crate::message::{
    header_bytes, question_bytes, read16, DnsHeader, DnsQuestion, QuestionView, CLASS_IN,
};
use crate::name::{labels_fit, split_labels};

verus! {

/// The flag bit that asks the server to recurse.
pub const RECURSION_DESIRED: u16 = 256;

/// Transaction ids are drawn from `0..ID_BOUND`.
pub const ID_BOUND: u16 = 65535;

/// The header of a query: the given id, recursion desired, one question.
pub open spec fn query_header(id: u16) -> DnsHeader {
    DnsHeader {
        id,
        flags: RECURSION_DESIRED,
        num_questions: 1,
        num_answers: 0,
        num_authorities: 0,
        num_additionals: 0,
    }
}

/// The wire form of a query for `name` (in text form) and `record_type`,
/// class IN, with transaction id `id`.
pub open spec fn query_bytes(name: Seq<u8>, record_type: u16, id: u16) -> Seq<u8> {
    header_bytes(query_header(id)) + question_bytes(
        QuestionView { name, type_: record_type, class: CLASS_IN },
    )
}

/// Relies on rand's `thread_rng().gen_range(0..65535)`: a value drawn from
/// the thread-local generator, within the half-open range.
#[verifier::external_body]
pub(crate) fn random_id() -> (r: u16)
    ensures
        r < ID_BOUND,
{
    rand::Rng::gen_range(&mut rand::thread_rng(), 0..ID_BOUND)
}

/// Builds the query for `name` (the bytes of its text form) and
/// `record_type` with the given transaction id. Fails when a label of the
/// name is longer than 63 bytes.
pub fn build_query_with_id(name: &[u8], record_type: u16, id: u16) -> (r: Result<
    Vec<u8>,
    DnsError,
>)
    ensures
        labels_fit(split_labels(name@)) ==> r is Ok && r->Ok_0@ == query_bytes(
            name@,
            record_type,
            id,
        ),
        !labels_fit(split_labels(name@)) ==> r == Err::<Vec<u8>, DnsError>(DnsError::FormatError),
{
    let header = DnsHeader {
        id,
        flags: RECURSION_DESIRED,
        num_questions: 1,
        num_answers: 0,
        num_authorities: 0,
        num_additionals: 0,
    };
    let mut name_bytes: Vec<u8> = Vec::new();
    crate::name::push_bytes(&mut name_bytes, name, 0, name.len());
    assert(name_bytes@ =~= name@);
    let question = DnsQuestion { name: name_bytes, type_: record_type, class: CLASS_IN };
    match question.to_bytes() {
        Ok(q) => {
            let mut query = header.to_bytes();
            let mut q = q;
            query.append(&mut q);
            assert(query@ =~= query_bytes(name@, record_type, id));
            Ok(query)
        },
        Err(e) => Err(e),
    }
}

/// Builds a query for `domain_name` and `record_type` with a fresh random
/// transaction id, which the first two bytes of the query hold.
pub fn build_query(domain_name: &str, record_type: u16) -> (r: Result<Vec<u8>, DnsError>)
    ensures
        labels_fit(split_labels(domain_name.spec_bytes())) ==> r is Ok && r->Ok_0@.len() >= 2
            && read16(r->Ok_0@, 0) < ID_BOUND && r->Ok_0@ == query_bytes(
            domain_name.spec_bytes(),
            record_type,
            read16(r->Ok_0@, 0),
        ),
        !labels_fit(split_labels(domain_name.spec_bytes())) ==> r == Err::<Vec<u8>, DnsError>(
            DnsError::FormatError,
        ),
{
    let bytes = domain_name.as_bytes_vec();
    let id = random_id();
    let r = build_query_with_id(bytes.as_slice(), record_type, id);
    proof {
        if r is Ok {
            crate::message::lemma_header_round_trip(query_header(id), question_bytes(
                QuestionView { name: bytes@, type_: record_type, class: CLASS_IN },
            ));
        }
    }
    r
}

} // verus!
