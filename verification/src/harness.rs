//! The deterministic execution harness: one evaluation run from policy text,
//! attribute text and a correlation identifier to a committed journal. The
//! pure pipeline is exposed twice: as an outcome value for the embedding that
//! must abort on rejection, and as a plain boolean pre-check.

use vstd::prelude::*;
use vstd::string::StringSliceAdditionalSpecFns;
use crate::tree::{PolicyDialect, PolicyParseError, SpecPolicy, sat, evaluate, lemma_sat_membership};
use crate::parser::{spec_parse, parse};
use crate::attrs::{MatchConvention, spec_extract, extract_attributes, lemma_dedup_seq_membership};
use crate::commit::CorrelationId;
use crate::scan::bytes_eq;

verus! {

/// The proving step failed or timed out: surfaced to callers as a distinct,
/// retryable class, never conflated with a policy rejection.
#[derive(Clone, Copy, PartialEq, Eq, Structural, Debug)]
pub struct ProofGenerationFailed;

/// The policy document could not be retrieved from the content-addressed
/// store.
#[derive(Clone, Copy, PartialEq, Eq, Structural, Debug)]
pub struct PolicyRetrievalFailed;

/// One evaluation request: the attribute document, the correlation
/// identifier, and the content identifier of the policy to fetch.
pub struct ProofRequest {
    pub attributes: String,
    pub token_id: CorrelationId,
    pub cid: String,
}

/// The answer to a satisfied request: the attestation bytes and the
/// identifier they commit to.
pub struct ProofResponse {
    pub seal: Vec<u8>,
    pub token_id: CorrelationId,
}

/// A rejected request: which collaborator failed. Retrieval and generation
/// failures are kept distinct from policy rejection, which never takes this
/// shape.
#[derive(Clone, Copy, PartialEq, Eq, Structural, Debug)]
pub enum ServiceRejection {
    Retrieval(PolicyRetrievalFailed),
    Generation(ProofGenerationFailed),
}

/// The outcome of one deterministic evaluation run. Rejection is an outcome
/// of its own, never an encodable journal: an execution that rejects commits
/// nothing.
pub enum EvaluationOutcome {
    /// The policy is satisfied; the journal holds the encoded identifier.
    Satisfied(Vec<u8>),
    /// The attributes do not satisfy the policy; nothing is committed.
    Rejected,
    /// The policy text was rejected before any evaluation.
    ParseFailure(PolicyParseError),
}

/// The attribute-matching convention each dialect pairs with: structured
/// policies name bare attributes; human policies name `name:value` pairs.
pub open spec fn convention_of(dialect: PolicyDialect) -> MatchConvention {
    match dialect {
        PolicyDialect::Json => MatchConvention::NameOnly,
        PolicyDialect::Human => MatchConvention::NameValue,
    }
}

/// The convention a dialect fixes, chosen once at parse time.
pub fn dialect_convention(dialect: PolicyDialect) -> (r: MatchConvention)
    ensures
        r == convention_of(dialect),
{
    match dialect {
        PolicyDialect::Json => MatchConvention::NameOnly,
        PolicyDialect::Human => MatchConvention::NameValue,
    }
}

/// One deterministic evaluation run: parse the policy, extract and
/// deduplicate the attributes under the dialect's convention, evaluate, and
/// on satisfaction commit the identifier's 32 big-endian bytes as the
/// journal. The verdict is stated over the document's attributes as written;
/// deduplication cannot change it.
pub fn run_evaluation(
    policy: &str,
    attrs_doc: &str,
    dialect: PolicyDialect,
    correlation: &CorrelationId,
) -> (r: EvaluationOutcome)
    ensures
        match r {
            EvaluationOutcome::Satisfied(j) => {
                &&& spec_parse(policy.spec_bytes(), dialect) matches Ok(t)
                &&& sat(t, spec_extract(attrs_doc.spec_bytes(), convention_of(dialect)))
                &&& j@ == correlation.spec_encode()
            },
            EvaluationOutcome::Rejected => {
                &&& spec_parse(policy.spec_bytes(), dialect) matches Ok(t)
                &&& !sat(t, spec_extract(attrs_doc.spec_bytes(), convention_of(dialect)))
            },
            EvaluationOutcome::ParseFailure(e) => spec_parse(policy.spec_bytes(), dialect)
                == Err::<SpecPolicy, PolicyParseError>(e),
        },
{
    match parse(policy, dialect) {
        Err(e) => EvaluationOutcome::ParseFailure(e),
        Ok(tree) => {
            let attrs = extract_attributes(attrs_doc, dialect_convention(dialect));
            proof {
                let e = spec_extract(attrs_doc.spec_bytes(), convention_of(dialect));
                assert forall|x: Seq<u8>| attrs.deep_view().contains(x) <==> e.contains(x) by {
                    lemma_dedup_seq_membership(e, x);
                }
                lemma_sat_membership(tree.view(), attrs.deep_view(), e);
            }
            if evaluate(&tree, &attrs) {
                EvaluationOutcome::Satisfied(correlation.to_be_bytes())
            } else {
                EvaluationOutcome::Rejected
            }
        },
    }
}

/// The cheap pre-check run outside the proving environment: the same
/// pipeline, returning the verdict as a boolean instead of aborting.
pub fn check_access(policy: &str, attrs_doc: &str, dialect: PolicyDialect) -> (r: Result<
    bool,
    PolicyParseError,
>)
    ensures
        match r {
            Ok(b) => {
                &&& spec_parse(policy.spec_bytes(), dialect) matches Ok(t)
                &&& b == sat(t, spec_extract(attrs_doc.spec_bytes(), convention_of(dialect)))
            },
            Err(e) => spec_parse(policy.spec_bytes(), dialect) == Err::<
                SpecPolicy,
                PolicyParseError,
            >(e),
        },
{
    match parse(policy, dialect) {
        Err(e) => Err(e),
        Ok(tree) => {
            let attrs = extract_attributes(attrs_doc, dialect_convention(dialect));
            proof {
                let e = spec_extract(attrs_doc.spec_bytes(), convention_of(dialect));
                assert forall|x: Seq<u8>| attrs.deep_view().contains(x) <==> e.contains(x) by {
                    lemma_dedup_seq_membership(e, x);
                }
                lemma_sat_membership(tree.view(), attrs.deep_view(), e);
            }
            Ok(evaluate(&tree, &attrs))
        },
    }
}

/// The request handler's decisions around its collaborators, kept apart from
/// the I/O that feeds them: a missing policy document is a retrieval
/// failure; a missing attestation (a proving error or a timeout) is a
/// generation failure; an attestation answers the request with its seal and
/// the identifier it commits to.
pub fn settle_request(request: &ProofRequest, policy: Option<String>, seal: Option<Vec<u8>>) -> (r:
    Result<ProofResponse, ServiceRejection>)
    ensures
        match r {
            Ok(resp) => {
                &&& policy is Some
                &&& seal matches Some(s) && resp.seal == s
                &&& resp.token_id == request.token_id
            },
            Err(ServiceRejection::Retrieval(_)) => policy is None,
            Err(ServiceRejection::Generation(_)) => policy is Some && seal is None,
        },
{
    match policy {
        None => Err(ServiceRejection::Retrieval(PolicyRetrievalFailed)),
        Some(_text) => {
            match seal {
                None => Err(ServiceRejection::Generation(ProofGenerationFailed)),
                Some(s) => Ok(ProofResponse { seal: s, token_id: request.token_id }),
            }
        },
    }
}

/// Whether a committed journal carries exactly the expected identifier: the
/// check a caller makes before trusting a returned attestation.
pub fn journal_matches(journal: &Vec<u8>, expected: &CorrelationId) -> (r: bool)
    ensures
        r == (journal@ == expected.spec_encode()),
{
    let enc = expected.to_be_bytes();
    bytes_eq(journal, &enc)
}

} // verus!
