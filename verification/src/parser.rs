//! The public face of the policy parser: dialect selection and parsing of a
//! policy text into a tree.

use vstd::prelude::*;
use vstd::string::StrSliceExecFns;
use vstd::string::StringSliceAdditionalSpecFns;
use crate::scan::is_ws;
use crate::tree::{PolicyDialect, PolicyParseError, SpecPolicy, PolicyTree};
use crate::human::{spec_parse_human, parse_human_bytes};
use crate::json::{spec_parse_json, parse_json_bytes};

verus! {

/// The tree a policy text denotes under the given dialect, or the error it
/// earns.
pub open spec fn spec_parse(v: Seq<u8>, dialect: PolicyDialect) -> Result<
    SpecPolicy,
    PolicyParseError,
> {
    match dialect {
        PolicyDialect::Json => spec_parse_json(v),
        PolicyDialect::Human => spec_parse_human(v),
    }
}

/// The UTF-8 byte length of one leading Unicode white-space character at
/// `pos`, or zero: the characters `char::is_whitespace` answers for, as the
/// detector must trim exactly what a caller's trimming would.
pub open spec fn uws_len_at(v: Seq<u8>, pos: int) -> nat {
    if 0 <= pos < v.len() && (is_ws(v[pos]) || v[pos] == 0x0b || v[pos] == 0x0c) {
        1
    } else if 0 <= pos && pos + 2 <= v.len() && v[pos] == 0xc2 && (v[pos + 1] == 0x85 || v[pos + 1]
        == 0xa0) {
        2
    } else if 0 <= pos && pos + 3 <= v.len() && is_uws3(v[pos], v[pos + 1], v[pos + 2]) {
        3
    } else {
        0
    }
}

/// The three-byte UTF-8 white-space characters: the Ogham space mark, the
/// typographic spaces, the line and paragraph separators, the narrow and
/// medium spaces, and the ideographic space.
pub open spec fn is_uws3(b0: u8, b1: u8, b2: u8) -> bool {
    (b0 == 0xe1 && b1 == 0x9a && b2 == 0x80) || (b0 == 0xe2 && b1 == 0x80 && (0x80 <= b2 <= 0x8a
        || b2 == 0xa8 || b2 == 0xa9 || b2 == 0xaf)) || (b0 == 0xe2 && b1 == 0x81 && b2 == 0x9f) || (
    b0 == 0xe3 && b1 == 0x80 && b2 == 0x80)
}

/// First position at or after `pos` that does not open a white-space
/// character.
pub open spec fn skip_uws(v: Seq<u8>, pos: int) -> int
    decreases v.len() - pos,
{
    let l = uws_len_at(v, pos);
    if l > 0 {
        skip_uws(v, pos + l)
    } else {
        pos
    }
}

/// The dialect the text looks like: structured when its first character past
/// leading Unicode whitespace is `{`, human otherwise.
pub open spec fn spec_dialect_of(v: Seq<u8>) -> PolicyDialect {
    if skip_uws(v, 0) < v.len() && v[skip_uws(v, 0)] == 0x7b {
        PolicyDialect::Json
    } else {
        PolicyDialect::Human
    }
}

/// The byte length of one leading white-space character, or zero.
fn uws_len_at_e(v: &Vec<u8>, pos: usize) -> (r: usize)
    requires
        pos <= v.len(),
    ensures
        r as nat == uws_len_at(v@, pos as int),
        pos + r <= v.len(),
{
    if pos < v.len() && (v[pos] == 0x20 || v[pos] == 0x09 || v[pos] == 0x0a || v[pos] == 0x0d
        || v[pos] == 0x0b || v[pos] == 0x0c) {
        1
    } else if v.len() - pos >= 2 && v[pos] == 0xc2 && (v[pos + 1] == 0x85 || v[pos + 1] == 0xa0) {
        2
    } else if v.len() - pos >= 3 && (v[pos] == 0xe1 && v[pos + 1] == 0x9a && v[pos + 2] == 0x80
        || v[pos] == 0xe2 && v[pos + 1] == 0x80 && (0x80 <= v[pos + 2] && v[pos + 2] <= 0x8a || v[
        pos + 2] == 0xa8 || v[pos + 2] == 0xa9 || v[pos + 2] == 0xaf) || v[pos] == 0xe2 && v[pos
        + 1] == 0x81 && v[pos + 2] == 0x9f || v[pos] == 0xe3 && v[pos + 1] == 0x80 && v[pos + 2]
        == 0x80) {
        3
    } else {
        0
    }
}

/// Advances past leading white-space characters.
fn skip_uws_e(v: &Vec<u8>, pos: usize) -> (r: usize)
    requires
        pos <= v.len(),
    ensures
        r as int == skip_uws(v@, pos as int),
        pos <= r <= v.len(),
{
    let mut i = pos;
    let mut l = uws_len_at_e(v, i);
    while l > 0
        invariant
            pos <= i <= v.len(),
            i + l <= v.len(),
            l as nat == uws_len_at(v@, i as int),
            skip_uws(v@, pos as int) == skip_uws(v@, i as int),
        decreases v.len() - i,
    {
        i = i + l;
        l = uws_len_at_e(v, i);
    }
    i
}

/// Parses a policy text under an explicitly chosen dialect.
pub fn parse(policy: &str, dialect: PolicyDialect) -> (r: Result<PolicyTree, PolicyParseError>)
    ensures
        match r {
            Ok(t) => spec_parse(policy.spec_bytes(), dialect) == Ok::<
                SpecPolicy,
                PolicyParseError,
            >(t.view()),
            Err(e) => spec_parse(policy.spec_bytes(), dialect) == Err::<
                SpecPolicy,
                PolicyParseError,
            >(e),
        },
{
    let v = policy.as_bytes_vec();
    match dialect {
        PolicyDialect::Json => parse_json_bytes(&v),
        PolicyDialect::Human => parse_human_bytes(&v),
    }
}

/// Guesses the dialect of a policy text; an explicit dialect argument to
/// [`parse`] overrides the guess.
pub fn determine_policy_type(policy: &str) -> (r: PolicyDialect)
    ensures
        r == spec_dialect_of(policy.spec_bytes()),
{
    let v = policy.as_bytes_vec();
    let p = skip_uws_e(&v, 0);
    if p < v.len() && v[p] == 0x7b {
        PolicyDialect::Json
    } else {
        PolicyDialect::Human
    }
}

} // verus!
