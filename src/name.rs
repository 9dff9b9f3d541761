//! Domain name text, as parsed and printed by the DNS library.

use trust_dns_resolver::Name;
use vstd::prelude::*;
use vstd::utf8::*;

verus! {

#[verifier::external_type_specification]
#[verifier::external_body]
pub struct ExName(Name);

/// Whether the DNS library's relaxed parser accepts the text.
pub uninterp spec fn name_parses(s: Seq<char>) -> bool;

/// The lowercase ASCII text form of the name parsed from `s`, as bytes.
pub uninterp spec fn lower_ascii_form(s: Seq<char>) -> Seq<u8>;

/// Relies on `Name::from_str_relaxed`: the name parsed from `s`, if it parses.
#[verifier::external_body]
pub(crate) fn parse_relaxed(s: &str) -> (r: Option<Name>)
    ensures
        r is Some <==> name_parses(s@),
{
    Name::from_str_relaxed(s).ok()
}

/// The number of labels of the name parsed from `s`, a leading `*` not counted.
pub uninterp spec fn label_count(s: Seq<char>) -> u8;

/// Relies on `Name::from_str_relaxed` for whether `s` parses, on
/// `Name::to_lowercase` followed by `Name::to_ascii` for the canonical form,
/// and on `Name::num_labels` for the label count.
/// `to_ascii` writes each label byte as a safe ASCII character or as an
/// ASCII escape, so every byte of the result is below 0x80.
#[verifier::external_body]
pub(crate) fn parse_lower_ascii(s: &str) -> (r: Option<(Vec<u8>, u8)>)
    ensures
        r is Some <==> name_parses(s@),
        r matches Some(p) ==> p.0@ == lower_ascii_form(s@) && p.1 == label_count(s@),
        r matches Some(p) ==> forall|i: int| 0 <= i < p.0@.len() ==> p.0@[i] < 0x80,
{
    match Name::from_str_relaxed(s) {
        Ok(n) => Some((n.to_lowercase().to_ascii().into_bytes(), n.num_labels())),
        Err(_) => None,
    }
}

/// Relies on `String::from_utf8`: it succeeds exactly on valid UTF-8, and
/// then holds the decoded characters.
#[verifier::external_body]
pub(crate) fn utf8_string(v: Vec<u8>) -> (r: Option<String>)
    ensures
        r is Some <==> valid_utf8(v@),
        r matches Some(s) ==> s@ == decode_utf8(v@),
{
    String::from_utf8(v).ok()
}

} // verus!
