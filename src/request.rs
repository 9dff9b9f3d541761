//! From the requested name to its candidates.

use crate::flipper::{
    candidate_bytes, candidate_one_bit_away, candidate_parses, candidate_seq, flip, BitFlipper,
    Candidate,
};
use crate::name::{label_count, lower_ascii_form, name_parses, parse_lower_ascii};
use crate::result_map::{assembled, assembled_keys, IpAddress};
use vstd::prelude::*;
use vstd::utf8::*;

verus! {

/// The form field carrying the name to explore.
pub struct MyInfo {
    domain_name: String,
}

impl View for MyInfo {
    type V = Seq<char>;

    closed spec fn view(&self) -> Seq<char> {
        self.domain_name@
    }
}

impl MyInfo {
    pub fn new(domain_name: String) -> (r: MyInfo)
        ensures
            r@ == domain_name@,
    {
        MyInfo { domain_name }
    }

    pub fn domain_name(&self) -> (r: &String)
        ensures
            r@ == self@,
    {
        &self.domain_name
    }
}

/// Errors surfaced to the caller.
#[derive(PartialEq, Eq, Structural, Debug, Clone, Copy)]
pub enum BitflipError {
    /// The input is not a DNS name of at least two labels.
    InvalidInput,
}

/// Inputs that are explored: names that parse and have two labels or more.
pub open spec fn valid_input(s: Seq<char>) -> bool {
    name_parses(s) && label_count(s) >= 2
}

/// The lowercase ASCII bytes of the input name, or `InvalidInput` when it
/// does not parse, is empty or the root, or has a single label.
pub fn canonicalise(input: &str) -> (r: Result<Vec<u8>, BitflipError>)
    ensures
        r is Ok <==> valid_input(input@),
        r matches Ok(b) ==> b@ == lower_ascii_form(input@),
        r matches Ok(b) ==> forall|i: int| 0 <= i < b@.len() ==> b@[i] < 0x80,
        r matches Err(e) ==> e == BitflipError::InvalidInput,
{
    match parse_lower_ascii(input) {
        Some((bytes, labels)) => {
            if labels >= 2 {
                Ok(bytes)
            } else {
                Err(BitflipError::InvalidInput)
            }
        },
        None => Err(BitflipError::InvalidInput),
    }
}

/// Every candidate one bit away from the canonical form of `input`, in
/// generation order.
pub fn bitflip_candidates(input: &str) -> (r: Result<Vec<Candidate>, BitflipError>)
    ensures
        r is Ok <==> valid_input(input@),
        r matches Ok(v) ==> candidate_bytes(v@) == candidate_seq(lower_ascii_form(input@)),
        r matches Ok(v) ==> forall|j: int| 0 <= j < v@.len() ==> (#[trigger] v@[j]).well_formed(),
        r matches Err(e) ==> e == BitflipError::InvalidInput,
{
    let bytes = canonicalise(input)?;
    let mut flipper = BitFlipper::new(bytes);
    Ok(flipper.collect_candidates())
}

/// The keys that exploring `input` produces: the text of its candidates.
pub open spec fn explored_keys(input: Seq<char>) -> Set<Seq<char>> {
    candidate_seq(lower_ascii_form(input)).map_values(|c: Seq<u8>| decode_utf8(c)).to_set()
}

/// A run of the whole exploration pairs each candidate, in order, with its
/// text and whatever its lookup returned; the map built from
/// it has the same keys on every run over the same input.
pub proof fn run_keys_are_fixed(
    input: Seq<char>,
    run: Seq<(Seq<char>, Option<Seq<IpAddress>>)>,
)
    requires
        run.len() == candidate_seq(lower_ascii_form(input)).len(),
        forall|i: int|
            0 <= i < run.len() ==> (#[trigger] run[i]).0 == decode_utf8(
                candidate_seq(lower_ascii_form(input))[i],
            ),
    ensures
        assembled(run).dom() == explored_keys(input),
{
    assembled_keys(run);
    let f = |p: (Seq<char>, Option<Seq<IpAddress>>)| p.0;
    let g = |c: Seq<u8>| decode_utf8(c);
    assert(run.map_values(f) =~= candidate_seq(lower_ascii_form(input)).map_values(g));
}

/// Each explored key is the text of bytes one bit away from the canonical
/// form of the input, in a byte before the last, and it parses as a name.
pub proof fn explored_key_is_one_bit_away(input: Seq<char>, k: Seq<char>)
    requires
        explored_keys(input).contains(k),
    ensures
        name_parses(k),
        exists|i: int, bit: int|
            0 <= i < lower_ascii_form(input).len() - 1 && 0 <= bit < 8 && valid_utf8(
                #[trigger] flip(lower_ascii_form(input), i, bit),
            ) && k == decode_utf8(flip(lower_ascii_form(input), i, bit)),
{
    let b = lower_ascii_form(input);
    let cs = candidate_seq(b);
    let g = |c: Seq<u8>| decode_utf8(c);
    let j = choose|j: int| 0 <= j < cs.len() && cs.map_values(g)[j] == k;
    candidate_parses(b, j);
    candidate_one_bit_away(b, j);
}

} // verus!
