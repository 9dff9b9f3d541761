//! The bit-flip generator: every name one bit away from a canonical name.

use crate::name::{lower_ascii_form, name_parses, parse_relaxed, utf8_string};
use trust_dns_resolver::Name;
use vstd::prelude::*;
use vstd::utf8::*;

verus! {

/// Number of leading bytes whose bits are flipped: all but the last one.
pub open spec fn flippable(b: Seq<u8>) -> nat {
    if b.len() < 2 {
        0
    } else {
        (b.len() - 1) as nat
    }
}

/// The byte with only bit `k` set.
pub open spec fn bit(k: int) -> u8 {
    (1u8 << (k as u8)) as u8
}

/// `b` with bit `k` of byte `i` inverted.
pub open spec fn flip(b: Seq<u8>, i: int, k: int) -> Seq<u8> {
    b.update(i, b[i] ^ bit(k))
}

/// The flip at position `p`, counting bits byte by byte from the start.
pub open spec fn flip_at(b: Seq<u8>, p: int) -> Seq<u8> {
    flip(b, p / 8, p % 8)
}

/// A flipped byte string is kept when it is UTF-8 and parses as a name.
pub open spec fn accepted(c: Seq<u8>) -> bool {
    valid_utf8(c) && name_parses(decode_utf8(c))
}

/// The accepted flips of `b` at positions `p` onwards, in order.
pub open spec fn candidates_from(b: Seq<u8>, p: int) -> Seq<Seq<u8>>
    decreases 8 * flippable(b) - p,
{
    if p < 0 || p >= 8 * flippable(b) {
        seq![]
    } else if accepted(flip_at(b, p)) {
        seq![flip_at(b, p)] + candidates_from(b, p + 1)
    } else {
        candidates_from(b, p + 1)
    }
}

/// Every candidate derived from the canonical bytes `b`, in generation order.
pub open spec fn candidate_seq(b: Seq<u8>) -> Seq<Seq<u8>> {
    candidates_from(b, 0)
}

/// One generated candidate: its bytes, the text they spell and the parsed name.
pub struct Candidate {
    pub bytes: Vec<u8>,
    pub presentation: String,
    pub name: Name,
}

impl Candidate {
    /// The candidate's presentation is the text its bytes spell.
    pub open spec fn well_formed(&self) -> bool {
        self.presentation@ == decode_utf8(self.bytes@)
    }
}

/// The candidates' bytes, in order.
pub open spec fn candidate_bytes(v: Seq<Candidate>) -> Seq<Seq<u8>> {
    v.map_values(|c: Candidate| c.bytes@)
}

/// `c` is an accepted flip of `b` at some position from `p` on.
spec fn accepted_flip_from(b: Seq<u8>, p: int, c: Seq<u8>) -> bool {
    exists|q: int| p <= q < 8 * flippable(b) && c == #[trigger] flip_at(b, q) && accepted(c)
}

proof fn lemma_candidates_from(b: Seq<u8>, p: int)
    requires
        0 <= p <= 8 * flippable(b),
    ensures
        candidates_from(b, p).len() <= 8 * flippable(b) - p,
        forall|j: int|
            0 <= j < candidates_from(b, p).len() ==> accepted_flip_from(
                b,
                p,
                #[trigger] candidates_from(b, p)[j],
            ),
    decreases 8 * flippable(b) - p,
{
    if p < 8 * flippable(b) {
        lemma_candidates_from(b, p + 1);
        let rest = candidates_from(b, p + 1);
        let here = accepted(flip_at(b, p));
        assert forall|j: int| 0 <= j < candidates_from(b, p).len() implies accepted_flip_from(
            b,
            p,
            #[trigger] candidates_from(b, p)[j],
        ) by {
            if here && j == 0 {
                assert(candidates_from(b, p)[j] == flip_at(b, p));
            } else {
                let jj = if here {
                    j - 1
                } else {
                    j
                };
                assert(candidates_from(b, p)[j] == rest[jj]);
                assert(accepted_flip_from(b, p + 1, rest[jj]));
                let q = choose|q: int|
                    p + 1 <= q < 8 * flippable(b) && rest[jj] == #[trigger] flip_at(b, q)
                        && accepted(rest[jj]);
                assert(p <= q);
            }
        }
    } else {
        assert(candidates_from(b, p) == Seq::<Seq<u8>>::empty());
    }
}

proof fn lemma_member(b: Seq<u8>, j: int) -> (q: int)
    requires
        0 <= j < candidate_seq(b).len(),
    ensures
        0 <= q < 8 * flippable(b),
        candidate_seq(b)[j] == flip_at(b, q),
        accepted(flip_at(b, q)),
{
    lemma_candidates_from(b, 0);
    assert(accepted_flip_from(b, 0, candidate_seq(b)[j]));
    choose|q: int|
        0 <= q < 8 * flippable(b) && candidate_seq(b)[j] == #[trigger] flip_at(b, q) && accepted(
            candidate_seq(b)[j],
        )
}

/// There are at most eight candidates per flipped byte, and none at all when
/// the name has fewer than two bytes.
pub proof fn candidate_count_bound(b: Seq<u8>)
    ensures
        candidate_seq(b).len() <= 8 * flippable(b),
        b.len() < 2 ==> candidate_seq(b).len() == 0,
{
    lemma_candidates_from(b, 0);
}

/// Each candidate differs from the canonical bytes in exactly one bit, which
/// lies in a byte before the last one; the last byte is kept.
pub proof fn candidate_one_bit_away(b: Seq<u8>, j: int)
    requires
        0 <= j < candidate_seq(b).len(),
    ensures
        candidate_seq(b)[j].len() == b.len(),
        candidate_seq(b)[j].last() == b.last(),
        exists|i: int, k: int|
            0 <= i < b.len() - 1 && 0 <= k < 8 && candidate_seq(b)[j] == #[trigger] flip(b, i, k),
{
    let q = lemma_member(b, j);
    let i = q / 8;
    let k = q % 8;
    assert(0 <= i < b.len() - 1 && 0 <= k < 8) by (nonlinear_arith)
        requires
            0 <= q < 8 * flippable(b),
            flippable(b) == b.len() - 1,
            i == q / 8,
            k == q % 8,
    ;
    assert(candidate_seq(b)[j] == flip(b, i, k));
}

/// Every candidate is valid UTF-8 and its text parses as a domain name;
/// flips that break UTF-8 are skipped.
pub proof fn candidate_parses(b: Seq<u8>, j: int)
    requires
        0 <= j < candidate_seq(b).len(),
    ensures
        valid_utf8(candidate_seq(b)[j]),
        name_parses(decode_utf8(candidate_seq(b)[j])),
{
    lemma_member(b, j);
}

/// No candidate equals the name it was derived from.
pub proof fn candidate_is_not_input(b: Seq<u8>, j: int)
    requires
        0 <= j < candidate_seq(b).len(),
    ensures
        candidate_seq(b)[j] != b,
{
    candidate_one_bit_away(b, j);
    let (i, k) = choose|i: int, k: int|
        0 <= i < b.len() - 1 && 0 <= k < 8 && candidate_seq(b)[j] == #[trigger] flip(b, i, k);
    let x = b[i];
    let kk = k as u8;
    assert(x ^ (1u8 << kk) != x) by (bit_vector)
        requires
            kk < 8,
    ;
    assert(flip(b, i, k)[i] != b[i]);
}

/// The candidates depend on the input text alone: equal inputs give equal
/// candidate sequences.
pub proof fn candidates_deterministic(s1: Seq<char>, s2: Seq<char>)
    requires
        s1 == s2,
    ensures
        candidate_seq(lower_ascii_form(s1)) == candidate_seq(lower_ascii_form(s2)),
{
}

/// A byte string whose bytes are all ASCII but one is not UTF-8.
proof fn lemma_one_high_byte_not_utf8(s: Seq<u8>, h: int)
    requires
        0 <= h < s.len(),
        s[h] >= 0x80,
        forall|i: int| 0 <= i < s.len() && i != h ==> s[i] < 0x80,
    ensures
        !valid_utf8(s),
    decreases s.len(),
{
    if h > 0 {
        let rest = s.subrange(1, s.len() as int);
        lemma_one_high_byte_not_utf8(rest, h - 1);
        assert(s[0] < 0x80);
        assert(pop_first_scalar(s) == rest);
    } else {
        assert(s.len() >= 2 ==> s[1] < 0x80);
        assert(!valid_first_scalar(s));
    }
}

/// On an ASCII name, a flip of a byte's high bit is never UTF-8, so it is
/// skipped: every candidate is ASCII again.
pub proof fn candidates_of_ascii_are_ascii(b: Seq<u8>, j: int)
    requires
        forall|i: int| 0 <= i < b.len() ==> b[i] < 0x80,
        0 <= j < candidate_seq(b).len(),
    ensures
        forall|i: int| 0 <= i < b.len() ==> #[trigger] candidate_seq(b)[j][i] < 0x80,
{
    let c = candidate_seq(b)[j];
    candidate_parses(b, j);
    candidate_one_bit_away(b, j);
    let (i, k) = choose|i: int, k: int|
        0 <= i < b.len() - 1 && 0 <= k < 8 && c == #[trigger] flip(b, i, k);
    let x = b[i];
    let kk = k as u8;
    assert(x < 0x80 ==> (kk < 7 <==> (x ^ (1u8 << kk)) < 0x80)) by (bit_vector)
        requires
            kk < 8,
    ;
    if k == 7 {
        lemma_one_high_byte_not_utf8(c, i);
        assert(valid_utf8(c));
    }
}

/// A pull-style generator over the one-bit flips of a canonical name.
pub struct BitFlipper {
    bytes: Vec<u8>,
    vector_pos: usize,
    byte_pos: u8,
}

impl BitFlipper {
    pub closed spec fn bytes(&self) -> Seq<u8> {
        self.bytes@
    }

    /// Position of the next bit to flip, counted from the first bit.
    pub closed spec fn pos(&self) -> int {
        8 * self.vector_pos + self.byte_pos
    }

    pub closed spec fn wf(&self) -> bool {
        &&& self.byte_pos <= 8
        &&& 0 <= self.pos() <= 8 * flippable(self.bytes@)
    }

    /// The candidates still to come.
    pub open spec fn remaining(&self) -> Seq<Seq<u8>> {
        candidates_from(self.bytes(), self.pos())
    }

    /// A generator positioned at the first bit of `bytes`.
    pub fn new(bytes: Vec<u8>) -> (r: BitFlipper)
        ensures
            r.wf(),
            r.bytes() == bytes@,
            r.pos() == 0,
            r.remaining() == candidate_seq(bytes@),
    {
        BitFlipper { bytes, vector_pos: 0, byte_pos: 0 }
    }

    /// Yields the next accepted candidate, or `None` once every bit of all
    /// bytes but the last has been tried.
    pub fn next(&mut self) -> (r: Option<Candidate>)
        requires
            old(self).wf(),
        ensures
            final(self).wf(),
            final(self).bytes() == old(self).bytes(),
            match r {
                None => old(self).remaining().len() == 0 && final(self).remaining().len() == 0,
                Some(c) => {
                    &&& old(self).remaining().len() > 0
                    &&& c.bytes@ == old(self).remaining()[0]
                    &&& c.well_formed()
                    &&& final(self).remaining() == old(self).remaining().drop_first()
                },
            },
    {
        let n = self.bytes.len();
        if n < 2 {
            return None;
        }
        loop
            invariant
                self.wf(),
                self.bytes() == old(self).bytes(),
                n == self.bytes@.len(),
                n >= 2,
                self.remaining() == old(self).remaining(),
            decreases 8 * flippable(self.bytes@) - self.pos(),
        {
            if self.byte_pos >= 8 {
                self.vector_pos = self.vector_pos + 1;
                self.byte_pos = 0;
            }
            if self.vector_pos >= n - 1 {
                return None;
            }
            let i = self.vector_pos;
            let k = self.byte_pos;
            let p: Ghost<int> = Ghost(self.pos());
            assert((8 * i + k) / 8 == i && (8 * i + k) % 8 == k as int) by (nonlinear_arith)
                requires
                    k < 8,
            ;
            let mut bytes = self.bytes.clone();
            assert(bytes@ == self.bytes@);
            let flipped = bytes[i] ^ (1u8 << k);
            bytes.set(i, flipped);
            assert(bytes@ == flip_at(self.bytes@, p@));
            self.byte_pos = k + 1;
            match utf8_string(bytes.clone()) {
                Some(presentation) => {
                    match parse_relaxed(&presentation) {
                        Some(name) => {
                            return Some(Candidate { bytes, presentation, name });
                        },
                        None => {},
                    }
                },
                None => {},
            }
        }
    }

    /// Runs the generator to its end and returns what it yields, in order.
    pub fn collect_candidates(&mut self) -> (r: Vec<Candidate>)
        requires
            old(self).wf(),
        ensures
            final(self).wf(),
            final(self).remaining().len() == 0,
            candidate_bytes(r@) == old(self).remaining(),
            forall|j: int| 0 <= j < r@.len() ==> (#[trigger] r@[j]).well_formed(),
    {
        let mut out: Vec<Candidate> = Vec::new();
        loop
            invariant
                self.wf(),
                candidate_bytes(out@) + self.remaining() == old(self).remaining(),
                forall|j: int| 0 <= j < out@.len() ==> (#[trigger] out@[j]).well_formed(),
            decreases self.remaining().len(),
        {
            let ghost before = out@;
            let ghost rest = self.remaining();
            match self.next() {
                None => {
                    assert(candidate_bytes(out@) + self.remaining() =~= candidate_bytes(out@));
                    return out;
                },
                Some(c) => {
                    out.push(c);
                    assert(candidate_bytes(out@) =~= candidate_bytes(before).push(rest[0]));
                    assert(candidate_bytes(out@) + self.remaining() =~= candidate_bytes(before)
                        + rest);
                },
            }
        }
    }
}

} // verus!
