//! Resolution outcomes and the map from candidate text to outcome.

use vstd::prelude::*;

verus! {

/// An IP address: IPv4 as its 32-bit value, IPv6 as its 128-bit value.
#[derive(PartialEq, Eq, Structural, Clone, Copy, Debug)]
pub enum IpAddress {
    V4(u32),
    V6(u128),
}

/// A resolved name's addresses, without repeats.
pub struct DomainData {
    pub ips: Vec<IpAddress>,
}

/// `s` with every repeated address dropped after its first occurrence.
pub open spec fn dedup(s: Seq<IpAddress>) -> Seq<IpAddress>
    decreases s.len(),
{
    if s.len() == 0 {
        seq![]
    } else if dedup(s.drop_last()).contains(s.last()) {
        dedup(s.drop_last())
    } else {
        dedup(s.drop_last()).push(s.last())
    }
}

/// A lookup as handed in: `None` when it failed, else the addresses found.
pub open spec fn lookup_view(l: Option<Vec<IpAddress>>) -> Option<Seq<IpAddress>> {
    match l {
        Some(v) => Some(v@),
        None => None,
    }
}

pub open spec fn outcome_view(o: Option<DomainData>) -> Option<Seq<IpAddress>> {
    match o {
        Some(d) => Some(d.ips@),
        None => None,
    }
}

/// The outcome recorded for a lookup: empty for a failure or for no
/// address, else the addresses found, each once.
pub open spec fn outcome_of(l: Option<Seq<IpAddress>>) -> Option<Seq<IpAddress>> {
    match l {
        Some(v) => if v.len() == 0 {
            None
        } else {
            Some(dedup(v))
        },
        None => None,
    }
}

proof fn lemma_dedup(s: Seq<IpAddress>)
    ensures
        dedup(s).no_duplicates(),
        dedup(s).to_set() == s.to_set(),
        s.len() > 0 ==> dedup(s).len() > 0,
    decreases s.len(),
{
    if s.len() > 0 {
        let d = dedup(s.drop_last());
        lemma_dedup(s.drop_last());
        assert(s =~= s.drop_last().push(s.last()));
        s.drop_last().lemma_push_to_set_commute(s.last());
        if !d.contains(s.last()) {
            d.lemma_push_to_set_commute(s.last());
            assert(d.push(s.last()).no_duplicates()) by {
                assert forall|i: int, j: int|
                    0 <= i < d.len() + 1 && 0 <= j < d.len() + 1 && i != j implies d.push(
                    s.last(),
                )[i] != d.push(s.last())[j] by {
                    if i == d.len() {
                        assert(d.push(s.last())[j] == d[j]);
                    } else if j == d.len() {
                        assert(d.push(s.last())[i] == d[i]);
                    }
                }
            }
        } else {
            assert(d.to_set().contains(s.last()));
            assert(s.drop_last().to_set().insert(s.last()) =~= s.drop_last().to_set());
        }
    }
}

fn contains_ip(v: &Vec<IpAddress>, a: IpAddress) -> (r: bool)
    ensures
        r == v@.contains(a),
{
    let mut i: usize = 0;
    while i < v.len()
        invariant
            0 <= i <= v@.len(),
            forall|j: int| 0 <= j < i ==> v@[j] != a,
        decreases v@.len() - i,
    {
        if v[i] == a {
            return true;
        }
        i = i + 1;
    }
    false
}

/// The outcome of one lookup: `None` for a failed lookup or one that found
/// no address; otherwise the addresses found, without repeats, in the order
/// of their first occurrence.
pub fn resolution_outcome(lookup: &Option<Vec<IpAddress>>) -> (r: Option<DomainData>)
    ensures
        outcome_view(r) == outcome_of(lookup_view(*lookup)),
        r matches Some(d) ==> d.ips@.len() > 0 && d.ips@.no_duplicates(),
        r matches Some(d) ==> lookup matches Some(v) && d.ips@.to_set() == v@.to_set(),
{
    match lookup {
        None => None,
        Some(v) => {
            if v.len() == 0 {
                return None;
            }
            let mut ips: Vec<IpAddress> = Vec::new();
            let mut i: usize = 0;
            while i < v.len()
                invariant
                    0 <= i <= v@.len(),
                    ips@ == dedup(v@.subrange(0, i as int)),
                decreases v@.len() - i,
            {
                let a = v[i];
                assert(v@.subrange(0, i + 1).drop_last() =~= v@.subrange(0, i as int));
                if !contains_ip(&ips, a) {
                    ips.push(a);
                }
                i = i + 1;
            }
            assert(v@.subrange(0, v@.len() as int) =~= v@);
            proof {
                lemma_dedup(v@);
            }
            Some(DomainData { ips })
        },
    }
}

/// The map that a sequence of (key, lookup) pairs builds when each pair is
/// recorded in turn, a later pair overwriting an earlier one with its key.
pub open spec fn assembled(s: Seq<(Seq<char>, Option<Seq<IpAddress>>)>) -> Map<
    Seq<char>,
    Option<Seq<IpAddress>>,
>
    decreases s.len(),
{
    if s.len() == 0 {
        Map::empty()
    } else {
        assembled(s.drop_last()).insert(s.last().0, outcome_of(s.last().1))
    }
}

/// The pairs' keys and lookups as plain values.
pub open spec fn pairs_view(v: Seq<(String, Option<Vec<IpAddress>>)>) -> Seq<
    (Seq<char>, Option<Seq<IpAddress>>),
> {
    v.map_values(|p: (String, Option<Vec<IpAddress>>)| (p.0@, lookup_view(p.1)))
}

/// Candidate text mapped to its resolution outcome; `None` stands for an
/// empty outcome.
pub struct ResultMap {
    entries: Vec<(String, Option<DomainData>)>,
    contents: Ghost<Map<Seq<char>, Option<Seq<IpAddress>>>>,
}

impl View for ResultMap {
    type V = Map<Seq<char>, Option<Seq<IpAddress>>>;

    closed spec fn view(&self) -> Map<Seq<char>, Option<Seq<IpAddress>>> {
        self.contents@
    }
}

impl ResultMap {
    /// Keys are pairwise distinct, and the entries are exactly the map.
    pub closed spec fn wf(&self) -> bool {
        &&& forall|i: int, j: int|
            0 <= i < j < self.entries@.len() ==> self.entries@[i].0@ != self.entries@[j].0@
        &&& forall|i: int|
            0 <= i < self.entries@.len() ==> #[trigger] self.contents@[self.entries@[i].0@]
                == outcome_view(self.entries@[i].1)
        &&& forall|k: Seq<char>|
            #[trigger] self.contents@.contains_key(k) <==> exists|i: int|
                0 <= i < self.entries@.len() && self.entries@[i].0@ == k
    }

    pub fn new() -> (r: ResultMap)
        ensures
            r.wf(),
            r@ == Map::<Seq<char>, Option<Seq<IpAddress>>>::empty(),
    {
        ResultMap { entries: Vec::new(), contents: Ghost(Map::empty()) }
    }

    /// Records `value` under `key`, replacing what was there.
    pub fn insert(&mut self, key: String, value: Option<DomainData>)
        requires
            old(self).wf(),
        ensures
            final(self).wf(),
            final(self)@ == old(self)@.insert(key@, outcome_view(value)),
    {
        let ghost k = key@;
        let ghost o = outcome_view(value);
        let mut i: usize = 0;
        while i < self.entries.len()
            invariant
                self.wf(),
                self@ == old(self)@,
                0 <= i <= self.entries@.len(),
                forall|j: int| 0 <= j < i ==> self.entries@[j].0@ != k,
                k == key@,
                o == outcome_view(value),
            decreases self.entries@.len() - i,
        {
            if self.entries[i].0.eq(&key) {
                let ghost before = self.entries@;
                self.entries.set(i, (key, value));
                self.contents = Ghost(self.contents@.insert(k, o));
                assert forall|q: Seq<char>|
                    #[trigger] self.contents@.contains_key(q) <==> exists|j: int|
                        0 <= j < self.entries@.len() && self.entries@[j].0@ == q by {
                    if exists|j: int| 0 <= j < before.len() && before[j].0@ == q {
                        let j = choose|j: int| 0 <= j < before.len() && before[j].0@ == q;
                        assert(self.entries@[j].0@ == q);
                    }
                    if exists|j: int| 0 <= j < self.entries@.len() && self.entries@[j].0@ == q {
                        let j = choose|j: int|
                            0 <= j < self.entries@.len() && self.entries@[j].0@ == q;
                        assert(before[j].0@ == q);
                    }
                }
                return ;
            }
            i = i + 1;
        }
        let ghost before = self.entries@;
        self.entries.push((key, value));
        self.contents = Ghost(self.contents@.insert(k, o));
        assert forall|q: Seq<char>|
            #[trigger] self.contents@.contains_key(q) <==> exists|j: int|
                0 <= j < self.entries@.len() && self.entries@[j].0@ == q by {
            if exists|j: int| 0 <= j < before.len() && before[j].0@ == q {
                let j = choose|j: int| 0 <= j < before.len() && before[j].0@ == q;
                assert(self.entries@[j].0@ == q);
            }
            if q == k {
                assert(self.entries@[before.len() as int].0@ == q);
            }
        }
    }

    /// Number of entries.
    pub fn len(&self) -> (r: usize)
        requires
            self.wf(),
        ensures
            r == self@.len(),
    {
        proof {
            self.lemma_len();
        }
        self.entries.len()
    }

    proof fn lemma_len(&self)
        requires
            self.wf(),
        ensures
            self@.len() == self.entries@.len(),
    {
        let ks = self.entries@.map_values(|e: (String, Option<DomainData>)| e.0@);
        assert(ks.no_duplicates());
        ks.unique_seq_to_set();
        assert(ks.to_set() =~= self@.dom()) by {
            assert forall|q: Seq<char>| ks.to_set().contains(q) <==> self@.dom().contains(q) by {
                if self@.dom().contains(q) {
                    let j = choose|j: int|
                        0 <= j < self.entries@.len() && self.entries@[j].0@ == q;
                    assert(ks[j] == q);
                }
            }
        }
    }

    /// The entries, each key once, each with the value that the map holds.
    pub fn entries(&self) -> (r: &Vec<(String, Option<DomainData>)>)
        requires
            self.wf(),
        ensures
            forall|i: int, j: int| 0 <= i < j < r@.len() ==> r@[i].0@ != r@[j].0@,
            forall|i: int|
                0 <= i < r@.len() ==> #[trigger] self@[r@[i].0@] == outcome_view(r@[i].1),
            forall|k: Seq<char>|
                #[trigger] self@.contains_key(k) <==> exists|i: int| 0 <= i < r@.len() && r@[i].0@ == k,
    {
        &self.entries
    }

    /// Builds the map from (candidate text, lookup) pairs: each lookup becomes
    /// its outcome, a failed one `None`, and a later pair with an equal key
    /// replaces an earlier one.
    pub fn from_lookups(results: Vec<(String, Option<Vec<IpAddress>>)>) -> (r: ResultMap)
        ensures
            r.wf(),
            r@ == assembled(pairs_view(results@)),
    {
        let mut m = ResultMap::new();
        let mut i: usize = 0;
        while i < results.len()
            invariant
                0 <= i <= results@.len(),
                m.wf(),
                m@ == assembled(pairs_view(results@).subrange(0, i as int)),
            decreases results@.len() - i,
        {
            let key = results[i].0.clone();
            let value = resolution_outcome(&results[i].1);
            m.insert(key, value);
            assert(pairs_view(results@).subrange(0, i + 1).drop_last() =~= pairs_view(
                results@,
            ).subrange(0, i as int));
            i = i + 1;
        }
        assert(pairs_view(results@).subrange(0, results@.len() as int) =~= pairs_view(results@));
        m
    }
}

/// The keys of an assembled map are the keys of its pairs, whatever the
/// lookups returned.
pub proof fn assembled_keys(s: Seq<(Seq<char>, Option<Seq<IpAddress>>)>)
    ensures
        assembled(s).dom() == s.map_values(|p: (Seq<char>, Option<Seq<IpAddress>>)| p.0).to_set(),
    decreases s.len(),
{
    let f = |p: (Seq<char>, Option<Seq<IpAddress>>)| p.0;
    if s.len() > 0 {
        assembled_keys(s.drop_last());
        assert(s.map_values(f) =~= s.drop_last().map_values(f).push(s.last().0));
        s.drop_last().map_values(f).lemma_push_to_set_commute(s.last().0);
    } else {
        assert(s.map_values(f).to_set() =~= Set::<Seq<char>>::empty());
    }
}

/// Two runs over the same candidates give maps with the same keys, whatever
/// each lookup returned.
pub proof fn same_keys_whatever_the_lookups(
    s1: Seq<(Seq<char>, Option<Seq<IpAddress>>)>,
    s2: Seq<(Seq<char>, Option<Seq<IpAddress>>)>,
)
    requires
        s1.len() == s2.len(),
        forall|i: int| 0 <= i < s1.len() ==> s1[i].0 == s2[i].0,
    ensures
        assembled(s1).dom() == assembled(s2).dom(),
{
    let f = |p: (Seq<char>, Option<Seq<IpAddress>>)| p.0;
    assembled_keys(s1);
    assembled_keys(s2);
    assert(s1.map_values(f) =~= s2.map_values(f));
}

/// The lookup succeeded and found exactly the addresses of `ips`.
pub open spec fn found_all(l: Option<Seq<IpAddress>>, ips: Seq<IpAddress>) -> bool {
    l matches Some(v) && v.to_set() == ips.to_set()
}

/// Every value of an assembled map is `None` or a non-empty list of distinct
/// addresses, all of which its lookup found: a failed lookup leaves only a
/// `None` behind.
pub proof fn assembled_values(s: Seq<(Seq<char>, Option<Seq<IpAddress>>)>, k: Seq<char>)
    requires
        assembled(s).contains_key(k),
    ensures
        assembled(s)[k] matches Some(ips) ==> ips.len() > 0 && ips.no_duplicates() && exists|
            i: int,
        |
            0 <= i < s.len() && (#[trigger] s[i]).0 == k && found_all(s[i].1, ips),
    decreases s.len(),
{
    if s.len() > 0 {
        if s.last().0 == k {
            if let Some(v) = s.last().1 {
                lemma_dedup(v);
                assert(s[s.len() - 1].0 == k);
            }
        } else {
            assembled_values(s.drop_last(), k);
            if let Some(ips) = assembled(s)[k] {
                let i = choose|i: int|
                    0 <= i < s.drop_last().len() && (#[trigger] s.drop_last()[i]).0 == k
                        && found_all(s.drop_last()[i].1, ips);
                assert(s[i] == s.drop_last()[i]);
            }
        }
    }
}

/// When every lookup fails, every entry is `None`.
pub proof fn all_failed_gives_all_none(s: Seq<(Seq<char>, Option<Seq<IpAddress>>)>, k: Seq<char>)
    requires
        forall|i: int| 0 <= i < s.len() ==> s[i].1 is None,
        assembled(s).contains_key(k),
    ensures
        assembled(s)[k] is None,
    decreases s.len(),
{
    if s.last().0 != k {
        all_failed_gives_all_none(s.drop_last(), k);
    }
}

} // verus!
