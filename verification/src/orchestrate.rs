use vstd::prelude::*;

use crate::compress::{compress_seq, packed_value, window_valid};
use std::collections::HashMap;

verus! {

broadcast use vstd::std_specs::hash::group_hash_axioms;

/// What became of one needle record handed to `NeedleSet::add_needle`.
#[derive(Debug, PartialEq, Eq, Structural)]
pub enum NeedleOutcome {
    /// The key was new: it joined the key list under this identifier.
    Registered,
    /// The same 32 symbols were already registered under another name;
    /// the existing entry is kept.
    Duplicate,
    /// The sequence is not exactly 32 valid symbols and was skipped.
    Rejected,
}

/// The needle keys and their identifiers, built once from the needle file
/// before any scanning, and read-only afterwards: a deduplicated key list
/// for building each worker's index, and the mapping from each key to the
/// identifier first registered for it.
pub struct NeedleSet {
    pub keys: Vec<u64>,
    pub names: HashMap<u64, String>,
}

impl NeedleSet {
    /// The key list carries no duplicates and names exactly the mapped keys.
    pub open spec fn wf(self) -> bool {
        &&& self.keys@.no_duplicates()
        &&& forall|k: u64| #[trigger] self.names@.contains_key(k) <==> self.keys@.contains(k)
    }

    /// An empty needle set.
    pub fn new() -> (s: NeedleSet)
        ensures
            s.wf(),
            s.keys@.len() == 0,
            s.names@ == Map::<u64, String>::empty(),
    {
        let s = NeedleSet { keys: Vec::new(), names: HashMap::new() };
        proof {
            assert forall|k: u64| !(#[trigger] s.keys@.contains(k)) by {}
        }
        s
    }

    /// Takes one needle record: a sequence of other than exactly 32 valid
    /// symbols is rejected; a key already registered is coalesced, keeping
    /// the first identifier; a new key is appended to the key list and
    /// registered under its identifier.  The caller logs a warning for the
    /// first two outcomes.
    pub fn add_needle(&mut self, identifier: &str, sequence: &str) -> (outcome: NeedleOutcome)
        requires
            old(self).wf(),
        ensures
            final(self).wf(),
            !(sequence@.len() == 32 && window_valid(sequence@, 0)) ==> outcome
                == NeedleOutcome::Rejected && *final(self) == *old(self),
            sequence@.len() == 32 && window_valid(sequence@, 0) ==> {
                let key = packed_value(sequence@, 0, 32) as u64;
                if old(self).keys@.contains(key) {
                    outcome == NeedleOutcome::Duplicate && *final(self) == *old(self)
                } else {
                    &&& outcome == NeedleOutcome::Registered
                    &&& final(self).keys@ == old(self).keys@.push(key)
                    &&& final(self).names@.dom() == old(self).names@.dom().insert(key)
                    &&& final(self).names@[key]@ == identifier@
                    &&& forall|k: u64|
                        k != key && old(self).names@.contains_key(k)
                            ==> #[trigger] final(self).names@[k] == old(self).names@[k]
                }
            },
    {
        match compress_seq(sequence) {
            None => NeedleOutcome::Rejected,
            Some(key) => {
                if self.names.contains_key(&key) {
                    proof {
                        assert(self.keys@.contains(key));
                    }
                    NeedleOutcome::Duplicate
                } else {
                    let ghost before = *self;
                    self.keys.push(key);
                    let name = identifier.to_owned();
                    proof {
                        assert(name@ == identifier@);
                    }
                    self.names.insert(key, name);
                    proof {
                        assert forall|k: u64| #[trigger]
                            self.names@.contains_key(k) <==> self.keys@.contains(k) by {
                            if k == key {
                                assert(self.keys@[self.keys@.len() - 1] == key);
                            } else {
                                assert(self.names@.contains_key(k) == before.names@.contains_key(
                                    k,
                                ));
                                if before.keys@.contains(k) {
                                    let j = choose|j: int|
                                        0 <= j < before.keys@.len() && before.keys@[j] == k;
                                    assert(self.keys@[j] == k);
                                } else if self.keys@.contains(k) {
                                    let j = choose|j: int|
                                        0 <= j < self.keys@.len() && self.keys@[j] == k;
                                    assert(before.keys@[j] == k);
                                }
                            }
                        }
                        assert(self.keys@.no_duplicates()) by {
                            assert(!before.keys@.contains(key));
                        }
                    }
                    NeedleOutcome::Registered
                }
            },
        }
    }

    /// Drains one worker's finished needle index: one entry for every slot
    /// whose key was hit at least once and is named here, carrying the
    /// identifier and the final count, in slot order.
    pub fn collect_hits(&self, needles: &crate::hash::Hash) -> (out: Vec<(String, u64)>)
        requires
            needles.wf(),
        ensures
            out@ == collected_hits(needles.key@, needles.hits@, self.names@, needles.cap()),
    {
        let mut out: Vec<(String, u64)> = Vec::new();
        let mut i: usize = 0;
        let n = needles.key.len();
        while i < n
            invariant
                needles.wf(),
                n == needles.cap(),
                i <= n,
                out@ == collected_hits(needles.key@, needles.hits@, self.names@, i as int),
            decreases n - i,
        {
            let count = needles.hits[i];
            if count > 0 {
                let key_i = needles.key[i];
                match self.names.get(&key_i) {
                    Some(name) => {
                        proof {
                            assert(self.names@.contains_key(key_i));
                            assert(*name == self.names@[key_i]);
                        }
                        out.push((clone_string(name), count as u64));
                    },
                    None => {
                        proof {
                            assert(!self.names@.contains_key(key_i));
                        }
                    },
                }
            }
            proof {
                assert(out@ =~= collected_hits(needles.key@, needles.hits@, self.names@, i + 1));
            }
            i += 1;
        }
        out
    }
}

/// The entries drained from the slots below `upto`, in slot order: the name
/// and counter of every slot with a positive counter and a named key.
pub open spec fn collected_hits(
    keys: Seq<u64>,
    hits: Seq<i64>,
    names: Map<u64, String>,
    upto: int,
) -> Seq<(String, u64)>
    decreases upto,
{
    if upto <= 0 {
        Seq::empty()
    } else {
        collected_hits(keys, hits, names, upto - 1) + if hits[upto - 1] > 0 && names.contains_key(
            keys[upto - 1],
        ) {
            seq![(names[keys[upto - 1]], hits[upto - 1] as u64)]
        } else {
            Seq::empty()
        }
    }
}

/// Law: the drained entries cover the hits.  Every key stored in a
/// finished index with a positive counter and a registered name
/// contributes its entry — the name and the final count — to the drain.
pub proof fn lemma_collected_hits_cover(h: crate::hash::Hash, names: Map<u64, String>, k: u64)
    requires
        h.wf(),
        h.contains_key(k),
        h@[k] > 0,
        names.contains_key(k),
    ensures
        collected_hits(h.key@, h.hits@, names, h.cap()).contains((names[k], h@[k] as u64)),
{
    lemma_collected_hits_cover_upto(h, names, k, h.cap());
}

proof fn lemma_collected_hits_cover_upto(
    h: crate::hash::Hash,
    names: Map<u64, String>,
    k: u64,
    upto: int,
)
    requires
        h.wf(),
        h.contains_key(k),
        h@[k] > 0,
        names.contains_key(k),
        h.slot_of(k) < upto <= h.cap(),
    ensures
        collected_hits(h.key@, h.hits@, names, upto).contains((names[k], h@[k] as u64)),
    decreases upto,
{
    let slot = h.slot_of(k);
    let pair = (names[k], h@[k] as u64);
    let prefix = collected_hits(h.key@, h.hits@, names, upto - 1);
    if slot == upto - 1 {
        assert(h.occupied(slot) && h.key@[slot] == k);
        assert(h.hits@[slot] == h@[k]);
        assert(collected_hits(h.key@, h.hits@, names, upto) == prefix + seq![pair]);
        assert(collected_hits(h.key@, h.hits@, names, upto)[prefix.len() as int] == pair);
    } else {
        lemma_collected_hits_cover_upto(h, names, k, upto - 1);
        let j = choose|j: int| 0 <= j < prefix.len() && #[trigger] prefix[j] == pair;
        assert(collected_hits(h.key@, h.hits@, names, upto)[j] == pair);
    }
}

/// A copy of a string, equal to it.
fn clone_string(s: &String) -> (r: String)
    ensures
        r == *s,
{
    s.clone()
}

} // verus!
