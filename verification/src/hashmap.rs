use vstd::prelude::*;
use vstd::string::*;

use crate::hash::IndexFull;

verus! {

/// The mapping from packed needle keys to the identifiers that name them,
/// kept beside the needle index: a fixed-capacity, linearly probed table
/// whose slots hold one key and the list of identifiers registered for it.
/// Because the all-`A` needle legitimately packs to the key value 0,
/// occupancy is never inferred from the key field: a parallel occupancy
/// marker says which slots are taken, so every key value can be stored.
#[derive(Clone)]
pub struct Hashmap {
    pub container: Vec<u64>,
    pub dce_id: Vec<Vec<String>>,
    pub used: Vec<bool>,
    pub capacity: u64,
    pub index: usize,
}

impl View for Hashmap {
    type V = Map<u64, Seq<String>>;

    /// The abstract content: each stored key, mapped to its identifiers.
    open spec fn view(&self) -> Map<u64, Seq<String>> {
        Map::new(|k: u64| self.contains_key(k), |k: u64| self.dce_id@[self.slot_of(k)]@)
    }
}

impl Hashmap {
    /// The number of slots, as a mathematical integer.
    pub open spec fn cap(self) -> int {
        self.capacity as int
    }

    /// Slot `i` is occupied; the occupancy marker says so.
    pub open spec fn occupied(self, i: int) -> bool {
        self.used@[i]
    }

    /// The home slot of a key.
    pub open spec fn home(self, value: u64) -> int {
        value as int % self.cap()
    }

    /// The slot reached after `d` probe steps from slot `h`, wrapping at the
    /// capacity (for `0 <= h < cap` and `0 <= d < cap`).
    pub open spec fn slot_forward(self, h: int, d: int) -> int {
        if h + d < self.cap() {
            h + d
        } else {
            h + d - self.cap()
        }
    }

    /// The number of probe steps from slot `h` forward, wrapping, to slot `i`.
    pub open spec fn probe_distance(self, h: int, i: int) -> int {
        if i >= h {
            i - h
        } else {
            i + self.cap() - h
        }
    }

    /// At most one slot holds any given key.
    pub open spec fn keys_unique(self) -> bool {
        forall|i: int, j: int|
            #![trigger self.container@[i], self.container@[j]]
            0 <= i < self.cap() && 0 <= j < self.cap() && self.occupied(i) && self.occupied(j)
                && self.container@[i] == self.container@[j] ==> i == j
    }

    /// Probe chains are unbroken: every slot strictly between an occupied
    /// slot's home and the slot itself is occupied.
    pub open spec fn chains_unbroken(self) -> bool {
        forall|i: int, d: int|
            0 <= i < self.cap() && self.occupied(i) && 0 <= d < self.probe_distance(
                self.home(self.container@[i]),
                i,
            ) ==> self.occupied(#[trigger] self.slot_forward(self.home(self.container@[i]), d))
    }

    /// Well-formed: the slot arrays match the capacity, at least one slot
    /// exists, every slot carries at least one identifier cell, keys are
    /// unique and probe chains are unbroken.
    pub open spec fn wf(self) -> bool {
        &&& self.capacity >= 1
        &&& self.container@.len() == self.capacity
        &&& self.dce_id@.len() == self.capacity
        &&& self.used@.len() == self.capacity
        &&& forall|i: int| 0 <= i < self.cap() ==> #[trigger] self.dce_id@[i]@.len() >= 1
        &&& self.keys_unique()
        &&& self.chains_unbroken()
    }

    /// A key is present when some occupied slot holds it.
    pub open spec fn contains_key(self, value: u64) -> bool {
        exists|i: int|
            0 <= i < self.cap() && self.occupied(i) && #[trigger] self.container@[i] == value
    }

    /// The slot that holds a present key.
    pub open spec fn slot_of(self, value: u64) -> int {
        choose|i: int|
            0 <= i < self.cap() && self.occupied(i) && #[trigger] self.container@[i] == value
    }

    /// The number of occupied slots below slot `upto`.
    pub open spec fn occupied_below(self, upto: int) -> int
        decreases upto,
    {
        if upto <= 0 {
            0
        } else {
            self.occupied_below(upto - 1) + if self.occupied(upto - 1) {
                1int
            } else {
                0int
            }
        }
    }

    /// The number of occupied slots.
    pub open spec fn num_occupied(self) -> int {
        self.occupied_below(self.cap())
    }

    /// The probe distance, at or past `d`, of the first unoccupied slot on
    /// the chain that begins at slot `h`; the capacity where every slot is
    /// occupied.
    pub open spec fn free_distance_from(self, h: int, d: int) -> int
        decreases self.cap() - d,
    {
        if d < 0 || d >= self.cap() {
            self.cap()
        } else if !self.occupied(self.slot_forward(h, d)) {
            d
        } else {
            self.free_distance_from(h, d + 1)
        }
    }

    /// The first unoccupied slot on a key's probe chain: the slot at which
    /// `add` writes a key that is not yet stored.
    pub open spec fn first_free_slot(self, value: u64) -> int {
        self.slot_forward(self.home(value), self.free_distance_from(self.home(value), 0))
    }

    /// Pins the first free distance: probing meets occupied slots up to
    /// `d`, and an unoccupied slot there.
    proof fn lemma_free_distance_at(self, h: int, from: int, d: int)
        requires
            0 <= from <= d < self.cap(),
            forall|x: int| from <= x < d ==> self.occupied(#[trigger] self.slot_forward(h, x)),
            !self.occupied(self.slot_forward(h, d)),
        ensures
            self.free_distance_from(h, from) == d,
        decreases d - from,
    {
        if from < d {
            self.lemma_free_distance_at(h, from + 1, d);
        }
    }

    /// For a present key, `slot_of` picks exactly the slot that holds it.
    pub proof fn lemma_slot_of(self, value: u64, i: int)
        requires
            self.wf(),
            0 <= i < self.cap(),
            self.occupied(i),
            self.container@[i] == value,
        ensures
            self.contains_key(value),
            self.slot_of(value) == i,
    {
        assert(self.contains_key(value));
        let j = self.slot_of(value);
        assert(self.container@[j] == self.container@[i]);
    }

    /// When every slot below `upto` is occupied, the count is `upto`.
    pub proof fn lemma_occupied_below_full(self, upto: int)
        requires
            forall|i: int| 0 <= i < upto ==> self.occupied(i),
        ensures
            upto >= 0 ==> self.occupied_below(upto) == upto,
        decreases upto,
    {
        if upto > 0 {
            self.lemma_occupied_below_full(upto - 1);
        }
    }

    /// When no slot below `upto` is occupied, the count is zero.
    pub proof fn lemma_occupied_below_empty(self, upto: int)
        requires
            forall|i: int| 0 <= i < upto ==> !self.occupied(i),
        ensures
            self.occupied_below(upto) <= 0,
        decreases upto,
    {
        if upto > 0 {
            self.lemma_occupied_below_empty(upto - 1);
        }
    }

    /// A slot left unoccupied keeps the occupied count below the capacity.
    pub proof fn lemma_occupied_below_missing(self, i0: int, upto: int)
        requires
            !self.occupied(i0),
            0 <= i0 < upto,
        ensures
            self.occupied_below(upto) <= upto - 1,
        decreases upto,
    {
        if i0 == upto - 1 {
            self.lemma_occupied_below_bounds(upto - 1);
        } else {
            self.lemma_occupied_below_missing(i0, upto - 1);
        }
    }

    pub proof fn lemma_occupied_below_bounds(self, upto: int)
        ensures
            0 <= self.occupied_below(upto),
            upto >= 0 ==> self.occupied_below(upto) <= upto,
        decreases upto,
    {
        if upto > 0 {
            self.lemma_occupied_below_bounds(upto - 1);
        }
    }

    /// Occupying one previously unoccupied slot raises the count by one.
    pub proof fn lemma_occupied_below_flip(self, other: Hashmap, i0: int, upto: int)
        requires
            !self.occupied(i0),
            other.occupied(i0),
            forall|j: int| 0 <= j < upto && j != i0 ==> self.occupied(j) == other.occupied(j),
        ensures
            other.occupied_below(upto) == self.occupied_below(upto) + if 0 <= i0 < upto {
                1int
            } else {
                0int
            },
        decreases upto,
    {
        if upto > 0 {
            self.lemma_occupied_below_flip(other, i0, upto - 1);
        }
    }

    /// Two tables with the same occupancy pattern count alike.
    pub proof fn lemma_occupied_below_same(self, other: Hashmap, upto: int)
        requires
            forall|j: int| 0 <= j < upto ==> self.occupied(j) == other.occupied(j),
        ensures
            other.occupied_below(upto) == self.occupied_below(upto),
        decreases upto,
    {
        if upto > 0 {
            self.lemma_occupied_below_same(other, upto - 1);
        }
    }

    /// After probing `steps` slots from the key's home without meeting it,
    /// and stopping at an unoccupied slot (or after a full wrap), the key is
    /// nowhere in the table.
    proof fn lemma_absent(self, value: u64, steps: int)
        requires
            self.wf(),
            0 <= steps <= self.cap(),
            forall|d: int|
                0 <= d < steps ==> self.occupied(#[trigger] self.slot_forward(self.home(value), d))
                    && self.container@[self.slot_forward(self.home(value), d)] != value,
            steps < self.cap() ==> !self.occupied(self.slot_forward(self.home(value), steps)),
        ensures
            !self.contains_key(value),
            forall|i: int|
                0 <= i < self.cap() && self.occupied(i) ==> self.container@[i] != value,
    {
        let h = self.home(value);
        assert(0 <= h < self.cap());
        assert forall|i: int| 0 <= i < self.cap() && self.occupied(i) implies self.container@[i]
            != value by {
            if self.container@[i] == value {
                let dj = self.probe_distance(h, i);
                assert(self.slot_forward(h, dj) == i);
                assert(0 <= dj < self.cap());
                if dj < steps {
                    assert(self.container@[self.slot_forward(h, dj)] != value);
                } else if dj == steps {
                    assert(!self.occupied(self.slot_forward(h, steps)));
                } else {
                    assert(self.home(self.container@[i]) == h);
                    assert(self.occupied(self.slot_forward(self.home(self.container@[i]), steps)));
                    assert(!self.occupied(self.slot_forward(h, steps)));
                }
            }
        };
    }

    /// Builds a mapping with the given number of slots, all unoccupied; each
    /// identifier cell starts with a single placeholder entry.
    pub fn new(capacity: usize) -> (m: Hashmap)
        requires
            capacity >= 1,
        ensures
            m.wf(),
            m.capacity == capacity,
            m.index == 0,
            m@ == Map::<u64, Seq<String>>::empty(),
            m.num_occupied() == 0,
            m.container@ == Seq::new(capacity as nat, |i: int| 0u64),
            m.used@ == Seq::new(capacity as nat, |i: int| false),
            forall|i: int|
                0 <= i < capacity ==> #[trigger] m.dce_id@[i]@.len() == 1 && m.dce_id@[i]@[0]@
                    == "0"@,
    {
        let mut container: Vec<u64> = Vec::new();
        let mut dce_id: Vec<Vec<String>> = Vec::new();
        let mut used: Vec<bool> = Vec::new();
        let mut i: usize = 0;
        while i < capacity
            invariant
                i <= capacity,
                container@.len() == i,
                dce_id@.len() == i,
                used@.len() == i,
                forall|j: int| 0 <= j < i ==> container@[j] == 0u64,
                forall|j: int| 0 <= j < i ==> used@[j] == false,
                forall|j: int|
                    0 <= j < i ==> #[trigger] dce_id@[j]@.len() == 1 && dce_id@[j]@[0]@ == "0"@,
            decreases capacity - i,
        {
            let mut cell: Vec<String> = Vec::new();
            cell.push(zero_id());
            container.push(0);
            dce_id.push(cell);
            used.push(false);
            i += 1;
        }
        let m = Hashmap { container, dce_id, used, capacity: capacity as u64, index: 0 };
        proof {
            assert(m.container@ =~= Seq::new(capacity as nat, |i: int| 0u64));
            assert(m.used@ =~= Seq::new(capacity as nat, |i: int| false));
            m.lemma_occupied_below_empty(m.cap());
            m.lemma_occupied_below_bounds(m.cap());
            assert(m@ =~= Map::<u64, Seq<String>>::empty());
        }
        m
    }

    /// Registers an identifier for a key: probes forward from the key's home
    /// slot; meeting the key itself, the identifier is pushed onto the
    /// slot's list (duplicate needle content under a new name); meeting an
    /// unoccupied slot — always the first one of the probe chain — the key
    /// is written there with the identifier as its only entry, every other
    /// slot left untouched.  Either way `index` is left at the key's slot.
    /// A full table that lacks the key is reported, and changes nothing.
    pub fn add(&mut self, value: u64, id: String) -> (res: Result<(), IndexFull>)
        requires
            old(self).wf(),
        ensures
            final(self).wf(),
            final(self).capacity == old(self).capacity,
            res is Ok <==> (old(self).contains_key(value) || old(self).num_occupied() < old(
                self,
            ).cap()),
            res is Err ==> *final(self) == *old(self),
            res is Ok ==> final(self).contains_key(value) && final(self).index == final(self).slot_of(value),
            old(self).contains_key(value) ==> ({
                let j = old(self).slot_of(value);
                &&& res is Ok
                &&& final(self).container@ == old(self).container@
                &&& final(self).used@ == old(self).used@
                &&& final(self).dce_id@[j]@ == old(self).dce_id@[j]@.push(id)
                &&& forall|x: int|
                    0 <= x < old(self).cap() && x != j ==> final(self).dce_id@[x] == old(
                        self,
                    ).dce_id@[x]
                &&& final(self)@ == old(self)@.insert(value, old(self)@[value].push(id))
                &&& final(self).num_occupied() == old(self).num_occupied()
            }),
            !old(self).contains_key(value) && res is Ok ==> ({
                let j = old(self).first_free_slot(value);
                &&& 0 <= j < old(self).cap()
                &&& !old(self).occupied(j)
                &&& final(self).container@ == old(self).container@.update(j, value)
                &&& final(self).used@ == old(self).used@.update(j, true)
                &&& final(self).dce_id@[j]@ == seq![id]
                &&& forall|x: int|
                    0 <= x < old(self).cap() && x != j ==> final(self).dce_id@[x] == old(
                        self,
                    ).dce_id@[x]
                &&& final(self)@ == old(self)@.insert(value, seq![id])
                &&& final(self).num_occupied() == old(self).num_occupied() + 1
            }),
    {
        let n = self.container.len();
        let hv_u64 = value % self.capacity;
        let start = hv_u64 as usize;
        let mut probed_index = start;
        let ghost h = self.home(value);
        let ghost mut steps: int = 0;
        loop
            invariant
                *self == *old(self),
                self.wf(),
                n == self.cap(),
                h == self.home(value),
                start as int == h,
                0 <= h < self.cap(),
                0 <= steps < self.cap(),
                probed_index as int == self.slot_forward(h, steps),
                forall|d: int|
                    0 <= d < steps ==> self.occupied(#[trigger] self.slot_forward(h, d))
                        && self.container@[self.slot_forward(h, d)] != value,
            decreases self.cap() - steps,
        {
            if !self.used[probed_index] {
                // An unoccupied slot: the key is new, and this is its slot.
                proof {
                    self.lemma_absent(value, steps);
                }
                let ghost before = *self;
                let mut cell: Vec<String> = Vec::new();
                cell.push(id);
                self.container[probed_index] = value;
                self.used[probed_index] = true;
                self.dce_id[probed_index] = cell;
                self.index = probed_index;
                proof {
                    let cur = probed_index as int;
                    assert forall|x: int| 0 <= x < self.cap() implies self.occupied(x) == (
                    before.occupied(x) || x == cur) by {}
                    assert forall|i: int, j: int|
                        #![trigger self.container@[i], self.container@[j]]
                        0 <= i < self.cap() && 0 <= j < self.cap() && self.occupied(i)
                            && self.occupied(j) && self.container@[i] == self.container@[j] implies i
                        == j by {
                        if i != cur && j != cur {
                            assert(before.container@[i] == before.container@[j]);
                        }
                    }
                    assert(self.probe_distance(h, cur) == steps);
                    assert forall|i: int, d: int|
                        0 <= i < self.cap() && self.occupied(i) && 0 <= d < self.probe_distance(
                            self.home(self.container@[i]),
                            i,
                        ) implies self.occupied(
                        #[trigger] self.slot_forward(self.home(self.container@[i]), d),
                    ) by {
                        if i == cur {
                            assert(self.home(self.container@[i]) == h);
                            assert(before.occupied(before.slot_forward(h, d)));
                        } else {
                            assert(before.occupied(i));
                            assert(before.container@[i] == self.container@[i]);
                            assert(before.occupied(
                                before.slot_forward(before.home(before.container@[i]), d),
                            ));
                        }
                    }
                    assert(self.wf());
                    self.lemma_slot_of(value, cur);
                    assert forall|k: u64| #[trigger]
                        self.contains_key(k) implies (k == value || before.contains_key(k)) by {
                        if k != value {
                            let i = self.slot_of(k);
                            assert(self.container@[i] == k);
                            assert(i != cur);
                            assert(before.container@[i] == k);
                        }
                    }
                    assert forall|k: u64| #[trigger]
                        before.contains_key(k) implies self.contains_key(k) by {
                        let i = before.slot_of(k);
                        assert(before.container@[i] == k);
                        assert(i != cur);
                        assert(self.container@[i] == k);
                    }
                    assert forall|k: u64| k != value && #[trigger] before.contains_key(
                        k,
                    ) implies self@[k] == before@[k] by {
                        let i = before.slot_of(k);
                        assert(before.container@[i] == k);
                        assert(i != cur);
                        self.lemma_slot_of(k, i);
                        before.lemma_slot_of(k, i);
                    }
                    assert(self@ =~= before@.insert(value, seq![id]));
                    before.lemma_occupied_below_flip(*self, cur, self.cap());
                    before.lemma_occupied_below_missing(cur, before.cap());
                    before.lemma_free_distance_at(h, 0, steps);
                    assert(before.first_free_slot(value) == cur);
                    assert(self.container@ =~= before.container@.update(cur, value));
                    assert(self.used@ =~= before.used@.update(cur, true));
                }
                return Ok(());
            }
            if self.container[probed_index] == value {
                // The key is already registered: append the new identifier.
                let ghost before = *self;
                proof {
                    self.lemma_slot_of(value, probed_index as int);
                }
                self.dce_id[probed_index].push(id);
                self.index = probed_index;
                proof {
                    let cur = probed_index as int;
                    assert(self.container@ == before.container@);
                    assert(self.used@ == before.used@);
                    assert forall|i: int| 0 <= i < self.cap() implies #[trigger] self.dce_id@[i]@.len()
                        >= 1 by {
                        if i != cur {
                            assert(self.dce_id@[i] == before.dce_id@[i]);
                        }
                    }
                    assert forall|i: int, j: int|
                        #![trigger self.container@[i], self.container@[j]]
                        0 <= i < self.cap() && 0 <= j < self.cap() && self.occupied(i)
                            && self.occupied(j) && self.container@[i] == self.container@[j] implies i
                        == j by {
                        assert(before.container@[i] == self.container@[i]);
                        assert(before.container@[j] == self.container@[j]);
                    }
                    assert forall|i: int, d: int|
                        0 <= i < self.cap() && self.occupied(i) && 0 <= d < self.probe_distance(
                            self.home(self.container@[i]),
                            i,
                        ) implies self.occupied(
                        #[trigger] self.slot_forward(self.home(self.container@[i]), d),
                    ) by {
                        assert(before.container@[i] == self.container@[i]);
                        assert(before.occupied(i));
                        assert(before.occupied(
                            before.slot_forward(before.home(before.container@[i]), d),
                        ));
                    }
                    assert(self.wf());
                    before.lemma_occupied_below_same(*self, self.cap());
                    self.lemma_slot_of(value, cur);
                    assert forall|k: u64| k != value && #[trigger] before.contains_key(
                        k,
                    ) implies self.contains_key(k) && self@[k] == before@[k] by {
                        let i = before.slot_of(k);
                        assert(before.container@[i] == k);
                        assert(i != cur);
                        self.lemma_slot_of(k, i);
                        before.lemma_slot_of(k, i);
                    }
                    assert forall|k: u64| k != value && #[trigger] self.contains_key(
                        k,
                    ) implies before.contains_key(k) by {
                        let i = self.slot_of(k);
                        assert(self.container@[i] == k);
                    }
                    assert(self@ =~= before@.insert(value, before@[value].push(id)));
                }
                return Ok(());
            }
            probed_index += 1;
            if probed_index >= n {
                probed_index = 0;
            }
            proof {
                steps = steps + 1;
            }
            if probed_index == start {
                // The probe wrapped all the way around: every slot is
                // occupied by some other key.
                proof {
                    self.lemma_absent(value, steps);
                    assert forall|x: int| 0 <= x < self.cap() implies self.occupied(x) by {
                        let d = self.probe_distance(h, x);
                        assert(self.slot_forward(h, d) == x);
                        assert(self.occupied(self.slot_forward(self.home(value), d)));
                    }
                    self.lemma_occupied_below_full(self.cap());
                }
                return Err(IndexFull);
            }
        }
    }

    /// True exactly when the key is stored, probing in the same order as
    /// `add`: an unoccupied slot, or a full wrap, ends the search.
    pub fn contains(&self, value: u64) -> (res: bool)
        requires
            self.wf(),
        ensures
            res == self.contains_key(value),
    {
        let n = self.container.len();
        let hv_u64 = value % self.capacity;
        let start = hv_u64 as usize;
        let mut probed_index = start;
        let ghost h = self.home(value);
        let ghost mut steps: int = 0;
        loop
            invariant
                self.wf(),
                n == self.cap(),
                h == self.home(value),
                start as int == h,
                0 <= h < self.cap(),
                0 <= steps < self.cap(),
                probed_index as int == self.slot_forward(h, steps),
                forall|d: int|
                    0 <= d < steps ==> self.occupied(#[trigger] self.slot_forward(h, d))
                        && self.container@[self.slot_forward(h, d)] != value,
            decreases self.cap() - steps,
        {
            if !self.used[probed_index] {
                proof {
                    self.lemma_absent(value, steps);
                }
                return false;
            }
            if self.container[probed_index] == value {
                proof {
                    self.lemma_slot_of(value, probed_index as int);
                }
                return true;
            }
            probed_index += 1;
            if probed_index >= n {
                probed_index = 0;
            }
            proof {
                steps = steps + 1;
            }
            if probed_index == start {
                proof {
                    self.lemma_absent(value, steps);
                }
                return false;
            }
        }
    }

    /// The slot that holds the key; for an absent key, the unoccupied slot
    /// at which its probe chain ends.  The table is never changed, and a
    /// slot must be free when the key is absent (else the probe would
    /// never end).
    pub fn get_index(&mut self, value: u64) -> (res: usize)
        requires
            old(self).wf(),
            old(self).contains_key(value) || old(self).num_occupied() < old(self).cap(),
        ensures
            *final(self) == *old(self),
            res < old(self).cap(),
            old(self).contains_key(value) ==> res == old(self).slot_of(value),
            !old(self).contains_key(value) ==> !old(self).occupied(res as int),
    {
        let n = self.container.len();
        let hv_u64 = value % self.capacity;
        let start = hv_u64 as usize;
        let mut probed_index = start;
        let ghost h = self.home(value);
        let ghost mut steps: int = 0;
        loop
            invariant
                *self == *old(self),
                self.wf(),
                old(self).contains_key(value) || old(self).num_occupied() < old(self).cap(),
                n == self.cap(),
                h == self.home(value),
                start as int == h,
                0 <= h < self.cap(),
                0 <= steps < self.cap(),
                probed_index as int == self.slot_forward(h, steps),
                forall|d: int|
                    0 <= d < steps ==> self.occupied(#[trigger] self.slot_forward(h, d))
                        && self.container@[self.slot_forward(h, d)] != value,
            decreases self.cap() - steps,
        {
            if !self.used[probed_index] {
                proof {
                    self.lemma_absent(value, steps);
                }
                return probed_index;
            }
            if self.container[probed_index] == value {
                proof {
                    self.lemma_slot_of(value, probed_index as int);
                }
                return probed_index;
            }
            probed_index += 1;
            if probed_index >= n {
                probed_index = 0;
            }
            proof {
                steps = steps + 1;
            }
            if probed_index == start {
                // Unreachable: a full wrap would mean the table is full and
                // the key absent, which the precondition rules out.
                proof {
                    self.lemma_absent(value, steps);
                    assert forall|x: int| 0 <= x < self.cap() implies self.occupied(x) by {
                        let d = self.probe_distance(h, x);
                        assert(self.slot_forward(h, d) == x);
                        assert(self.occupied(self.slot_forward(self.home(value), d)));
                    }
                    self.lemma_occupied_below_full(self.cap());
                }
                return 0;
            }
        }
    }
}

/// The placeholder identifier that fills unoccupied slots.
fn zero_id() -> (s: String)
    ensures
        s@ == "0"@,
{
    String::from_str("0")
}

} // verus!
