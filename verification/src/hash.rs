use vstd::prelude::*;

verus! {

/// Returned by `Hash::add` when no unoccupied slot is left for a new key.
#[derive(Debug)]
pub struct IndexFull;

/// A fixed-capacity set of packed keys with per-key hit counters, resolving
/// collisions by linear probing.  Because the all-`A` needle legitimately
/// packs to the key value 0, occupancy is never inferred from the key
/// field: a slot is unoccupied exactly when its counter holds the negative
/// sentinel, and occupied counters start at 0.
#[derive(Debug, Clone)]
pub struct Hash {
    pub key: Vec<u64>,
    pub hits: Vec<i64>,
    pub capacity: u64,
}

impl View for Hash {
    type V = Map<u64, int>;

    /// The abstract content: each stored key, mapped to its hit counter.
    open spec fn view(&self) -> Map<u64, int> {
        Map::new(|k: u64| self.contains_key(k), |k: u64| self.hits@[self.slot_of(k)] as int)
    }
}

impl Hash {
    /// The number of slots, as a mathematical integer.
    pub open spec fn cap(self) -> int {
        self.capacity as int
    }

    /// Slot `i` is occupied; unoccupied slots carry a negative counter.
    pub open spec fn occupied(self, i: int) -> bool {
        self.hits@[i] >= 0
    }

    /// The home slot of a key.
    pub open spec fn home(self, value: u64) -> int {
        value as int % self.cap()
    }

    /// The slot reached after `d` probe steps from slot `h`, wrapping at the
    /// capacity (for `0 <= h < cap` and `0 <= d < cap`).
    pub open spec fn slot_forward(self, h: int, d: int) -> int {
        if h + d < self.cap() {
            h + d
        } else {
            h + d - self.cap()
        }
    }

    /// The number of probe steps from slot `h` forward, wrapping, to slot `i`.
    pub open spec fn probe_distance(self, h: int, i: int) -> int {
        if i >= h {
            i - h
        } else {
            i + self.cap() - h
        }
    }

    /// At most one slot holds any given key.
    pub open spec fn keys_unique(self) -> bool {
        forall|i: int, j: int|
            #![trigger self.key@[i], self.key@[j]]
            0 <= i < self.cap() && 0 <= j < self.cap() && self.occupied(i) && self.occupied(j)
                && self.key@[i] == self.key@[j] ==> i == j
    }

    /// Probe chains are unbroken: every slot strictly between an occupied
    /// slot's home and the slot itself is occupied.
    pub open spec fn chains_unbroken(self) -> bool {
        forall|i: int, d: int|
            0 <= i < self.cap() && self.occupied(i) && 0 <= d < self.probe_distance(
                self.home(self.key@[i]),
                i,
            ) ==> self.occupied(#[trigger] self.slot_forward(self.home(self.key@[i]), d))
    }

    /// Well-formed: the slot arrays match the capacity, at least one slot
    /// exists, keys are unique and probe chains are unbroken.
    pub open spec fn wf(self) -> bool {
        &&& self.capacity >= 1
        &&& self.key@.len() == self.capacity
        &&& self.hits@.len() == self.capacity
        &&& self.keys_unique()
        &&& self.chains_unbroken()
    }

    /// A key is present when some occupied slot holds it.
    pub open spec fn contains_key(self, value: u64) -> bool {
        exists|i: int|
            0 <= i < self.cap() && self.occupied(i) && #[trigger] self.key@[i] == value
    }

    /// The slot that holds a present key.
    pub open spec fn slot_of(self, value: u64) -> int {
        choose|i: int|
            0 <= i < self.cap() && self.occupied(i) && #[trigger] self.key@[i] == value
    }

    /// The number of occupied slots below slot `upto`.
    pub open spec fn occupied_below(self, upto: int) -> int
        decreases upto,
    {
        if upto <= 0 {
            0
        } else {
            self.occupied_below(upto - 1) + if self.occupied(upto - 1) {
                1int
            } else {
                0int
            }
        }
    }

    /// The number of occupied slots.
    pub open spec fn num_occupied(self) -> int {
        self.occupied_below(self.cap())
    }

    /// For a present key, `slot_of` picks exactly the slot that holds it.
    pub proof fn lemma_slot_of(self, value: u64, i: int)
        requires
            self.wf(),
            0 <= i < self.cap(),
            self.occupied(i),
            self.key@[i] == value,
        ensures
            self.contains_key(value),
            self.slot_of(value) == i,
    {
        assert(self.contains_key(value));
        let j = self.slot_of(value);
        assert(self.key@[j] == self.key@[i]);
    }

    pub proof fn lemma_occupied_below_bounds(self, upto: int)
        ensures
            0 <= self.occupied_below(upto),
            upto >= 0 ==> self.occupied_below(upto) <= upto,
        decreases upto,
    {
        if upto > 0 {
            self.lemma_occupied_below_bounds(upto - 1);
        }
    }

    /// When every slot below `upto` is occupied, the count is `upto`.
    pub proof fn lemma_occupied_below_full(self, upto: int)
        requires
            forall|i: int| 0 <= i < upto ==> self.occupied(i),
        ensures
            upto >= 0 ==> self.occupied_below(upto) == upto,
        decreases upto,
    {
        if upto > 0 {
            self.lemma_occupied_below_full(upto - 1);
        }
    }

    /// When no slot below `upto` is occupied, the count is zero.
    pub proof fn lemma_occupied_below_empty(self, upto: int)
        requires
            forall|i: int| 0 <= i < upto ==> !self.occupied(i),
        ensures
            self.occupied_below(upto) <= 0,
        decreases upto,
    {
        if upto > 0 {
            self.lemma_occupied_below_empty(upto - 1);
        }
    }

    /// Occupying one previously unoccupied slot raises the count by one.
    pub proof fn lemma_occupied_below_flip(self, other: Hash, i0: int, upto: int)
        requires
            !self.occupied(i0),
            other.occupied(i0),
            forall|j: int| 0 <= j < upto && j != i0 ==> self.occupied(j) == other.occupied(j),
        ensures
            other.occupied_below(upto) == self.occupied_below(upto) + if 0 <= i0 < upto {
                1int
            } else {
                0int
            },
        decreases upto,
    {
        if upto > 0 {
            self.lemma_occupied_below_flip(other, i0, upto - 1);
        }
    }

    /// Two tables with the same occupancy pattern count alike.
    pub proof fn lemma_occupied_below_same(self, other: Hash, upto: int)
        requires
            forall|j: int| 0 <= j < upto ==> self.occupied(j) == other.occupied(j),
        ensures
            other.occupied_below(upto) == self.occupied_below(upto),
        decreases upto,
    {
        if upto > 0 {
            self.lemma_occupied_below_same(other, upto - 1);
        }
    }

    /// A stored key's counter lies in the counter type's nonnegative range.
    pub proof fn lemma_count_bounds(self, value: u64)
        requires
            self.wf(),
            self.contains_key(value),
        ensures
            0 <= self@[value] <= i64::MAX,
    {
        let i = self.slot_of(value);
        assert(self.occupied(i) && self.key@[i] == value);
    }

    /// A slot left unoccupied keeps the occupied count below the capacity.
    pub proof fn lemma_occupied_below_missing(self, i0: int, upto: int)
        requires
            !self.occupied(i0),
            0 <= i0 < upto,
        ensures
            self.occupied_below(upto) <= upto - 1,
        decreases upto,
    {
        if i0 == upto - 1 {
            self.lemma_occupied_below_bounds(upto - 1);
        } else {
            self.lemma_occupied_below_missing(i0, upto - 1);
        }
    }

    /// The probe distance, at or past `d`, of the first unoccupied slot on
    /// the chain that begins at slot `h`; the capacity where every slot is
    /// occupied.
    pub open spec fn free_distance_from(self, h: int, d: int) -> int
        decreases self.cap() - d,
    {
        if d < 0 || d >= self.cap() {
            self.cap()
        } else if !self.occupied(self.slot_forward(h, d)) {
            d
        } else {
            self.free_distance_from(h, d + 1)
        }
    }

    /// The first unoccupied slot on a key's probe chain: the slot at which
    /// `add` writes a key that is not yet stored.
    pub open spec fn first_free_slot(self, value: u64) -> int {
        self.slot_forward(self.home(value), self.free_distance_from(self.home(value), 0))
    }

    /// Pins the first free distance: probing meets occupied slots up to
    /// `d`, and an unoccupied slot there.
    proof fn lemma_free_distance_at(self, h: int, from: int, d: int)
        requires
            0 <= from <= d < self.cap(),
            forall|x: int| from <= x < d ==> self.occupied(#[trigger] self.slot_forward(h, x)),
            !self.occupied(self.slot_forward(h, d)),
        ensures
            self.free_distance_from(h, from) == d,
        decreases d - from,
    {
        if from < d {
            self.lemma_free_distance_at(h, from + 1, d);
        }
    }

    /// After probing `steps` slots from the key's home without meeting it,
    /// and stopping at an unoccupied slot (or after a full wrap), the key is
    /// nowhere in the table.
    proof fn lemma_absent(self, value: u64, steps: int)
        requires
            self.wf(),
            0 <= steps <= self.cap(),
            forall|d: int|
                0 <= d < steps ==> self.occupied(#[trigger] self.slot_forward(self.home(value), d))
                    && self.key@[self.slot_forward(self.home(value), d)] != value,
            steps < self.cap() ==> !self.occupied(self.slot_forward(self.home(value), steps)),
        ensures
            !self.contains_key(value),
            forall|i: int| 0 <= i < self.cap() && self.occupied(i) ==> self.key@[i] != value,
    {
        let h = self.home(value);
        assert(0 <= h < self.cap());
        assert forall|i: int| 0 <= i < self.cap() && self.occupied(i) implies self.key@[i]
            != value by {
            if self.key@[i] == value {
                let dj = self.probe_distance(h, i);
                assert(self.slot_forward(h, dj) == i);
                assert(0 <= dj < self.cap());
                if dj < steps {
                    assert(self.key@[self.slot_forward(h, dj)] != value);
                } else if dj == steps {
                    assert(!self.occupied(self.slot_forward(h, steps)));
                } else {
                    assert(self.home(self.key@[i]) == h);
                    assert(self.occupied(self.slot_forward(self.home(self.key@[i]), steps)));
                    assert(!self.occupied(self.slot_forward(h, steps)));
                }
            }
        };
    }

    /// Builds an index with the given number of slots, all unoccupied.
    pub fn new(capacity: usize) -> (h: Hash)
        requires
            capacity >= 1,
        ensures
            h.wf(),
            h.capacity == capacity,
            h@ == Map::<u64, int>::empty(),
            h.num_occupied() == 0,
            h.key@ == Seq::new(capacity as nat, |i: int| 0u64),
            h.hits@ == Seq::new(capacity as nat, |i: int| -1i64),
    {
        let mut key: Vec<u64> = Vec::new();
        let mut hits: Vec<i64> = Vec::new();
        let mut i: usize = 0;
        while i < capacity
            invariant
                i <= capacity,
                key@.len() == i,
                hits@.len() == i,
                forall|j: int| 0 <= j < i ==> key@[j] == 0u64,
                forall|j: int| 0 <= j < i ==> hits@[j] == -1i64,
            decreases capacity - i,
        {
            key.push(0);
            hits.push(-1);
            i += 1;
        }
        let h = Hash { key, hits, capacity: capacity as u64 };
        proof {
            assert(h.key@ =~= Seq::new(capacity as nat, |i: int| 0u64));
            assert(h.hits@ =~= Seq::new(capacity as nat, |i: int| -1i64));
            h.lemma_occupied_below_empty(h.cap());
            h.lemma_occupied_below_bounds(h.cap());
            assert(h@ =~= Map::<u64, int>::empty());
        }
        h
    }

    /// Adds a key: probes forward from the key's home slot until either the
    /// key itself is met (a duplicate, coalesced into the existing slot), an
    /// unoccupied slot is met — always the first one of the probe chain —
    /// (the key is written there with a counter of 0, every other slot left
    /// untouched), or the probe wraps all the way around (the table is
    /// full).
    pub fn add(&mut self, value: u64) -> (res: Result<(), IndexFull>)
        requires
            old(self).wf(),
        ensures
            final(self).wf(),
            final(self).capacity == old(self).capacity,
            res is Ok <==> (old(self).contains_key(value) || old(self).num_occupied()
                < old(self).cap()),
            old(self).contains_key(value) ==> *final(self) == *old(self),
            res is Err ==> *final(self) == *old(self),
            res is Ok ==> final(self)@ == (if old(self).contains_key(value) {
                old(self)@
            } else {
                old(self)@.insert(value, 0)
            }),
            res is Ok ==> final(self).contains_key(value),
            !old(self).contains_key(value) && res is Ok ==> final(self).num_occupied() == old(
                self,
            ).num_occupied() + 1,
            old(self).contains_key(value) || res is Err ==> final(self).num_occupied() == old(
                self,
            ).num_occupied(),
            !old(self).contains_key(value) && res is Ok ==> ({
                let j = old(self).first_free_slot(value);
                &&& 0 <= j < old(self).cap()
                &&& !old(self).occupied(j)
                &&& final(self).key@ == old(self).key@.update(j, value)
                &&& final(self).hits@ == old(self).hits@.update(j, 0i64)
            }),
    {
        let ghost h = self.home(value);
        let n = self.key.len();
        let hv_u64 = value % self.capacity;
        proof {
            assert(hv_u64 < self.capacity);
            assert(self.capacity == n);
        }
        let hv_index = hv_u64 as usize;
        let mut probed_index = hv_index;
        let ghost mut steps: int = 0;
        loop
            invariant
                *self == *old(self),
                self.wf(),
                n == self.cap(),
                h == self.home(value),
                hv_index as int == h,
                0 <= h < self.cap(),
                0 <= steps < self.cap(),
                probed_index as int == self.slot_forward(self.home(value), steps),
                forall|d: int|
                    0 <= d < steps ==> self.occupied(
                        #[trigger] self.slot_forward(self.home(value), d),
                    ) && self.key@[self.slot_forward(self.home(value), d)] != value,
            decreases self.cap() - steps,
        {
            if self.hits[probed_index] < 0 {
                // An unoccupied slot ends the probe: the key is new.
                proof {
                    self.lemma_absent(value, steps);
                }
                let ghost before = *self;
                self.key[probed_index] = value;
                self.hits[probed_index] = 0;
                proof {
                    let cur = probed_index as int;
                    assert forall|x: int| 0 <= x < self.cap() implies self.occupied(x) == (
                    before.occupied(x) || x == cur) by {}
                    // Unique keys: `value` occurs nowhere else.
                    assert forall|i: int, j: int|
                        #![trigger self.key@[i], self.key@[j]]
                        0 <= i < self.cap() && 0 <= j < self.cap() && self.occupied(i)
                            && self.occupied(j) && self.key@[i] == self.key@[j] implies i == j by {
                        if i != cur && j != cur {
                            assert(before.key@[i] == before.key@[j]);
                        }
                    }
                    // Unbroken chains: the new slot's own chain was probed
                    // occupied, and old chains only gained occupancy.
                    assert(self.probe_distance(h, cur) == steps);
                    assert forall|i: int, d: int|
                        0 <= i < self.cap() && self.occupied(i) && 0 <= d < self.probe_distance(
                            self.home(self.key@[i]),
                            i,
                        ) implies self.occupied(
                        #[trigger] self.slot_forward(self.home(self.key@[i]), d),
                    ) by {
                        if i == cur {
                            assert(self.home(self.key@[i]) == h);
                            assert(before.occupied(before.slot_forward(h, d)));
                        } else {
                            assert(before.occupied(i));
                            assert(before.key@[i] == self.key@[i]);
                            assert(before.occupied(
                                before.slot_forward(before.home(before.key@[i]), d),
                            ));
                        }
                    }
                    assert(self.wf());
                    // The view gains exactly this key with a zero counter.
                    self.lemma_slot_of(value, cur);
                    assert forall|k: u64| #[trigger]
                        self.contains_key(k) implies (k == value || before.contains_key(k)) by {
                        if k != value {
                            let i = self.slot_of(k);
                            assert(self.key@[i] == k);
                            assert(i != cur);
                            assert(before.key@[i] == k);
                        }
                    }
                    assert forall|k: u64| #[trigger]
                        before.contains_key(k) implies self.contains_key(k) by {
                        let i = before.slot_of(k);
                        assert(before.key@[i] == k);
                        assert(i != cur);
                        assert(self.key@[i] == k);
                    }
                    assert forall|k: u64| k != value && #[trigger] before.contains_key(
                        k,
                    ) implies self@[k] == before@[k] by {
                        let i = before.slot_of(k);
                        assert(before.key@[i] == k);
                        assert(i != cur);
                        self.lemma_slot_of(k, i);
                        before.lemma_slot_of(k, i);
                    }
                    assert(self@ =~= before@.insert(value, 0));
                    before.lemma_occupied_below_flip(*self, cur, self.cap());
                    before.lemma_occupied_below_missing(cur, before.cap());
                    before.lemma_free_distance_at(h, 0, steps);
                    assert(before.first_free_slot(value) == cur);
                }
                return Ok(());
            }
            if self.key[probed_index] == value {
                // The key is already stored: coalesce into the existing slot.
                proof {
                    self.lemma_slot_of(value, probed_index as int);
                }
                return Ok(());
            }
            probed_index += 1;
            if probed_index >= n {
                probed_index = 0;
            }
            proof {
                steps = steps + 1;
            }
            if probed_index == hv_index {
                // The probe wrapped all the way around: every slot is
                // occupied by some other key.
                proof {
                    assert(steps == self.cap());
                    self.lemma_absent(value, steps);
                    assert forall|x: int| 0 <= x < self.cap() implies self.occupied(x) by {
                        let d = self.probe_distance(h, x);
                        assert(self.slot_forward(h, d) == x);
                        assert(self.occupied(self.slot_forward(self.home(value), d)));
                    }
                    self.lemma_occupied_below_full(self.cap());
                }
                return Err(IndexFull);
            }
        }
    }

    /// Finds the slot that holds `value`, probing in the same order as
    /// `add`: reaching an unoccupied slot, or wrapping all the way around,
    /// reports that the key is absent.  The table itself is never changed.
    pub fn find(&mut self, value: u64) -> (res: Option<usize>)
        requires
            old(self).wf(),
        ensures
            *final(self) == *old(self),
            res is Some <==> old(self).contains_key(value),
            res matches Some(index) ==> index < old(self).cap() && old(self).occupied(index as int)
                && old(self).key@[index as int] == value && old(self).slot_of(value) == index,
    {
        let n = self.key.len();
        let hv_u64 = value % self.capacity;
        let start = hv_u64 as usize;
        let mut probed_index = start;
        let ghost h = self.home(value);
        let ghost mut steps: int = 0;
        loop
            invariant
                *self == *old(self),
                self.wf(),
                n == self.cap(),
                h == self.home(value),
                start as int == h,
                0 <= h < self.cap(),
                0 <= steps < self.cap(),
                probed_index as int == self.slot_forward(h, steps),
                forall|d: int|
                    0 <= d < steps ==> self.occupied(#[trigger] self.slot_forward(h, d))
                        && self.key@[self.slot_forward(h, d)] != value,
            decreases self.cap() - steps,
        {
            if self.hits[probed_index] < 0 {
                // An unoccupied slot ends the probe chain: the key is absent.
                proof {
                    self.lemma_absent(value, steps);
                }
                return None;
            }
            if self.key[probed_index] == value {
                proof {
                    self.lemma_slot_of(value, probed_index as int);
                }
                return Some(probed_index);
            }
            probed_index += 1;
            if probed_index >= n {
                probed_index = 0;
            }
            proof {
                steps = steps + 1;
            }
            if probed_index == start {
                // The probe wrapped all the way around without a match.
                proof {
                    self.lemma_absent(value, steps);
                }
                return None;
            }
        }
    }

    /// Looks the key up in the same probe order as `add` and, when it is
    /// found, raises its counter by exactly one; a counter already at the
    /// greatest representable value is left in place.  When the key is
    /// absent, nothing is changed.
    pub fn inc_hits(&mut self, value: u64)
        requires
            old(self).wf(),
        ensures
            final(self).wf(),
            final(self).capacity == old(self).capacity,
            final(self).key@ == old(self).key@,
            final(self).num_occupied() == old(self).num_occupied(),
            old(self).contains_key(value) ==> final(self)@ == old(self)@.insert(
                value,
                counter_bumped(old(self)@[value]),
            ),
            old(self).contains_key(value) ==> final(self).hits@ == old(self).hits@.update(
                old(self).slot_of(value),
                counter_bumped(old(self)@[value]) as i64,
            ),
            !old(self).contains_key(value) ==> *final(self) == *old(self),
    {
        let n = self.key.len();
        let hv_u64 = value % self.capacity;
        let start = hv_u64 as usize;
        let mut probed_index = start;
        let ghost h = self.home(value);
        let ghost mut steps: int = 0;
        loop
            invariant
                *self == *old(self),
                self.wf(),
                n == self.cap(),
                h == self.home(value),
                start as int == h,
                0 <= h < self.cap(),
                0 <= steps < self.cap(),
                probed_index as int == self.slot_forward(h, steps),
                forall|d: int|
                    0 <= d < steps ==> self.occupied(#[trigger] self.slot_forward(h, d))
                        && self.key@[self.slot_forward(h, d)] != value,
            decreases self.cap() - steps,
        {
            if self.hits[probed_index] < 0 {
                // An unoccupied slot ends the probe chain: the key is absent
                // and nothing is counted.
                proof {
                    self.lemma_absent(value, steps);
                }
                return ;
            }
            if self.key[probed_index] == value {
                let ghost before = *self;
                proof {
                    self.lemma_slot_of(value, probed_index as int);
                }
                let count = self.hits[probed_index];
                if count < i64::MAX {
                    self.hits[probed_index] = count + 1;
                }
                proof {
                    let cur = probed_index as int;
                    assert(before.slot_of(value) == cur) by {
                        before.lemma_slot_of(value, cur);
                    }
                    assert(self.hits@ =~= before.hits@.update(
                        cur,
                        counter_bumped(before@[value]) as i64,
                    ));
                    assert(self.key@ == before.key@);
                    assert forall|x: int| 0 <= x < self.cap() implies self.occupied(x)
                        == before.occupied(x) by {}
                    assert forall|i: int, j: int|
                        #![trigger self.key@[i], self.key@[j]]
                        0 <= i < self.cap() && 0 <= j < self.cap() && self.occupied(i)
                            && self.occupied(j) && self.key@[i] == self.key@[j] implies i == j by {
                        assert(before.key@[i] == self.key@[i]);
                        assert(before.key@[j] == self.key@[j]);
                        assert(before.occupied(i) && before.occupied(j));
                    }
                    assert forall|i: int, d: int|
                        0 <= i < self.cap() && self.occupied(i) && 0 <= d < self.probe_distance(
                            self.home(self.key@[i]),
                            i,
                        ) implies self.occupied(
                        #[trigger] self.slot_forward(self.home(self.key@[i]), d),
                    ) by {
                        assert(before.key@[i] == self.key@[i]);
                        assert(before.occupied(i));
                        assert(before.occupied(
                            before.slot_forward(before.home(before.key@[i]), d),
                        ));
                    }
                    assert(self.wf());
                    before.lemma_occupied_below_same(*self, self.cap());
                    self.lemma_slot_of(value, cur);
                    assert forall|k: u64|
                        #![trigger self.contains_key(k)]
                        true implies self.contains_key(k) == before.contains_key(k) by {
                        if self.contains_key(k) {
                            let i = self.slot_of(k);
                            assert(before.key@[i] == k);
                        }
                        if before.contains_key(k) {
                            let i = before.slot_of(k);
                            assert(self.key@[i] == k);
                        }
                    }
                    assert forall|k: u64| k != value && #[trigger] before.contains_key(
                        k,
                    ) implies self@[k] == before@[k] by {
                        let i = before.slot_of(k);
                        assert(before.key@[i] == k);
                        assert(i != cur);
                        self.lemma_slot_of(k, i);
                        before.lemma_slot_of(k, i);
                    }
                    assert(self@ =~= before@.insert(value, counter_bumped(before@[value])));
                }
                return ;
            }
            probed_index += 1;
            if probed_index >= n {
                probed_index = 0;
            }
            proof {
                steps = steps + 1;
            }
            if probed_index == start {
                // The probe wrapped all the way around without a match.
                proof {
                    self.lemma_absent(value, steps);
                }
                return ;
            }
        }
    }

    /// Returns the counter of a stored key, or nothing when the key is
    /// absent, probing in the same order as `add` and changing nothing.
    pub fn get_hits(&mut self, value: u64) -> (res: Option<u64>)
        requires
            old(self).wf(),
        ensures
            *final(self) == *old(self),
            res is Some <==> old(self).contains_key(value),
            res matches Some(count) ==> count as int == old(self)@[value],
    {
        match self.find(value) {
            Some(index) => Some(self.hits[index] as u64),
            None => None,
        }
    }
}

/// The saturating successor of a hit counter.
pub open spec fn counter_bumped(c: int) -> int {
    if c < i64::MAX {
        c + 1
    } else {
        c
    }
}

/// A counter raised `k` times, one call at a time, as `inc_hits` raises the
/// counter of a stored key on each call.
pub open spec fn counter_bumped_times(c: int, k: nat) -> int
    decreases k,
{
    if k == 0 {
        c
    } else {
        counter_bumped(counter_bumped_times(c, (k - 1) as nat))
    }
}

/// Law: every raise adds exactly one, so `k` raises of a counter add `k`,
/// as long as the counter stays representable.
pub proof fn lemma_counter_bumped_times(c: int, k: nat)
    requires
        0 <= c,
        c + k <= i64::MAX,
    ensures
        counter_bumped_times(c, k) == c + k,
    decreases k,
{
    if k > 0 {
        lemma_counter_bumped_times(c, (k - 1) as nat);
    }
}

} // verus!
