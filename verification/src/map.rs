//! Hash map with open addressing and linear probing.
//!
//! Slots are kept in a single `Vec<Slot<K, V>>` whose length is always a
//! power of two so that the probe index can be computed with a bitmask
//! instead of a modulo. Each occupied slot caches its hash to make
//! probing and resize cheap. Removed entries are marked as tombstones so
//! that probes for keys hashed past them keep walking the cluster.
//!
//! When the combined load (occupied + tombstones) reaches 3/4 of the
//! capacity, the table is rebuilt, doubling the backing storage when
//! live entries dominate, or rehashing in place when tombstones do.
use vstd::prelude::*;
use crate::key::{HashKey, key_hash, make_hash};
use vstd::std_specs::iter::IteratorSpec;

verus! {

/// The slot count of a table's first allocation.
pub const MIN_CAPACITY: usize = 8;

/// The largest slot count a table may have before it grows. Every slot
/// holds at least a `u64` hash, so no allocation can hold more slots
/// than this bound.
pub const MAX_SLOTS: usize = usize::MAX / 8;

enum Slot<K, V> {
    Empty,
    Tombstone,
    Occupied { hash: u64, key: K, value: V },
}

enum ProbeResult {
    Found(usize),
    Vacant(usize),
}

// ---------------------------------------------------------------------------
// Views of slots

spec fn slot_key<K: HashKey, V>(s: Slot<K, V>) -> K::V {
    match s {
        Slot::Occupied { key, .. } => key@,
        _ => arbitrary(),
    }
}

spec fn slot_value<K, V>(s: Slot<K, V>) -> V {
    match s {
        Slot::Occupied { value, .. } => value,
        _ => arbitrary(),
    }
}

spec fn slot_hash<K, V>(s: Slot<K, V>) -> u64 {
    match s {
        Slot::Occupied { hash, .. } => hash,
        _ => 0,
    }
}

spec fn occupied_weight<K, V>(s: Slot<K, V>) -> nat {
    if s is Occupied {
        1
    } else {
        0
    }
}

spec fn tombstone_weight<K, V>(s: Slot<K, V>) -> nat {
    if s is Tombstone {
        1
    } else {
        0
    }
}

spec fn occupied_count<K, V>(s: Seq<Slot<K, V>>) -> nat
    decreases s.len(),
{
    if s.len() == 0 {
        0
    } else {
        occupied_weight(s[0]) + occupied_count(s.drop_first())
    }
}

spec fn tombstone_count<K, V>(s: Seq<Slot<K, V>>) -> nat
    decreases s.len(),
{
    if s.len() == 0 {
        0
    } else {
        tombstone_weight(s[0]) + tombstone_count(s.drop_first())
    }
}

/// The occupied entries of `s`, in slot order.
spec fn entries<K, V>(s: Seq<Slot<K, V>>) -> Seq<(K, V)>
    decreases s.len(),
{
    if s.len() == 0 {
        Seq::empty()
    } else {
        match s[0] {
            Slot::Occupied { key, value, .. } => seq![(key, value)] + entries(s.drop_first()),
            _ => entries(s.drop_first()),
        }
    }
}

// ---------------------------------------------------------------------------
// Probe geometry

/// Whether `n` is a power of two.
pub open spec fn is_pow2(n: usize) -> bool {
    n > 0 && n & ((n - 1) as usize) == 0
}

/// The slot at which the probe for a key with hash `h` starts.
spec fn home(h: u64, cap: nat) -> int {
    ((h as usize) & ((cap - 1) as usize)) as int
}

/// How many steps a probe takes to walk from `a` to `b`, wrapping around
/// the end of a table of `cap` slots.
spec fn dist(a: int, b: int, cap: int) -> int {
    if a <= b {
        b - a
    } else {
        b - a + cap
    }
}

/// The probe from `start` to `i` passes only non-empty slots.
spec fn chain_ok<K, V>(s: Seq<Slot<K, V>>, start: int, i: int) -> bool {
    forall|j: int|
        #![trigger s[j]]
        0 <= j < s.len() && dist(start, j, s.len() as int) < dist(start, i, s.len() as int) ==> !(
        s[j] is Empty)
}

/// Slot `i` is the first slot that is not occupied on the probe from
/// `start`: every slot the probe passes before it holds an entry.
spec fn first_free<K, V>(s: Seq<Slot<K, V>>, start: int, i: int) -> bool {
    forall|j: int|
        #![trigger s[j]]
        0 <= j < s.len() && dist(start, j, s.len() as int) < dist(start, i, s.len() as int) ==> s[j] is Occupied
}

/// The shape of a table: counts match the slots, the key index and the
/// slots agree, cached hashes are right, and every entry is reachable by
/// probing from its home slot.
spec fn table_ok<K: HashKey, V>(
    s: Seq<Slot<K, V>>,
    len: nat,
    tombstones: nat,
    ix: Map<K::V, int>,
) -> bool {
    let cap = s.len();
    &&& cap == 0 ==> len == 0 && tombstones == 0
    &&& cap > 0 ==> cap >= 8 && cap <= usize::MAX && is_pow2(cap as usize) && len + tombstones
        < cap
    &&& len == occupied_count(s)
    &&& tombstones == tombstone_count(s)
    &&& ix.dom().finite()
    &&& ix.dom().len() == len
    &&& forall|k: K::V|
        #![trigger ix.dom().contains(k)]
        ix.dom().contains(k) ==> 0 <= ix[k] < cap && s[ix[k]] is Occupied && slot_key(s[ix[k]])
            == k
    &&& forall|i: int|
        #![trigger s[i]]
        0 <= i < cap && s[i] is Occupied ==> {
            &&& ix.dom().contains(slot_key(s[i]))
            &&& ix[slot_key(s[i])] == i
            &&& slot_hash(s[i]) == key_hash::<K>(slot_key(s[i]))
            &&& chain_ok(s, home(slot_hash(s[i]), cap), i)
        }
}

// ---------------------------------------------------------------------------
// Lemmas

proof fn lemma_counts_update<K, V>(s: Seq<Slot<K, V>>, i: int, x: Slot<K, V>)
    requires
        0 <= i < s.len(),
    ensures
        occupied_count(s.update(i, x)) + occupied_weight(s[i]) == occupied_count(s)
            + occupied_weight(x),
        tombstone_count(s.update(i, x)) + tombstone_weight(s[i]) == tombstone_count(s)
            + tombstone_weight(x),
    decreases s.len(),
{
    let u = s.update(i, x);
    if i == 0 {
        assert(u.drop_first() =~= s.drop_first());
    } else {
        assert(u.drop_first() =~= s.drop_first().update(i - 1, x));
        lemma_counts_update(s.drop_first(), i - 1, x);
    }
}

proof fn lemma_counts_bound<K, V>(s: Seq<Slot<K, V>>)
    ensures
        occupied_count(s) + tombstone_count(s) <= s.len(),
    decreases s.len(),
{
    if s.len() > 0 {
        lemma_counts_bound(s.drop_first());
    }
}

proof fn lemma_has_empty<K, V>(s: Seq<Slot<K, V>>) -> (e: int)
    requires
        occupied_count(s) + tombstone_count(s) < s.len(),
    ensures
        0 <= e < s.len(),
        s[e] is Empty,
    decreases s.len(),
{
    if s[0] is Empty {
        0
    } else {
        let e = lemma_has_empty(s.drop_first());
        e + 1
    }
}

proof fn lemma_counts_all_empty<K, V>(s: Seq<Slot<K, V>>)
    requires
        forall|i: int| 0 <= i < s.len() ==> #[trigger] s[i] is Empty,
    ensures
        occupied_count(s) == 0,
        tombstone_count(s) == 0,
    decreases s.len(),
{
    if s.len() > 0 {
        assert forall|i: int| 0 <= i < s.drop_first().len() implies #[trigger] s.drop_first()[i] is Empty by {
            assert(s[i + 1] is Empty);
        }
        lemma_counts_all_empty(s.drop_first());
    }
}

proof fn lemma_mask_bound(x: usize, m: usize)
    by (bit_vector)
    ensures
        x & m <= m,
{
}

proof fn lemma_mask_step(i: usize, n: usize)
    by (bit_vector)
    requires
        n > 0,
        n & ((n - 1) as usize) == 0,
        i < n,
    ensures
        ((i + 1) as usize) & ((n - 1) as usize) == if i + 1 == n {
            0usize
        } else {
            (i + 1) as usize
        },
{
}

proof fn lemma_pow2_double(n: usize, m: usize)
    by (bit_vector)
    requires
        n > 0,
        n & ((n - 1) as usize) == 0,
        m == 2 * n,
    ensures
        m & ((m - 1) as usize) == 0,
{
}

proof fn lemma_pow2_eight()
    ensures
        is_pow2(8usize),
{
    assert(8usize & 7usize == 0) by (bit_vector);
}

proof fn lemma_home_bound(h: u64, cap: nat)
    requires
        0 < cap <= usize::MAX,
    ensures
        0 <= home(h, cap) < cap,
{
    lemma_mask_bound(h as usize, (cap - 1) as usize);
}

/// Facts about the entries of the suffix of a table starting at slot `p`.
proof fn lemma_entries_suffix<K: HashKey, V>(
    s: Seq<Slot<K, V>>,
    len: nat,
    tombstones: nat,
    ix: Map<K::V, int>,
    p: int,
)
    requires
        table_ok(s, len, tombstones, ix),
        0 <= p <= s.len(),
    ensures
        forall|j: int|
            #![trigger entries(s.skip(p))[j]]
            0 <= j < entries(s.skip(p)).len() ==> {
                let e = entries(s.skip(p))[j];
                &&& ix.dom().contains(e.0@)
                &&& p <= ix[e.0@]
                &&& slot_value(s[ix[e.0@]]) == e.1
            },
        forall|j1: int, j2: int|
            0 <= j1 < j2 < entries(s.skip(p)).len() ==> (#[trigger] entries(s.skip(p))[j1]).0@
                != (#[trigger] entries(s.skip(p))[j2]).0@,
        forall|k: K::V|
            #![trigger ix.dom().contains(k)]
            ix.dom().contains(k) && p <= ix[k] ==> exists|j: int|
                0 <= j < entries(s.skip(p)).len() && (#[trigger] entries(s.skip(p))[j]).0@ == k,
    decreases s.len() - p,
{
    let t = s.skip(p);
    if p == s.len() {
        assert(t.len() == 0);
        assert forall|k: K::V| #![trigger ix.dom().contains(k)] ix.dom().contains(k) && p <= ix[k] implies false by {
        }
    } else {
        lemma_entries_suffix(s, len, tombstones, ix, p + 1);
        let r = s.skip(p + 1);
        assert(t.drop_first() =~= r);
        assert(t[0] == s[p]);
        match s[p] {
            Slot::Occupied { key, value, .. } => {
                assert(s[p] is Occupied);
                assert(entries(t) == seq![(key, value)] + entries(r));
                assert(ix[key@] == p);
                assert forall|j: int|
                    #![trigger entries(t)[j]]
                    0 <= j < entries(t).len() implies {
                    let e = entries(t)[j];
                    &&& ix.dom().contains(e.0@)
                    &&& p <= ix[e.0@]
                    &&& slot_value(s[ix[e.0@]]) == e.1
                } by {
                    if j > 0 {
                        assert(entries(t)[j] == entries(r)[j - 1]);
                    }
                }
                assert forall|j1: int, j2: int|
                    0 <= j1 < j2 < entries(t).len() implies (#[trigger] entries(t)[j1]).0@ != (
                    #[trigger] entries(t)[j2]).0@ by {
                    assert(entries(t)[j2] == entries(r)[j2 - 1]);
                    if j1 > 0 {
                        assert(entries(t)[j1] == entries(r)[j1 - 1]);
                    } else {
                        let e = entries(r)[j2 - 1];
                        assert(p + 1 <= ix[e.0@]);
                    }
                }
                assert forall|k: K::V|
                    #![trigger ix.dom().contains(k)]
                    ix.dom().contains(k) && p <= ix[k] implies exists|j: int|
                        0 <= j < entries(t).len() && (#[trigger] entries(t)[j]).0@ == k by {
                    if ix[k] == p {
                        assert(entries(t)[0].0@ == k);
                    } else {
                        let j = choose|j: int|
                            0 <= j < entries(r).len() && (#[trigger] entries(r)[j]).0@ == k;
                        assert(entries(t)[j + 1] == entries(r)[j]);
                    }
                }
            },
            _ => {
                assert(entries(t) == entries(r));
                assert forall|k: K::V|
                    #![trigger ix.dom().contains(k)]
                    ix.dom().contains(k) && p <= ix[k] implies exists|j: int|
                        0 <= j < entries(t).len() && (#[trigger] entries(t)[j]).0@ == k by {
                    assert(ix[k] != p);
                }
            },
        }
    }
}

fn slot_is_empty<K, V>(slot: &Slot<K, V>) -> (b: bool)
    ensures
        b == (*slot is Empty),
{
    match slot {
        Slot::Empty => true,
        _ => false,
    }
}

fn slot_is_occupied<K, V>(slot: &Slot<K, V>) -> (b: bool)
    ensures
        b == (*slot is Occupied),
{
    match slot {
        Slot::Occupied { .. } => true,
        _ => false,
    }
}

/// `slot` holding `x` in place of its value.
spec fn with_value<K, V>(slot: Slot<K, V>, x: V) -> Slot<K, V> {
    match slot {
        Slot::Occupied { hash, key, .. } => Slot::Occupied { hash, key, value: x },
        other => other,
    }
}

/// The map a table stands for.
spec fn table_view<K: HashKey, V>(s: Seq<Slot<K, V>>, ix: Map<K::V, int>) -> Map<K::V, V> {
    Map::new(|k: K::V| ix.dom().contains(k), |k: K::V| slot_value(s[ix[k]]))
}

/// Overwriting the value of an entry keeps the table's shape and updates
/// the map at that entry's key.
proof fn lemma_set_value<K: HashKey, V>(
    s: Seq<Slot<K, V>>,
    len: nat,
    tombstones: nat,
    ix: Map<K::V, int>,
    i: int,
    x: V,
)
    requires
        table_ok(s, len, tombstones, ix),
        0 <= i < s.len(),
        s[i] is Occupied,
    ensures
        table_ok(s.update(i, with_value(s[i], x)), len, tombstones, ix),
        table_view(s.update(i, with_value(s[i], x)), ix) =~= table_view(s, ix).insert(
            slot_key(s[i]),
            x,
        ),
{
    let s2 = s.update(i, with_value(s[i], x));
    lemma_counts_update(s, i, s2[i]);
    assert forall|j: int| #![trigger s2[j]] 0 <= j < s2.len() && s2[j] is Occupied implies chain_ok(
        s2,
        home(slot_hash(s2[j]), s2.len()),
        j,
    ) by {
        assert(s[j] is Occupied);
        assert(chain_ok(s, home(slot_hash(s[j]), s.len()), j));
        assert forall|m: int|
            #![trigger s2[m]]
            0 <= m < s2.len() && dist(home(slot_hash(s2[j]), s2.len()), m, s2.len() as int) < dist(
                home(slot_hash(s2[j]), s2.len()),
                j,
                s2.len() as int,
            ) implies !(s2[m] is Empty) by {
            assert(!(s[m] is Empty));
        }
    }
    assert forall|k: K::V| #![trigger ix.dom().contains(k)] ix.dom().contains(k) implies 0 <= ix[k]
        < s2.len() && s2[ix[k]] is Occupied && slot_key(s2[ix[k]]) == k by {
    }
    assert(ix[slot_key(s[i])] == i);
}

/// Placing a new key in a free slot that its probe reaches keeps the
/// table's shape and adds the entry to the map.
proof fn lemma_place_new<K: HashKey, V>(
    s: Seq<Slot<K, V>>,
    len: nat,
    tombstones: nat,
    ix: Map<K::V, int>,
    i: int,
    hash: u64,
    key: K,
    value: V,
)
    requires
        table_ok(s, len, tombstones, ix),
        0 <= i < s.len(),
        !(s[i] is Occupied),
        !ix.dom().contains(key@),
        hash == key_hash::<K>(key@),
        chain_ok(s, home(hash, s.len()), i),
        len + tombstones + 1 < s.len(),
    ensures
        tombstones >= tombstone_weight(s[i]),
        table_ok(
            s.update(i, Slot::Occupied { hash, key, value }),
            len + 1,
            (tombstones - tombstone_weight(s[i])) as nat,
            ix.insert(key@, i),
        ),
        table_view(s.update(i, Slot::Occupied { hash, key, value }), ix.insert(key@, i))
            =~= table_view(s, ix).insert(key@, value),
{
    let s2 = s.update(i, Slot::Occupied { hash, key, value });
    let ix2 = ix.insert(key@, i);
    lemma_counts_update(s, i, s2[i]);
    assert(ix2.dom() =~= ix.dom().insert(key@));
    assert forall|k: K::V| #![trigger ix2.dom().contains(k)] ix2.dom().contains(k) implies 0
        <= ix2[k] < s2.len() && s2[ix2[k]] is Occupied && slot_key(s2[ix2[k]]) == k by {
        if k != key@ {
            assert(ix.dom().contains(k));
        }
    }
    assert forall|j: int| #![trigger s2[j]] 0 <= j < s2.len() && s2[j] is Occupied implies {
        &&& ix2.dom().contains(slot_key(s2[j]))
        &&& ix2[slot_key(s2[j])] == j
        &&& slot_hash(s2[j]) == key_hash::<K>(slot_key(s2[j]))
        &&& chain_ok(s2, home(slot_hash(s2[j]), s2.len()), j)
    } by {
        if j != i {
            assert(s2[j] == s[j]);
            assert(ix.dom().contains(slot_key(s[j])));
            assert(chain_ok(s, home(slot_hash(s[j]), s.len()), j));
        }
        assert forall|m: int|
            #![trigger s2[m]]
            0 <= m < s2.len() && dist(home(slot_hash(s2[j]), s2.len()), m, s2.len() as int) < dist(
                home(slot_hash(s2[j]), s2.len()),
                j,
                s2.len() as int,
            ) implies !(s2[m] is Empty) by {
            assert(!(s[m] is Empty));
        }
    }
    assert forall|k: K::V| #[trigger] table_view(s2, ix2).contains_key(k) implies table_view(s2, ix2)[k]
        == table_view(s, ix).insert(key@, value)[k] by {
        if k != key@ {
            assert(ix.dom().contains(k));
        }
    }
}

/// Builds `cap` empty slots.
fn empty_slots<K, V>(cap: usize) -> (v: std::vec::Vec<Slot<K, V>>)
    ensures
        v@.len() == cap,
        forall|i: int| 0 <= i < cap ==> #[trigger] v@[i] is Empty,
        occupied_count(v@) == 0,
        tombstone_count(v@) == 0,
{
    let mut v = std::vec::Vec::with_capacity(cap);
    let mut n: usize = 0;
    while n < cap
        invariant
            n <= cap,
            v@.len() == n,
            forall|i: int| 0 <= i < n ==> #[trigger] v@[i] is Empty,
        decreases cap - n,
    {
        v.push(Slot::Empty);
        n = n + 1;
    }
    proof {
        lemma_counts_all_empty(v@);
    }
    v
}

/// The smallest power of two that is at least `n`.
fn next_power_of_two(n: usize) -> (p: usize)
    requires
        n <= usize::MAX / 4,
    ensures
        is_pow2(p),
        n <= p,
        p == 1 || p / 2 < n,
{
    let mut p: usize = 1;
    proof {
        assert(1usize & 0usize == 0) by (bit_vector);
    }
    while p < n
        invariant
            is_pow2(p),
            p <= usize::MAX / 2,
            p == 1 || p / 2 < n,
            n <= usize::MAX / 4,
        decreases usize::MAX - p,
    {
        proof {
            lemma_pow2_double(p, (p * 2) as usize);
        }
        p = p * 2;
    }
    p
}

pub struct HashMap<K: HashKey, V> {
    slots: std::vec::Vec<Slot<K, V>>,
    len: usize,
    tombstones: usize,
    /// Where each key sits among the slots.
    index: Ghost<Map<K::V, int>>,
}

impl<K: HashKey, V> View for HashMap<K, V> {
    type V = Map<K::V, V>;

    /// The map from each key's view to its value.
    closed spec fn view(&self) -> Map<K::V, V> {
        table_view(self.slots@, self.index@)
    }
}

impl<K: HashKey, V> HashMap<K, V> {
    /// The table invariant.
    pub closed spec fn wf(&self) -> bool {
        &&& table_ok(self.slots@, self.len as nat, self.tombstones as nat, self.index@)
        &&& self.slots@.len() <= MAX_SLOTS
    }

    /// Whether inserting a key with view `k` that the map lacks fills a
    /// tombstone: the first slot without an entry on the key's probe holds
    /// one.
    pub closed spec fn reuses_tombstone(&self, k: K::V) -> bool {
        let s = self.slots@;
        exists|i: int|
            0 <= i < s.len() && #[trigger] s[i] is Tombstone && first_free(
                s,
                home(key_hash::<K>(k), s.len()),
                i,
            )
    }

    /// The number of slots.
    pub closed spec fn slot_count(&self) -> nat {
        self.slots@.len()
    }

    /// Occupied slots plus tombstones: what the resize threshold counts.
    pub closed spec fn load(&self) -> nat {
        (self.len + self.tombstones) as nat
    }

    /// Whether the next insertion rebuilds the table first.
    pub open spec fn over_threshold(&self) -> bool {
        self.slot_count() == 0 || self.load() * 4 >= self.slot_count() * 3
    }

    /// The number of slots after a rebuild: the minimum for an empty
    /// table, double when live entries fill at least half the slots, and
    /// unchanged when tombstones dominate.
    pub open spec fn rebuilt_slot_count(&self) -> nat {
        if self.slot_count() == 0 {
            MIN_CAPACITY as nat
        } else if self@.len() * 2 >= self.slot_count() {
            self.slot_count() * 2
        } else {
            self.slot_count()
        }
    }

    /// The entries in slot order, which is the order `iter` yields them.
    pub closed spec fn entry_seq(&self) -> Seq<(K, V)> {
        entries(self.slots@)
    }

    proof fn lemma_view_len(&self)
        requires
            self.wf(),
        ensures
            self@.dom() =~= self.index@.dom(),
            self@.len() == self.len,
            self.load() == self.len + self.tombstones,
    {
        assert(self@.dom() =~= self.index@.dom());
    }

    /// The slot count is zero or a power of two of at least the minimum,
    /// and at least one slot is always empty.
    pub proof fn lemma_table_shape(&self)
        requires
            self.wf(),
        ensures
            self.slot_count() == 0 || (is_pow2(self.slot_count() as usize) && self.slot_count()
                >= MIN_CAPACITY),
            self.slot_count() == 0 || self.load() < self.slot_count(),
            self@.len() <= self.load(),
            self.slot_count() == 0 ==> self@.len() == 0 && self.load() == 0,
            self.slot_count() <= usize::MAX,
    {
        assert(self.slots.len() == self.slots@.len());
        self.lemma_view_len();
    }

    pub fn new() -> (map: Self)
        ensures
            map.wf(),
            map@ =~= Map::empty(),
            map.slot_count() == 0,
            map.load() == 0,
    {
        Self { slots: std::vec::Vec::new(), len: 0, tombstones: 0, index: Ghost(Map::empty()) }
    }

    /// A map with room for `capacity` entries before its first rebuild.
    pub fn with_capacity(capacity: usize) -> (map: Self)
        requires
            capacity <= MAX_SLOTS / 4,
        ensures
            map.wf(),
            map@ =~= Map::empty(),
            map.load() == 0,
            capacity == 0 ==> map.slot_count() == 0,
            capacity > 0 ==> {
                let needed = capacity * 4 / 3 + 1;
                &&& is_pow2(map.slot_count() as usize)
                &&& map.slot_count() >= needed
                &&& map.slot_count() >= MIN_CAPACITY
                &&& map.slot_count() == MIN_CAPACITY || map.slot_count() / 2 < needed
                &&& map.slot_count() * 3 > capacity * 4
            },
            map.slot_count() <= MAX_SLOTS,
    {
        if capacity == 0 {
            return Self::new();
        }
        let needed = capacity * 4 / 3 + 1;
        let p = next_power_of_two(needed);
        let cap = if p > MIN_CAPACITY {
            p
        } else {
            MIN_CAPACITY
        };
        proof {
            lemma_pow2_eight();
        }
        let slots = empty_slots(cap);
        let map = Self { slots, len: 0, tombstones: 0, index: Ghost(Map::empty()) };
        proof {
            assert(map.index@.dom() =~= Set::empty());
        }
        map
    }

    pub fn len(&self) -> (n: usize)
        requires
            self.wf(),
        ensures
            n == self@.len(),
    {
        proof {
            self.lemma_view_len();
        }
        self.len
    }

    pub fn is_empty(&self) -> (b: bool)
        requires
            self.wf(),
        ensures
            b == (self@.len() == 0),
    {
        proof {
            self.lemma_view_len();
        }
        self.len == 0
    }

    /// The number of slots in the table.
    pub fn capacity(&self) -> (n: usize)
        ensures
            n == self.slot_count(),
    {
        self.slots.len()
    }

    /// The entries in slot order hold each key of the map once, with its
    /// value.
    pub proof fn lemma_entry_seq(&self)
        requires
            self.wf(),
        ensures
            forall|j: int|
                #![trigger self.entry_seq()[j]]
                0 <= j < self.entry_seq().len() ==> self@.contains_key(self.entry_seq()[j].0@)
                    && self@[self.entry_seq()[j].0@] == self.entry_seq()[j].1,
            forall|j1: int, j2: int|
                0 <= j1 < j2 < self.entry_seq().len() ==> (#[trigger] self.entry_seq()[j1]).0@
                    != (#[trigger] self.entry_seq()[j2]).0@,
            forall|k: K::V|
                #[trigger] self@.contains_key(k) ==> exists|j: int|
                    0 <= j < self.entry_seq().len() && (#[trigger] self.entry_seq()[j]).0@ == k,
    {
        assert(self.slots@.skip(0) =~= self.slots@);
        lemma_entries_suffix(self.slots@, self.len as nat, self.tombstones as nat, self.index@, 0);
        assert forall|k: K::V| #[trigger] self@.contains_key(k) implies exists|j: int|
            0 <= j < self.entry_seq().len() && (#[trigger] self.entry_seq()[j]).0@ == k by {
            assert(self.index@.dom().contains(k));
            let t = self.slots@.skip(0);
            let j = choose|j: int| 0 <= j < entries(t).len() && (#[trigger] entries(t)[j]).0@ == k;
            assert(self.entry_seq()[j] == entries(t)[j]);
        }
    }

    /// An iterator over the entries in slot order.
    pub fn iter(&self) -> (it: Iter<'_, K, V>)
        ensures
            it.wf(),
            it.remaining() == self.entry_seq(),
    {
        let it = Iter { slots: &self.slots, pos: 0 };
        proof {
            assert(self.slots@.skip(0) =~= self.slots@);
        }
        it
    }

    /// References to the entries in slot order.
    fn entry_refs(&self) -> (r: std::vec::Vec<(&K, &V)>)
        ensures
            r@.len() == self.entry_seq().len(),
            forall|j: int|
                0 <= j < r@.len() ==> *(#[trigger] r@[j]).0 == self.entry_seq()[j].0 && *r@[j].1
                    == self.entry_seq()[j].1,
    {
        let ghost es = self.entry_seq();
        let mut r: std::vec::Vec<(&K, &V)> = std::vec::Vec::new();
        let mut it = self.iter();
        proof {
            assert(es.skip(0) =~= es);
        }
        loop
            invariant
                it.wf(),
                r@.len() <= es.len(),
                it.remaining() == es.skip(r@.len() as int),
                forall|j: int|
                    0 <= j < r@.len() ==> *(#[trigger] r@[j]).0 == es[j].0 && *r@[j].1 == es[j].1,
            ensures
                r@.len() == es.len(),
                forall|j: int|
                    0 <= j < r@.len() ==> *(#[trigger] r@[j]).0 == es[j].0 && *r@[j].1 == es[j].1,
            decreases it.remaining().len(),
        {
            let ghost n = r@.len() as int;
            match it.next() {
                Some(e) => {
                    proof {
                        assert(es.skip(n).drop_first() =~= es.skip(n + 1));
                        assert(es.skip(n)[0] == es[n]);
                    }
                    r.push(e);
                },
                None => {
                    break ;
                },
            }
        }
        r
    }
}

impl<'a, K: HashKey, V> IntoIterator for &'a HashMap<K, V> {
    type Item = (&'a K, &'a V);

    type IntoIter = std::vec::IntoIter<(&'a K, &'a V)>;

    /// The entries in slot order.
    fn into_iter(self) -> (it: std::vec::IntoIter<(&'a K, &'a V)>)
        ensures
            it.remaining().len() == self.entry_seq().len(),
            forall|j: int|
                0 <= j < it.remaining().len() ==> *(#[trigger] it.remaining()[j]).0
                    == self.entry_seq()[j].0 && *it.remaining()[j].1 == self.entry_seq()[j].1,
    {
        self.entry_refs().into_iter()
    }
}

impl<K: HashKey, V> HashMap<K, V> {
    /// Inserts `value` under `key`, returning the value it replaces.
    pub fn insert(&mut self, key: K, value: V) -> (r: Option<V>)
        requires
            old(self).wf(),
            old(self).over_threshold() ==> old(self).rebuilt_slot_count() <= MAX_SLOTS,
        ensures
            final(self).wf(),
            final(self)@ == old(self)@.insert(key@, value),
            r == if old(self)@.contains_key(key@) {
                Some(old(self)@[key@])
            } else {
                None
            },
            final(self).slot_count() == if old(self).over_threshold() {
                old(self).rebuilt_slot_count()
            } else {
                old(self).slot_count()
            },
            !old(self).over_threshold() && old(self)@.contains_key(key@) ==> final(self).load()
                == old(self).load(),
            !old(self).over_threshold() && !old(self)@.contains_key(key@) ==> final(self).load()
                == old(self).load() + if old(self).reuses_tombstone(key@) {
                0nat
            } else {
                1nat
            },
            old(self).over_threshold() ==> final(self).load() == final(self)@.len(),
            old(self).over_threshold() ==> final(self).load() * 4 < final(self).slot_count() * 3
                + 4,
    {
        if self.needs_resize() {
            self.resize();
        }
        proof {
            lemma_home_bound(key_hash::<K>(key@), self.slots@.len());
        }
        let hash = make_hash(&key);
        match self.probe(hash, &key) {
            ProbeResult::Found(idx) => {
                let ghost s = self.slots@;
                let mut value = value;
                match &mut self.slots[idx] {
                    Slot::Occupied { value: v, .. } => {
                        std::mem::swap(v, &mut value);
                    },
                    _ => {},
                }
                proof {
                    lemma_set_value(
                        s,
                        self.len as nat,
                        self.tombstones as nat,
                        self.index@,
                        idx as int,
                        slot_value(self.slots@[idx as int]),
                    );
                    assert(self.slots@ =~= s.update(
                        idx as int,
                        with_value(s[idx as int], slot_value(self.slots@[idx as int])),
                    ));
                    self.lemma_view_len();
                    old(self).lemma_view_len();
                }
                Some(value)
            },
            ProbeResult::Vacant(idx) => {
                let ghost s = self.slots@;
                let ghost key_view = key@;
                let was_tombstone = match self.slots[idx] {
                    Slot::Tombstone => true,
                    _ => false,
                };
                proof {
                    lemma_place_new(
                        s,
                        self.len as nat,
                        self.tombstones as nat,
                        self.index@,
                        idx as int,
                        hash,
                        key,
                        value,
                    );
                }
                self.slots.set(idx, Slot::Occupied { hash, key, value });
                self.len = self.len + 1;
                if was_tombstone {
                    self.tombstones = self.tombstones - 1;
                }
                proof {
                    self.index@ = self.index@.insert(key_view, idx as int);
                    self.lemma_view_len();
                    old(self).lemma_view_len();
                    if !old(self).over_threshold() {
                        let st = home(hash, s.len());
                        if was_tombstone {
                            assert(old(self).reuses_tombstone(key_view));
                        } else if old(self).reuses_tombstone(key_view) {
                            let i = choose|i: int|
                                0 <= i < s.len() && #[trigger] s[i] is Tombstone && first_free(
                                    s,
                                    st,
                                    i,
                                );
                            assert(!(s[i] is Occupied));
                            assert(s[idx as int] is Empty);
                        }
                    }
                }
                None
            },
        }
    }

    /// The value stored under `key`, if any.
    pub fn get(&self, key: &K) -> (r: Option<&V>)
        requires
            self.wf(),
        ensures
            r == if self@.contains_key(key@) {
                Some(&self@[key@])
            } else {
                None
            },
    {
        if self.slots.len() == 0 {
            return None;
        }
        proof {
            lemma_home_bound(key_hash::<K>(key@), self.slots@.len());
        }
        let hash = make_hash(key);
        match self.probe(hash, key) {
            ProbeResult::Found(idx) => match &self.slots[idx] {
                Slot::Occupied { value, .. } => Some(value),
                _ => None,
            },
            ProbeResult::Vacant(_) => None,
        }
    }

    /// A mutable reference to the value stored under `key`, if any.
    pub fn get_mut(&mut self, key: &K) -> (r: Option<&mut V>)
        requires
            old(self).wf(),
        ensures
            final(self).wf(),
            old(self)@.contains_key(key@) ==> {
                &&& r is Some
                &&& *r->0 == old(self)@[key@]
                &&& final(self)@ == old(self)@.insert(key@, *final(r->0))
            },
            !old(self)@.contains_key(key@) ==> r is None && final(self)@ == old(self)@,
            final(self).slot_count() == old(self).slot_count(),
            final(self).load() == old(self).load(),
    {
        if self.slots.len() == 0 {
            return None;
        }
        proof {
            lemma_home_bound(key_hash::<K>(key@), self.slots@.len());
        }
        let hash = make_hash(key);
        match self.probe(hash, key) {
            ProbeResult::Found(idx) => {
                let ghost s = self.slots@;
                let ghost h = slot_hash(s[idx as int]);
                let ghost kk = match s[idx as int] {
                    Slot::Occupied { key, .. } => key,
                    _ => arbitrary(),
                };
                let ghost len = self.len as nat;
                let ghost tombstones = self.tombstones as nat;
                let ghost ix = self.index@;
                proof {
                    assert forall|x: V|
                        #[trigger] table_ok(
                            s.update(idx as int, Slot::Occupied { hash: h, key: kk, value: x }),
                            len,
                            tombstones,
                            ix,
                        ) by {
                        lemma_set_value(s, len, tombstones, ix, idx as int, x);
                        assert(with_value(s[idx as int], x) == Slot::Occupied {
                            hash: h,
                            key: kk,
                            value: x,
                        });
                    }
                    assert forall|x: V|
                        #[trigger] table_view(
                            s.update(idx as int, Slot::Occupied { hash: h, key: kk, value: x }),
                            ix,
                        ) == table_view(s, ix).insert(key@, x) by {
                        lemma_set_value(s, len, tombstones, ix, idx as int, x);
                        assert(with_value(s[idx as int], x) == Slot::Occupied {
                            hash: h,
                            key: kk,
                            value: x,
                        });
                    }
                }
                let r = match &mut self.slots[idx] {
                    Slot::Occupied { value, .. } => Some(value),
                    _ => None,
                };
                r
            },
            ProbeResult::Vacant(_) => None,
        }
    }

    pub fn contains_key(&self, key: &K) -> (b: bool)
        requires
            self.wf(),
        ensures
            b == self@.contains_key(key@),
    {
        self.get(key).is_some()
    }

    /// Removes `key`, returning the value it held.
    pub fn remove(&mut self, key: &K) -> (r: Option<V>)
        requires
            old(self).wf(),
        ensures
            final(self).wf(),
            final(self)@ == old(self)@.remove(key@),
            r == if old(self)@.contains_key(key@) {
                Some(old(self)@[key@])
            } else {
                None
            },
            final(self).slot_count() == old(self).slot_count(),
            final(self).load() == old(self).load(),
    {
        if self.slots.len() == 0 {
            proof {
                assert(old(self)@ =~= old(self)@.remove(key@));
            }
            return None;
        }
        proof {
            lemma_home_bound(key_hash::<K>(key@), self.slots@.len());
        }
        let hash = make_hash(key);
        match self.probe(hash, key) {
            ProbeResult::Found(idx) => {
                let ghost s = self.slots@;
                let mut slot = Slot::Tombstone;
                std::mem::swap(&mut self.slots[idx], &mut slot);
                self.len = self.len - 1;
                self.tombstones = self.tombstones + 1;
                proof {
                    let s2 = self.slots@;
                    let ix0 = self.index@;
                    lemma_counts_update(s, idx as int, Slot::Tombstone);
                    self.index@ = ix0.remove(key@);
                    let ix = self.index@;
                    assert(ix.dom() =~= ix0.dom().remove(key@));
                    assert forall|k: K::V| #![trigger ix.dom().contains(k)] ix.dom().contains(
                        k,
                    ) implies 0 <= ix[k] < s2.len() && s2[ix[k]] is Occupied && slot_key(s2[ix[k]])
                        == k by {
                        assert(ix0.dom().contains(k));
                        assert(ix0[k] != idx);
                    }
                    assert forall|i: int| #![trigger s2[i]] 0 <= i < s2.len() && s2[i] is Occupied implies {
                        &&& ix.dom().contains(slot_key(s2[i]))
                        &&& ix[slot_key(s2[i])] == i
                        &&& slot_hash(s2[i]) == key_hash::<K>(slot_key(s2[i]))
                        &&& chain_ok(s2, home(slot_hash(s2[i]), s2.len()), i)
                    } by {
                        assert(s2[i] == s[i]);
                        assert(ix0.dom().contains(slot_key(s[i])));
                        assert(chain_ok(s, home(slot_hash(s[i]), s.len()), i));
                        assert forall|j: int|
                            #![trigger s2[j]]
                            0 <= j < s2.len() && dist(
                                home(slot_hash(s2[i]), s2.len()),
                                j,
                                s2.len() as int,
                            ) < dist(home(slot_hash(s2[i]), s2.len()), i, s2.len() as int) implies !(
                        s2[j] is Empty) by {
                            assert(!(s[j] is Empty));
                        }
                    }
                    assert(self@ =~= old(self)@.remove(key@));
                }
                match slot {
                    Slot::Occupied { value, .. } => Some(value),
                    _ => None,
                }
            },
            ProbeResult::Vacant(_) => {
                proof {
                    assert(old(self)@ =~= old(self)@.remove(key@));
                }
                None
            },
        }
    }

    fn needs_resize(&self) -> (b: bool)
        requires
            self.wf(),
        ensures
            b == self.over_threshold(),
    {
        if self.slots.len() == 0 {
            return true;
        }
        (self.len + self.tombstones) * 4 >= self.slots.len() * 3
    }

    fn resize(&mut self)
        requires
            old(self).wf(),
            old(self).rebuilt_slot_count() <= MAX_SLOTS,
        ensures
            final(self).wf(),
            final(self)@ == old(self)@,
            final(self).slot_count() == old(self).rebuilt_slot_count(),
            final(self).load() == old(self)@.len(),
            final(self).load() * 4 < final(self).slot_count() * 3,
    {
        proof {
            self.lemma_view_len();
        }
        let new_cap = if self.slots.len() == 0 {
            MIN_CAPACITY
        } else if self.len * 2 >= self.slots.len() {
            self.slots.len() * 2
        } else {
            self.slots.len()
        };
        proof {
            lemma_pow2_eight();
            if self.slots@.len() > 0 && self.len * 2 >= self.slots@.len() {
                lemma_pow2_double(self.slots@.len() as usize, (self.slots@.len() * 2) as usize);
            }
        }
        let ghost old_index = self.index@;
        let mut prev = empty_slots(new_cap);
        std::mem::swap(&mut self.slots, &mut prev);
        self.len = 0;
        self.tombstones = 0;
        self.index = Ghost(Map::empty());
        let ghost old_s = prev@;
        proof {
            assert(self.index@.dom() =~= Set::empty());
        }
        let mut i: usize = 0;
        while i < prev.len()
            invariant
                old_s.len() == prev@.len(),
                table_ok(old_s, old(self).len as nat, old(self).tombstones as nat, old_index),
                old(self).slots@ == old_s,
                self.slots@.len() == new_cap,
                new_cap >= 8,
                is_pow2(new_cap),
                old(self).len < new_cap,
                self.len <= old(self).len,
                self.tombstones == 0,
                i <= old_s.len(),
                forall|t: int| i <= t < old_s.len() ==> #[trigger] prev@[t] == old_s[t],
                self.wf(),
                forall|k: K::V|
                    #![trigger self.index@.dom().contains(k)]
                    self.index@.dom().contains(k) <==> old_index.dom().contains(k) && old_index[k]
                        < i,
                forall|k: K::V|
                    #![trigger self.index@.dom().contains(k)]
                    self.index@.dom().contains(k) ==> table_view(self.slots@, self.index@)[k]
                        == table_view(old_s, old_index)[k],
                self.len == self.index@.dom().len(),
            decreases old_s.len() - i,
        {
            let mut slot = Slot::Empty;
            std::mem::swap(&mut prev[i], &mut slot);
            proof {
                assert(slot == old_s[i as int]);
            }
            match slot {
                Slot::Occupied { hash, key, value } => {
                    proof {
                        assert(old_index.dom().contains(key@));
                        assert(old_index[key@] == i);
                        assert(!self.index@.dom().contains(key@));
                        assert(old_index.dom().len() == old(self).len);
                        vstd::set_lib::lemma_len_subset(
                            self.index@.dom().insert(key@),
                            old_index.dom(),
                        );
                        lemma_home_bound(hash, self.slots@.len());
                    }
                    let idx = self.probe_empty(hash);
                    let ghost s = self.slots@;
                    let ghost ix0 = self.index@;
                    let ghost key_view = key@;
                    proof {
                        lemma_place_new(s, self.len as nat, 0, ix0, idx as int, hash, key, value);
                    }
                    self.slots.set(idx, Slot::Occupied { hash, key, value });
                    self.len = self.len + 1;
                    proof {
                        self.index@ = ix0.insert(key_view, idx as int);
                        let ix = self.index@;
                        assert forall|k: K::V|
                            #![trigger ix.dom().contains(k)]
                            ix.dom().contains(k) <==> old_index.dom().contains(k) && old_index[k]
                                < i + 1 by {
                            if old_index.dom().contains(k) && old_index[k] == i {
                                assert(slot_key(old_s[i as int]) == k);
                            }
                        }
                        assert forall|k: K::V|
                            #![trigger ix.dom().contains(k)]
                            ix.dom().contains(k) implies table_view(self.slots@, ix)[k]
                                == table_view(old_s, old_index)[k] by {
                            if k != key_view {
                                assert(ix0.dom().contains(k));
                            }
                        }
                    }
                },
                _ => {
                    proof {
                        assert forall|k: K::V|
                            #![trigger self.index@.dom().contains(k)]
                            self.index@.dom().contains(k) <==> old_index.dom().contains(k)
                                && old_index[k] < i + 1 by {
                            if old_index.dom().contains(k) && old_index[k] == i {
                                assert(old_s[i as int] is Occupied);
                            }
                        }
                    }
                },
            }
            i = i + 1;
        }
        proof {
            assert(self.index@.dom() =~= old_index.dom());
            assert(self@ =~= old(self)@);
        }
    }

    /// Finds where the probe for `key` ends: the slot holding `key`, or
    /// else the first reusable slot on its way.
    fn probe(&self, hash: u64, key: &K) -> (r: ProbeResult)
        requires
            self.wf(),
            self.slots@.len() > 0,
            hash == key_hash::<K>(key@),
        ensures
            match r {
                ProbeResult::Found(i) => {
                    &&& i < self.slots@.len()
                    &&& self.index@.dom().contains(key@)
                    &&& self.index@[key@] == i
                },
                ProbeResult::Vacant(i) => {
                    &&& i < self.slots@.len()
                    &&& !self.index@.dom().contains(key@)
                    &&& !(self.slots@[i as int] is Occupied)
                    &&& chain_ok(self.slots@, home(hash, self.slots@.len()), i as int)
                    &&& first_free(self.slots@, home(hash, self.slots@.len()), i as int)
                },
            },
    {
        let ghost s = self.slots@;
        let ghost cap = s.len() as int;
        let mask = self.slots.len() - 1;
        let mut idx = (hash as usize) & mask;
        let mut first_tombstone: Option<usize> = None;
        let ghost start = idx as int;
        let ghost mut steps: int = 0;
        proof {
            lemma_mask_bound(hash as usize, mask);
            lemma_counts_bound(s);
        }
        let ghost e = lemma_has_empty(s);
        loop
            invariant
                self.wf(),
                s == self.slots@,
                cap == s.len(),
                cap > 0,
                mask == cap - 1,
                is_pow2(cap as usize),
                start == home(hash, cap as nat),
                0 <= start < cap,
                idx < cap,
                0 <= steps < cap,
                steps == dist(start, idx as int, cap),
                hash == key_hash::<K>(key@),
                0 <= e < cap,
                s[e] is Empty,
                forall|j: int|
                    #![trigger s[j]]
                    0 <= j < cap && dist(start, j, cap) < steps ==> !(s[j] is Empty) && (
                    s[j] is Occupied ==> slot_key(s[j]) != key@),
                first_tombstone matches Some(t) ==> t < cap && dist(start, t as int, cap) < steps
                    && s[t as int] is Tombstone && first_free(s, start, t as int),
                first_tombstone is None ==> forall|j: int|
                    #![trigger s[j]]
                    0 <= j < cap && dist(start, j, cap) < steps ==> s[j] is Occupied,
            decreases cap - steps,
        {
            match &self.slots[idx] {
                Slot::Empty => {
                    proof {
                        if self.index@.dom().contains(key@) {
                            let i0 = self.index@[key@];
                            assert(s[i0] is Occupied);
                            assert(chain_ok(s, home(slot_hash(s[i0]), s.len()), i0));
                            assert(!(s[idx as int] is Empty));
                        }
                    }
                    return ProbeResult::Vacant(first_tombstone.unwrap_or(idx));
                },
                Slot::Tombstone => {
                    if first_tombstone.is_none() {
                        first_tombstone = Some(idx);
                    }
                },
                Slot::Occupied { hash: h, key: k, .. } => {
                    if *h == hash && k.key_eq(key) {
                        return ProbeResult::Found(idx);
                    }
                },
            }
            proof {
                lemma_mask_step(idx, cap as usize);
                assert(dist(start, e, cap) > steps);
            }
            idx = (idx + 1) & mask;
            proof {
                steps = steps + 1;
            }
        }
    }

    /// The first empty slot on the probe sequence for `hash`.
    fn probe_empty(&self, hash: u64) -> (idx: usize)
        requires
            self.wf(),
            self.slots@.len() > 0,
            self.len + self.tombstones + 1 < self.slots@.len(),
        ensures
            idx < self.slots@.len(),
            self.slots@[idx as int] is Empty,
            chain_ok(self.slots@, home(hash, self.slots@.len()), idx as int),
    {
        let ghost s = self.slots@;
        let ghost cap = s.len() as int;
        let mask = self.slots.len() - 1;
        let mut idx = (hash as usize) & mask;
        let ghost start = idx as int;
        let ghost mut steps: int = 0;
        proof {
            lemma_mask_bound(hash as usize, mask);
        }
        let ghost e = lemma_has_empty(s);
        while !slot_is_empty(&self.slots[idx])
            invariant
                s == self.slots@,
                cap == s.len(),
                0 < cap <= usize::MAX,
                mask == cap - 1,
                is_pow2(cap as usize),
                start == home(hash, cap as nat),
                idx < cap,
                0 <= steps < cap,
                steps == dist(start, idx as int, cap),
                0 <= e < cap,
                s[e] is Empty,
                forall|j: int|
                    #![trigger s[j]]
                    0 <= j < cap && dist(start, j, cap) < steps ==> !(s[j] is Empty),
            decreases cap - steps,
        {
            proof {
                lemma_mask_step(idx, cap as usize);
                assert(dist(start, e, cap) > steps);
            }
            idx = (idx + 1) & mask;
            proof {
                steps = steps + 1;
            }
        }
        idx
    }
}

impl<K: HashKey, V> Default for HashMap<K, V> {
    fn default() -> (map: Self)
        ensures
            map.wf(),
            map@ =~= Map::empty(),
            map.slot_count() == 0,
    {
        Self::new()
    }
}

/// Walks the entries of a map in slot order.
pub struct Iter<'a, K, V> {
    slots: &'a std::vec::Vec<Slot<K, V>>,
    pos: usize,
}

impl<'a, K, V> Iter<'a, K, V> {
    /// The position is within the table.
    pub closed spec fn wf(&self) -> bool {
        self.pos <= self.slots@.len()
    }

    /// The entries still to come.
    pub closed spec fn remaining(&self) -> Seq<(K, V)> {
        entries(self.slots@.skip(self.pos as int))
    }

    /// The next entry, or `None` once every entry was yielded.
    pub fn next(&mut self) -> (r: Option<(&'a K, &'a V)>)
        requires
            old(self).wf(),
        ensures
            final(self).wf(),
            old(self).remaining().len() == 0 ==> r is None && final(self).remaining() == old(
                self,
            ).remaining(),
            old(self).remaining().len() > 0 ==> {
                &&& r matches Some((k, v))
                &&& *k == old(self).remaining()[0].0
                &&& *v == old(self).remaining()[0].1
                &&& final(self).remaining() == old(self).remaining().drop_first()
            },
    {
        let slots = self.slots;
        while self.pos < slots.len() && !slot_is_occupied(&slots[self.pos])
            invariant
                slots == self.slots,
                self.pos <= slots@.len(),
                self.remaining() == old(self).remaining(),
            decreases slots@.len() - self.pos,
        {
            proof {
                let t = slots@.skip(self.pos as int);
                assert(t.drop_first() =~= slots@.skip(self.pos + 1));
            }
            self.pos = self.pos + 1;
        }
        if self.pos == slots.len() {
            proof {
                assert(slots@.skip(self.pos as int).len() == 0);
            }
            return None;
        }
        let p = self.pos;
        proof {
            let t = slots@.skip(p as int);
            assert(t.drop_first() =~= slots@.skip(p + 1));
        }
        self.pos = self.pos + 1;
        match &slots[p] {
            Slot::Occupied { key, value, .. } => Some((key, value)),
            _ => None,
        }
    }
}

/// What a read gives back after a write: the written value under the
/// written key, and the old value under every other key.
pub proof fn lemma_insert_then_get<K, V>(m: Map<K, V>, k: K, v: V, other: K)
    requires
        other != k,
    ensures
        m.insert(k, v).contains_key(k),
        m.insert(k, v)[k] == v,
        m.insert(k, v).contains_key(other) == m.contains_key(other),
        m.contains_key(other) ==> m.insert(k, v)[other] == m[other],
{
}

/// After a removal the key is gone and every other key keeps its value.
pub proof fn lemma_remove_then_get<K, V>(m: Map<K, V>, k: K, other: K)
    requires
        other != k,
    ensures
        !m.remove(k).contains_key(k),
        m.remove(k).contains_key(other) == m.contains_key(other),
        m.contains_key(other) ==> m.remove(k)[other] == m[other],
{
}

/// A rebuild grows the table only while entries fill at least half of
/// it, so a map whose entries stay under a quarter of `MAX_SLOTS` keeps
/// meeting `insert`'s bound on the slot count.
pub proof fn lemma_slot_count_stays_bounded<K: HashKey, V>(map: HashMap<K, V>)
    requires
        map.wf(),
        map.slot_count() <= MAX_SLOTS,
        map@.len() < MAX_SLOTS / 4,
    ensures
        map.rebuilt_slot_count() <= MIN_CAPACITY || map.rebuilt_slot_count() <= map.slot_count()
            || map.rebuilt_slot_count() <= 4 * map@.len(),
        map.rebuilt_slot_count() <= MAX_SLOTS,
{
}

/// Bounds from `with_capacity`: a map built for `n` entries does not
/// rebuild before its load reaches `n`.
pub proof fn lemma_reserved_load<K: HashKey, V>(map: HashMap<K, V>, n: nat)
    requires
        map.slot_count() * 3 > n * 4,
        map.load() < n,
    ensures
        !map.over_threshold(),
{
}

} // verus!
