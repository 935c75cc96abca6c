//! A hash map from byte strings to `u32` values whose keys and values live
//! inline in a memory arena: `[key_len:u16 LE | key bytes | value:u32 LE]`.
//! Buckets hold only arena addresses, so the table can grow without moving entries.
use vstd::prelude::*;
use vstd::relations::injective_on;
use vstd::set_lib::{lemma_int_range, lemma_len_subset, lemma_map_size, lemma_subset_equality, set_int_range};
use crate::memory_arena::{
    Addr, MemoryArena, NULL_OFFSET, le_u16_bytes, le_u32_value, lemma_le_u16_round_trip,
    lemma_le_u32_round_trip,
};

verus! {

/// A dense id given to each key in order of insertion.
pub type UnorderedId = u32;

/// The size in bytes of a bucket of the table.
pub const KEY_VALUE_SIZE: usize = 12;

/// The memory size in bytes of a table with the given number of buckets.
pub fn compute_table_size(capacity: usize) -> (r: usize)
    requires
        capacity * KEY_VALUE_SIZE <= usize::MAX,
    ensures
        r == capacity * KEY_VALUE_SIZE,
{
    capacity * KEY_VALUE_SIZE
}

/// Whether `x` is a power of two.
pub open spec fn is_power_of_two(x: nat) -> bool
    decreases x,
{
    if x <= 1 {
        x == 1
    } else {
        x % 2 == 0 && is_power_of_two(x / 2)
    }
}

/// The greatest power of two lower or equal to `n`.
pub fn compute_previous_power_of_two(n: usize) -> (r: usize)
    requires
        n > 0,
    ensures
        is_power_of_two(r as nat),
        r <= n < 2 * r,
{
    let mut p: usize = 1;
    while p <= n / 2
        invariant
            1 <= p <= n,
            is_power_of_two(p as nat),
        decreases n - p,
    {
        p = p * 2;
    }
    p
}

/// The MurmurHash2 (32 bits) of a byte string.
pub uninterp spec fn murmur2_of(key: Seq<u8>) -> u32;

/// Relies on `murmurhash32::murmurhash2`: a hash of the bytes alone.
#[verifier::external_body]
pub fn murmurhash2(key: &[u8]) -> (r: u32)
    ensures
        r == murmur2_of(key@),
{
    murmurhash32::murmurhash2(key)
}

/// Whether two byte strings are equal.
fn bytes_equal(a: &[u8], b: &[u8]) -> (r: bool)
    ensures
        r == (a@ == b@),
{
    if a.len() != b.len() {
        return false;
    }
    let mut i: usize = 0;
    while i < a.len()
        invariant
            a@.len() == b@.len(),
            i <= a@.len(),
            a@.take(i as int) == b@.take(i as int),
        decreases a@.len() - i,
    {
        if a[i] != b[i] {
            assert(a@[i as int] != b@[i as int]);
            return false;
        }
        assert(a@.take(i + 1) =~= a@.take(i as int).push(a@[i as int]));
        assert(b@.take(i + 1) =~= b@.take(i as int).push(b@[i as int]));
        i = i + 1;
    }
    assert(a@.take(a@.len() as int) =~= a@);
    assert(b@.take(b@.len() as int) =~= b@);
    true
}

/// A bucket of the table.
#[derive(Clone, Copy)]
struct KeyValue {
    key_value_addr: Addr,
    hash: u32,
    unordered_id: UnorderedId,
}

impl KeyValue {
    spec fn spec_is_empty(self) -> bool {
        self.key_value_addr.offset == NULL_OFFSET
    }

    fn empty() -> (r: KeyValue)
        ensures
            r.spec_is_empty(),
    {
        KeyValue { key_value_addr: Addr::null_pointer(), hash: 0u32, unordered_id: 0 }
    }

    fn is_empty(self) -> (r: bool)
        ensures
            r == self.spec_is_empty(),
    {
        self.key_value_addr.is_null()
    }
}

/// The bucket visited at step `k` of the probe for hash `h`.
pub open spec fn probe_pos(h: u32, k: nat, cap: nat) -> int {
    (h as int + k) % (cap as int)
}

/// The sequence of buckets visited for a hash: `(hash + i) mod capacity`, `i = 1, 2, ...`.
struct QuadraticProbing {
    hash: u64,
    i: u64,
    cap: u64,
}

impl QuadraticProbing {
    fn compute(hash: u32, cap: usize) -> (r: QuadraticProbing)
        requires
            cap > 0,
        ensures
            r.hash == hash,
            r.i == 0,
            r.cap == cap,
    {
        QuadraticProbing { hash: hash as u64, i: 0, cap: cap as u64 }
    }

    fn next_probe(&mut self) -> (r: usize)
        requires
            old(self).cap > 0,
            old(self).i < old(self).cap,
            old(self).hash <= u32::MAX,
            old(self).cap <= usize::MAX,
        ensures
            final(self).i == old(self).i + 1,
            final(self).hash == old(self).hash,
            final(self).cap == old(self).cap,
            r as int == probe_pos(old(self).hash as u32, final(self).i as nat, old(self).cap as nat),
            r < old(self).cap,
    {
        self.i = self.i + 1;
        let bucket = (self.hash as u128 + self.i as u128) % (self.cap as u128);
        bucket as usize
    }
}

/// Distinct steps below the capacity visit distinct buckets.
proof fn lemma_probe_distinct(h: u32, k1: nat, k2: nat, cap: nat)
    requires
        1 <= k1 < k2 <= cap,
    ensures
        probe_pos(h, k1, cap) != probe_pos(h, k2, cap),
{
    let x = h as int + k1;
    let y = h as int + k2;
    let c = cap as int;
    vstd::arithmetic::div_mod::lemma_fundamental_div_mod(x, c);
    vstd::arithmetic::div_mod::lemma_fundamental_div_mod(y, c);
    if x % c == y % c {
        let q1 = x / c;
        let q2 = y / c;
        assert(false) by (nonlinear_arith)
            requires
                x == c * q1 + x % c,
                y == c * q2 + y % c,
                x % c == y % c,
                0 < y - x < c,
        ;
    }
}

/// Where every step of a probe finds an occupied bucket and each occupied
/// bucket belongs to one of `m` entries, there are at least as many entries
/// as buckets.
proof fn lemma_full_probe(table: Seq<KeyValue>, h: u32, owner: Seq<usize>, m: int)
    requires
        table.len() > 0,
        forall|k: nat| 1 <= k <= table.len() ==> !(#[trigger] table[probe_pos(h, k, table.len())]).spec_is_empty(),
        forall|b: int|
            0 <= b < table.len() && !(#[trigger] table[b]).spec_is_empty() ==> table[b].unordered_id < m
                && owner[table[b].unordered_id as int] == b,
        0 <= m <= owner.len(),
    ensures
        table.len() <= m,
{
    let cap = table.len();
    let steps = set_int_range(1, cap as int + 1);
    let buckets = set_int_range(0, cap as int);
    let f = |k: int| probe_pos(h, k as nat, cap);
    lemma_int_range(1, cap as int + 1);
    lemma_int_range(0, cap as int);
    assert(injective_on(f, steps)) by {
        assert forall|k1: int, k2: int|
            steps.contains(k1) && steps.contains(k2) && #[trigger] f(k1) == #[trigger] f(k2) implies k1 == k2 by {
            if k1 < k2 {
                lemma_probe_distinct(h, k1 as nat, k2 as nat, cap);
            } else if k2 < k1 {
                lemma_probe_distinct(h, k2 as nat, k1 as nat, cap);
            }
        }
    }
    let visited = steps.map(f);
    lemma_map_size(steps, visited, f);
    assert(visited.subset_of(buckets)) by {
        assert forall|b: int| visited.contains(b) implies buckets.contains(b) by {
            let k = choose|k: int| steps.contains(k) && f(k) == b;
        }
    }
    lemma_subset_equality(visited, buckets);
    let g = |b: int| table[b].unordered_id as int;
    let ids = set_int_range(0, m);
    lemma_int_range(0, m);
    assert forall|b: int| 0 <= b < cap implies !(#[trigger] table[b]).spec_is_empty() by {
        assert(visited.contains(b));
        let k = choose|k: int| steps.contains(k) && f(k) == b;
        assert(!table[probe_pos(h, k as nat, cap)].spec_is_empty());
    }
    assert(injective_on(g, buckets)) by {
        assert forall|b1: int, b2: int|
            buckets.contains(b1) && buckets.contains(b2) && #[trigger] g(b1) == #[trigger] g(b2) implies b1 == b2 by {
            assert(!table[b1].spec_is_empty());
            assert(!table[b2].spec_is_empty());
        }
    }
    let used = buckets.map(g);
    lemma_map_size(buckets, used, g);
    assert(used.subset_of(ids)) by {
        assert forall|u: int| used.contains(u) implies ids.contains(u) by {
            let b = choose|b: int| buckets.contains(b) && g(b) == u;
            assert(!table[b].spec_is_empty());
        }
    }
    lemma_len_subset(used, ids);
}

/// The first empty bucket on the probe sequence of `hash`, where each
/// occupied bucket belongs to one of fewer than `table.len()` entries.
fn find_empty(table: &Vec<KeyValue>, hash: u32, Ghost(owner): Ghost<Seq<usize>>, Ghost(m): Ghost<int>) -> (r: (
    usize,
    Ghost<nat>,
))
    requires
        0 <= m < table@.len(),
        m <= owner.len(),
        forall|b: int|
            0 <= b < table@.len() && !(#[trigger] table@[b]).spec_is_empty() ==> table@[b].unordered_id < m
                && owner[table@[b].unordered_id as int] == b,
    ensures
        r.0 < table@.len(),
        table@[r.0 as int].spec_is_empty(),
        1 <= r.1@ <= table@.len(),
        probe_pos(hash, r.1@, table@.len()) == r.0,
        forall|k: nat| 1 <= k < r.1@ ==> !(#[trigger] table@[probe_pos(hash, k, table@.len())]).spec_is_empty(),
{
    let cap = table.len();
    let mut probe = QuadraticProbing::compute(hash, cap);
    loop
        invariant
            cap == table@.len(),
            0 <= m < cap,
            m <= owner.len(),
            forall|b: int|
                0 <= b < table@.len() && !(#[trigger] table@[b]).spec_is_empty() ==> table@[b].unordered_id < m
                    && owner[table@[b].unordered_id as int] == b,
            probe.hash == hash,
            probe.cap == cap,
            probe.i <= cap,
            forall|k: nat| 1 <= k <= probe.i ==> !(#[trigger] table@[probe_pos(hash, k, cap as nat)]).spec_is_empty(),
        decreases cap - probe.i,
    {
        if probe.i == cap as u64 {
            proof {
                lemma_full_probe(table@, hash, owner, m);
            }
        }
        let bucket = probe.next_probe();
        if table[bucket].is_empty() {
            return (bucket, Ghost(probe.i as nat));
        }
    }
}

/// The arena holds, at address `a`, the length of `key`, then `key`, then a value.
pub open spec fn stores_entry(arena: Seq<u8>, a: int, key: Seq<u8>) -> bool {
    &&& 0 <= a
    &&& a + 6 + key.len() <= arena.len()
    &&& key.len() <= u16::MAX
    &&& arena.subrange(a, a + 2) == le_u16_bytes(key.len() as u16)
    &&& arena.subrange(a + 2, a + 2 + key.len()) == key
}

/// Customized `HashMap` with byte-string keys stored in a memory arena,
/// inline with their values.
pub struct ArenaHashMap {
    table: Vec<KeyValue>,
    memory_arena: MemoryArena,
    occupied: Vec<usize>,
    len: usize,
    keys: Ghost<Seq<Seq<u8>>>,
    dists: Ghost<Seq<nat>>,
}

impl ArenaHashMap {
    /// The keys, in the order of their ids.
    pub closed spec fn spec_keys(&self) -> Seq<Seq<u8>> {
        self.keys@
    }

    /// The number of bytes the arena holds.
    pub closed spec fn arena_len(&self) -> nat {
        self.memory_arena@.len()
    }

    /// The number of buckets.
    pub closed spec fn capacity(&self) -> nat {
        self.table@.len()
    }

    closed spec fn entry_addr(&self, u: int) -> int {
        self.table@[self.occupied@[u] as int].key_value_addr.offset as int
    }

    /// The arena address of the value of entry `u`.
    pub closed spec fn spec_value_addr(&self, u: int) -> int {
        self.entry_addr(u) + 2 + self.keys@[u].len()
    }

    /// The values, in the order of their ids.
    pub closed spec fn spec_values(&self) -> Seq<u32> {
        Seq::new(
            self.keys@.len(),
            |u: int|
                le_u32_value(
                    self.memory_arena@.subrange(self.spec_value_addr(u), self.spec_value_addr(u) + 4),
                ),
        )
    }

    /// The id of `key`, if it is in the map.
    pub open spec fn id_of(&self, key: Seq<u8>) -> Option<int> {
        if exists|u: int| 0 <= u < self.spec_keys().len() && self.spec_keys()[u] == key {
            Some(choose|u: int| 0 <= u < self.spec_keys().len() && self.spec_keys()[u] == key)
        } else {
            None
        }
    }

    pub closed spec fn wf(&self) -> bool {
        let cap = self.table@.len();
        let n = self.len as int;
        let keys = self.keys@;
        let occ = self.occupied@;
        let arena = self.memory_arena@;
        let table = self.table@;
        &&& cap >= 1
        &&& is_power_of_two(cap)
        &&& occ.len() == n && keys.len() == n && self.dists@.len() == n
        &&& n <= cap
        &&& arena.len() < NULL_OFFSET
        &&& forall|u: int|
            0 <= u < n ==> {
                &&& (#[trigger] occ[u]) < cap
                &&& !table[occ[u] as int].spec_is_empty()
                &&& table[occ[u] as int].unordered_id == u
                &&& table[occ[u] as int].hash == murmur2_of(keys[u])
                &&& 1 <= self.dists@[u] <= cap
                &&& probe_pos(murmur2_of(keys[u]), self.dists@[u], cap) == occ[u]
                &&& stores_entry(arena, self.entry_addr(u), keys[u])
            }
        &&& forall|u: int, k: nat|
            0 <= u < n && 1 <= k < self.dists@[u] ==> !(#[trigger] table[probe_pos(
                murmur2_of(keys[u]),
                k,
                cap,
            )]).spec_is_empty()
        &&& forall|b: int|
            0 <= b < cap && !(#[trigger] table[b]).spec_is_empty() ==> table[b].unordered_id < n
                && occ[table[b].unordered_id as int] == b
        &&& forall|u: int, v: int| 0 <= u < v < n ==> #[trigger] keys[u] != #[trigger] keys[v]
        &&& forall|u: int, v: int|
            0 <= u < v < n ==> #[trigger] self.entry_addr(u) + 6 + keys[u].len()
                <= #[trigger] self.entry_addr(v)
    }

    /// A map with a table of the greatest power of two not above `table_size`.
    pub fn new(table_size: usize) -> (r: ArenaHashMap)
        requires
            table_size > 0,
        ensures
            r.wf(),
            r.spec_keys() == Seq::<Seq<u8>>::empty(),
            r.arena_len() == 0,
            r.capacity() <= table_size < 2 * r.capacity(),
            is_power_of_two(r.capacity()),
    {
        let table_size_power_of_2 = compute_previous_power_of_two(table_size);
        let memory_arena = MemoryArena::new();
        let mut table: Vec<KeyValue> = Vec::with_capacity(table_size_power_of_2);
        let mut i: usize = 0;
        while i < table_size_power_of_2
            invariant
                i <= table_size_power_of_2,
                table@.len() == i,
                forall|b: int| 0 <= b < i ==> (#[trigger] table@[b]).spec_is_empty(),
            decreases table_size_power_of_2 - i,
        {
            table.push(KeyValue::empty());
            i = i + 1;
        }
        ArenaHashMap {
            table,
            memory_arena,
            occupied: Vec::with_capacity(table_size_power_of_2 / 2),
            len: 0,
            keys: Ghost(Seq::empty()),
            dists: Ghost(Seq::empty()),
        }
    }

    /// Reads the value stored at an address of the arena.
    pub fn read(&self, addr: Addr) -> (r: u32)
        requires
            addr.offset + 4 <= self.arena_len(),
        ensures
            forall|u: int|
                0 <= u < self.spec_keys().len() && self.spec_value_addr(u) == addr.offset ==> r
                    == #[trigger] self.spec_values()[u],
    {
        self.memory_arena.read_u32(addr)
    }

    fn probe(&self, hash: u32) -> (r: QuadraticProbing)
        requires
            self.table@.len() > 0,
        ensures
            r.hash == hash,
            r.i == 0,
            r.cap == self.table@.len(),
    {
        QuadraticProbing::compute(hash, self.table.len())
    }

    /// The memory used by the table, in bytes.
    pub fn mem_usage(&self) -> (r: usize)
        requires
            self.capacity() * KEY_VALUE_SIZE <= usize::MAX,
        ensures
            r == self.capacity() * KEY_VALUE_SIZE,
    {
        compute_table_size(self.table.len())
    }

    /// At least one entry per three buckets: the table grows before the next insert.
    fn is_saturated(&self) -> (r: bool)
        requires
            self.wf(),
            self.spec_keys().len() < 0x4000_0000,
        ensures
            r == (3 * self.spec_keys().len() >= self.capacity()),
    {
        self.occupied.len() * 3 >= self.table.len()
    }

    /// Whether the map is empty.
    pub fn is_empty(&self) -> (r: bool)
        requires
            self.wf(),
        ensures
            r == (self.spec_keys().len() == 0),
    {
        self.len() == 0
    }

    /// The number of bytes the arena holds.
    pub fn arena_size(&self) -> (r: usize)
        ensures
            r == self.arena_len(),
    {
        self.memory_arena.len()
    }

    /// There is one value per key.
    pub proof fn lemma_values_len(&self)
        ensures
            self.spec_values().len() == self.spec_keys().len(),
    {
    }

    /// No two entries have the same key.
    pub proof fn lemma_keys_distinct(&self)
        requires
            self.wf(),
        ensures
            forall|u: int, v: int|
                0 <= u < self.spec_keys().len() && 0 <= v < self.spec_keys().len() && u != v
                    ==> self.spec_keys()[u] != self.spec_keys()[v],
    {
        assert forall|u: int, v: int|
            0 <= u < self.spec_keys().len() && 0 <= v < self.spec_keys().len() && u != v
                implies self.spec_keys()[u] != self.spec_keys()[v] by {
            if u < v {
                assert(self.keys@[u] != self.keys@[v]);
            } else {
                assert(self.keys@[v] != self.keys@[u]);
            }
        }
    }

    /// The id of each key is its position among the keys.
    pub proof fn lemma_id_of_key(&self, u: int)
        requires
            self.wf(),
            0 <= u < self.spec_keys().len(),
        ensures
            self.id_of(self.spec_keys()[u]) == Some(u),
    {
        self.lemma_keys_distinct();
        let w = choose|w: int| 0 <= w < self.spec_keys().len() && self.spec_keys()[w] == self.spec_keys()[u];
    }

    /// The number of keys.
    pub fn len(&self) -> (r: usize)
        requires
            self.wf(),
        ensures
            r == self.spec_keys().len(),
    {
        self.len
    }

    /// The key stored at an entry address, and the address of its value.
    fn get_key_value(&self, addr: Addr, Ghost(u): Ghost<int>) -> (r: (&[u8], Addr))
        requires
            self.wf(),
            0 <= u < self.spec_keys().len(),
            addr.offset == self.entry_addr(u),
        ensures
            r.0@ == self.spec_keys()[u],
            r.1.offset == self.spec_value_addr(u),
    {
        proof {
            let a = addr.offset as int;
            let key = self.keys@[u];
            assert(stores_entry(self.memory_arena@, a, key));
            lemma_le_u16_round_trip(key.len() as u16);
            assert(self.memory_arena@.subrange(a, a + 2) == le_u16_bytes(key.len() as u16));
        }
        let key_bytes_len = self.memory_arena.read_u16(addr) as usize;
        let key_addr = addr.offset(2);
        let key_bytes = self.memory_arena.slice(key_addr, key_bytes_len);
        (key_bytes, addr.offset(2 + key_bytes_len as u32))
    }

    /// The address of the value stored at an entry address, if its key is `target_key`.
    fn get_value_addr_if_key_match(&self, target_key: &[u8], addr: Addr, Ghost(u): Ghost<int>) -> (r:
        Option<Addr>)
        requires
            self.wf(),
            0 <= u < self.spec_keys().len(),
            addr.offset == self.entry_addr(u),
        ensures
            r is Some <==> self.spec_keys()[u] == target_key@,
            r is Some ==> r->0.offset == self.spec_value_addr(u),
    {
        let (stored_key, value_addr) = self.get_key_value(addr, Ghost(u));
        if bytes_equal(stored_key, target_key) {
            Some(value_addr)
        } else {
            None
        }
    }

    /// Probes for `key`: the id of its entry if it is in the map; else the
    /// first empty bucket on its probe sequence, with the number of steps
    /// taken, unless the table is full.
    fn find_slot(&self, key: &[u8], hash: u32) -> (r: (Option<usize>, Option<usize>, Ghost<nat>))
        requires
            self.wf(),
            hash == murmur2_of(key@),
        ensures
            match r.1 {
                Some(u) => u < self.spec_keys().len() && self.spec_keys()[u as int] == key@
                    && r.0 == Some(self.occupied@[u as int]),
                None => forall|u: int| 0 <= u < self.spec_keys().len() ==> self.spec_keys()[u] != key@,
            },
            r.1 is None && self.spec_keys().len() < self.capacity() ==> r.0 is Some,
            r.1 is None && r.0 is Some ==> {
                let b = r.0->0;
                &&& b < self.capacity()
                &&& self.table@[b as int].spec_is_empty()
                &&& 1 <= r.2@ <= self.capacity()
                &&& probe_pos(hash, r.2@, self.capacity()) == b
                &&& forall|k: nat| 1 <= k < r.2@ ==> !(#[trigger] self.table@[probe_pos(hash, k, self.capacity())]).spec_is_empty()
            },
    {
        let mut probe = self.probe(hash);
        let cap = self.table.len();
        while probe.i < cap as u64
            invariant
                self.wf(),
                hash == murmur2_of(key@),
                cap == self.table@.len(),
                probe.hash == hash,
                probe.cap == cap,
                probe.i <= cap,
                forall|k: nat|
                    1 <= k <= probe.i ==> {
                        let b = #[trigger] probe_pos(hash, k, cap as nat);
                        &&& !self.table@[b].spec_is_empty()
                        &&& self.keys@[self.table@[b].unordered_id as int] != key@
                    },
            decreases cap - probe.i,
        {
            let bucket = probe.next_probe();
            let kv: KeyValue = self.table[bucket];
            if kv.is_empty() {
                proof {
                    let keys = self.keys@;
                    assert forall|u: int| 0 <= u < keys.len() implies keys[u] != key@ by {
                        if keys[u] == key@ {
                            let d = self.dists@[u];
                            let b = self.occupied@[u] as int;
                            assert(self.table@[b].unordered_id == u);
                            if d < probe.i {
                                assert(!self.table@[probe_pos(hash, d, cap as nat)].spec_is_empty());
                            } else if d == probe.i {
                            } else {
                                assert(!self.table@[probe_pos(hash, probe.i as nat, cap as nat)].spec_is_empty());
                            }
                        }
                    }
                }
                return (Some(bucket), None, Ghost(probe.i as nat));
            }
            let ghost u = kv.unordered_id as int;
            if kv.hash == hash {
                if self.get_value_addr_if_key_match(key, kv.key_value_addr, Ghost(u)).is_some() {
                    return (Some(bucket), Some(kv.unordered_id as usize), Ghost(probe.i as nat));
                }
            }
        }
        proof {
            lemma_full_probe(self.table@, hash, self.occupied@, self.len as int);
            let keys = self.keys@;
            assert forall|u: int| 0 <= u < keys.len() implies keys[u] != key@ by {
                if keys[u] == key@ {
                    let d = self.dists@[u];
                    let b = self.occupied@[u] as int;
                    assert(b < cap);
                    assert(probe_pos(hash, d, cap as nat) == b);
                    assert(1 <= d <= probe.i);
                    assert(self.table@[b].unordered_id == u);
                    assert(self.keys@[self.table@[probe_pos(hash, d, cap as nat)].unordered_id as int] != key@);
                }
            }
        }
        (None, None, Ghost(0))
    }

    /// The value of `key`, if it is in the map.
    pub fn get(&self, key: &[u8]) -> (r: Option<u32>)
        requires
            self.wf(),
        ensures
            r is Some <==> self.id_of(key@) is Some,
            r is Some ==> r->0 == self.spec_values()[self.id_of(key@)->0],
    {
        let hash = murmurhash2(key);
        let (bucket, found, _) = self.find_slot(key, hash);
        match found {
            None => None,
            Some(u) => {
                let kv = self.table[bucket.unwrap()];
                let (_, value_addr) = self.get_key_value(kv.key_value_addr, Ghost(u as int));
                proof {
                    let keys = self.keys@;
                    let w = choose|w: int| 0 <= w < keys.len() && keys[w] == key@;
                    if w != u {
                        if w < u {
                            assert(keys[w] != keys[u as int]);
                        } else {
                            assert(keys[u as int] != keys[w]);
                        }
                    }
                }
                Some(self.memory_arena.read_u32(value_addr))
            },
        }
    }

    /// Writes a new entry `[len | key | value]` at the end of the arena.
    fn store_new_entry(&mut self, key: &[u8], val: u32) -> (r: Addr)
        requires
            old(self).wf(),
            key@.len() <= u16::MAX,
            old(self).arena_len() + key@.len() + 6 < NULL_OFFSET,
        ensures
            final(self).wf(),
            final(self).spec_keys() == old(self).spec_keys(),
            final(self).spec_values() == old(self).spec_values(),
            final(self).capacity() == old(self).capacity(),
            final(self).table@ == old(self).table@,
            final(self).occupied@ == old(self).occupied@,
            r.offset == old(self).arena_len(),
            final(self).arena_len() == old(self).arena_len() + key@.len() + 6,
            stores_entry(final(self).memory_arena@, r.offset as int, key@),
            le_u32_value(
                final(self).memory_arena@.subrange(r.offset + 2 + key@.len(), r.offset + 6 + key@.len()),
            ) == val,
    {
        let ghost a0 = self.memory_arena@;
        let num_bytes = 2 + key.len() + 4;
        let key_addr = self.memory_arena.allocate_space(num_bytes);
        let ghost a1 = self.memory_arena@;
        self.memory_arena.write_u16(key_addr, key.len() as u16);
        let ghost a2 = self.memory_arena@;
        self.memory_arena.write_bytes(key_addr.offset(2), key);
        let ghost a3 = self.memory_arena@;
        self.memory_arena.write_u32(key_addr.offset(2 + key.len() as u32), val);
        proof {
            let a = key_addr.offset as int;
            let n = key@.len();
            let fin = self.memory_arena@;
            assert forall|i: int| 0 <= i < a0.len() implies #[trigger] fin[i] == a0[i] by {
                assert(a3[i] == a2[i]);
                assert(a2[i] == a1[i]);
            }
            assert forall|u: int| 0 <= u < self.len implies stores_entry(fin, self.entry_addr(u), self.keys@[u]) by {
                let e = self.entry_addr(u);
                let k = self.keys@[u];
                assert(stores_entry(a0, e, k));
                assert(fin.subrange(e, e + 2) =~= a0.subrange(e, e + 2));
                assert(fin.subrange(e + 2, e + 2 + k.len()) =~= a0.subrange(e + 2, e + 2 + k.len()));
            }
            assert(fin.subrange(a, a + 2) =~= le_u16_bytes(n as u16)) by {
                assert(a3[a] == a2[a]);
                assert(a3[a + 1] == a2[a + 1]);
            }
            assert(fin.subrange(a + 2, a + 2 + n) =~= key@);
            assert(self.spec_values() =~= old(self).spec_values()) by {
                assert forall|u: int| 0 <= u < self.len implies #[trigger] self.spec_values()[u] == old(self).spec_values()[u] by {
                    let va = self.spec_value_addr(u);
                    assert(fin.subrange(va, va + 4) =~= a0.subrange(va, va + 4));
                }
            }
        }
        key_addr
    }

    /// Puts a new entry, stored at `key_value_addr`, in an empty bucket that
    /// the probe for its key reaches after `dist` steps.
    fn set_bucket(
        &mut self,
        hash: u32,
        key_value_addr: Addr,
        bucket: usize,
        Ghost(key): Ghost<Seq<u8>>,
        Ghost(dist): Ghost<nat>,
    ) -> (r: UnorderedId)
        requires
            old(self).wf(),
            old(self).spec_keys().len() < old(self).capacity(),
            old(self).spec_keys().len() < 0x4000_0000,
            hash == murmur2_of(key),
            forall|u: int| 0 <= u < old(self).spec_keys().len() ==> old(self).spec_keys()[u] != key,
            bucket < old(self).capacity(),
            old(self).table@[bucket as int].spec_is_empty(),
            1 <= dist <= old(self).capacity(),
            probe_pos(hash, dist, old(self).capacity()) == bucket,
            forall|k: nat| 1 <= k < dist ==> !(#[trigger] old(self).table@[probe_pos(hash, k, old(self).capacity())]).spec_is_empty(),
            stores_entry(old(self).memory_arena@, key_value_addr.offset as int, key),
            forall|u: int| 0 <= u < old(self).spec_keys().len() ==> old(self).entry_addr(u) + 6 + #[trigger] old(self).spec_keys()[u].len() <= key_value_addr.offset,
        ensures
            final(self).wf(),
            r == old(self).spec_keys().len(),
            final(self).spec_keys() == old(self).spec_keys().push(key),
            final(self).arena_len() == old(self).arena_len(),
            final(self).capacity() == old(self).capacity(),
            final(self).spec_values() == old(self).spec_values().push(
                le_u32_value(old(self).memory_arena@.subrange(key_value_addr.offset + 2 + key.len(), key_value_addr.offset + 6 + key.len())),
            ),
    {
        self.occupied.push(bucket);
        let unordered_id = self.len as UnorderedId;
        self.len = self.len + 1;
        self.table.set(bucket, KeyValue { key_value_addr, hash, unordered_id });
        proof {
            let n = old(self).len as int;
            self.keys = Ghost(old(self).keys@.push(key));
            self.dists = Ghost(old(self).dists@.push(dist));
            let cap = self.table@.len();
            let keys = self.keys@;
            assert forall|u: int| 0 <= u < n implies self.entry_addr(u) == old(self).entry_addr(u) by {
                assert(self.occupied@[u] == old(self).occupied@[u]);
                assert(old(self).occupied@[u] != bucket);
            }
            assert(self.entry_addr(n) == key_value_addr.offset);
            assert forall|u: int| 0 <= u < self.len implies {
                &&& (#[trigger] self.occupied@[u]) < cap
                &&& !self.table@[self.occupied@[u] as int].spec_is_empty()
                &&& self.table@[self.occupied@[u] as int].unordered_id == u
                &&& self.table@[self.occupied@[u] as int].hash == murmur2_of(keys[u])
                &&& 1 <= self.dists@[u] <= cap
                &&& probe_pos(murmur2_of(keys[u]), self.dists@[u], cap) == self.occupied@[u]
                &&& stores_entry(self.memory_arena@, self.entry_addr(u), keys[u])
            } by {
                if u < n {
                    assert(old(self).occupied@[u] != bucket);
                }
            }
            assert forall|u: int, k: nat|
                0 <= u < self.len && 1 <= k < self.dists@[u] implies !(#[trigger] self.table@[probe_pos(
                    murmur2_of(keys[u]),
                    k,
                    cap,
                )]).spec_is_empty() by {
                if u < n {
                    assert(!old(self).table@[probe_pos(murmur2_of(keys[u]), k, cap)].spec_is_empty());
                }
            }
            assert forall|b: int|
                0 <= b < cap && !(#[trigger] self.table@[b]).spec_is_empty() implies self.table@[b].unordered_id < self.len
                    && self.occupied@[self.table@[b].unordered_id as int] == b by {
                if b != bucket {
                    assert(!old(self).table@[b].spec_is_empty());
                }
            }
            assert forall|u: int, v: int| 0 <= u < v < self.len implies #[trigger] keys[u] != #[trigger] keys[v] by {
                if v == n {
                    assert(old(self).keys@[u] != key);
                }
            }
            assert forall|u: int, v: int|
                0 <= u < v < self.len implies #[trigger] self.entry_addr(u) + 6 + keys[u].len()
                    <= #[trigger] self.entry_addr(v) by {
                if v == n {
                    assert(old(self).entry_addr(u) + 6 + old(self).spec_keys()[u].len() <= key_value_addr.offset);
                }
            }
            assert(self.spec_values() =~= old(self).spec_values().push(
                le_u32_value(old(self).memory_arena@.subrange(key_value_addr.offset + 2 + key.len(), key_value_addr.offset + 6 + key.len())),
            ));
        }
        unordered_id
    }

    /// Overwrites the value of entry `u`, stored at `addr`.
    fn write_value(&mut self, addr: Addr, v: u32, Ghost(u): Ghost<int>)
        requires
            old(self).wf(),
            0 <= u < old(self).spec_keys().len(),
            addr.offset == old(self).spec_value_addr(u),
        ensures
            final(self).wf(),
            final(self).spec_keys() == old(self).spec_keys(),
            final(self).spec_values() == old(self).spec_values().update(u, v),
            final(self).arena_len() == old(self).arena_len(),
            final(self).capacity() == old(self).capacity(),
    {
        proof {
            assert(stores_entry(self.memory_arena@, self.entry_addr(u), self.keys@[u]));
        }
        self.memory_arena.write_u32(addr, v);
        proof {
            let a0 = old(self).memory_arena@;
            let fin = self.memory_arena@;
            let w = addr.offset as int;
            assert forall|x: int| 0 <= x < self.len implies stores_entry(fin, self.entry_addr(x), self.keys@[x]) by {
                let e = self.entry_addr(x);
                let k = self.keys@[x];
                assert(stores_entry(a0, e, k));
                if x < u {
                    assert(e + 6 + k.len() <= self.entry_addr(u));
                } else if x > u {
                    assert(self.entry_addr(u) + 6 + self.keys@[u].len() <= e);
                }
                assert(fin.subrange(e, e + 2) =~= a0.subrange(e, e + 2));
                assert(fin.subrange(e + 2, e + 2 + k.len()) =~= a0.subrange(e + 2, e + 2 + k.len()));
            }
            assert forall|x: int| 0 <= x < self.len implies #[trigger] self.spec_values()[x] == old(self).spec_values().update(u, v)[x] by {
                let va = self.spec_value_addr(x);
                if x == u {
                    lemma_le_u32_round_trip(v);
                } else {
                    if x < u {
                        assert(self.entry_addr(x) + 6 + self.keys@[x].len() <= self.entry_addr(u));
                    } else {
                        assert(self.entry_addr(u) + 6 + self.keys@[u].len() <= self.entry_addr(x));
                    }
                    assert(fin.subrange(va, va + 4) =~= a0.subrange(va, va + 4));
                }
            }
            assert(self.spec_values() =~= old(self).spec_values().update(u, v));
        }
    }

    /// Doubles the table and puts every entry back on its probe sequence.
    fn resize(&mut self)
        requires
            old(self).wf(),
            old(self).capacity() <= usize::MAX / 2,
        ensures
            final(self).wf(),
            final(self).spec_keys() == old(self).spec_keys(),
            final(self).spec_values() == old(self).spec_values(),
            final(self).arena_len() == old(self).arena_len(),
            final(self).capacity() == 2 * old(self).capacity(),
    {
        let new_len = self.table.len() * 2;
        let mut new_table: Vec<KeyValue> = Vec::with_capacity(new_len);
        let mut i: usize = 0;
        while i < new_len
            invariant
                i <= new_len,
                new_table@.len() == i,
                forall|b: int| 0 <= b < i ==> (#[trigger] new_table@[b]).spec_is_empty(),
            decreases new_len - i,
        {
            new_table.push(KeyValue::empty());
            i = i + 1;
        }
        let ghost new_dists: Seq<nat> = Seq::empty();
        let n = self.occupied.len();
        let mut u: usize = 0;
        while u < n
            invariant
                old(self).wf(),
                n == old(self).len,
                u <= n,
                self.table@ == old(self).table@,
                self.keys@ == old(self).keys@,
                self.len == old(self).len,
                self.dists@ == old(self).dists@,
                self.memory_arena@ == old(self).memory_arena@,
                new_len == 2 * old(self).table@.len(),
                new_table@.len() == new_len,
                self.occupied@.len() == n,
                new_dists.len() == u,
                forall|v: int| u <= v < n ==> #[trigger] self.occupied@[v] == old(self).occupied@[v],
                forall|v: int|
                    0 <= v < u ==> {
                        &&& (#[trigger] self.occupied@[v]) < new_len
                        &&& new_table@[self.occupied@[v] as int] == old(self).table@[old(self).occupied@[v] as int]
                        &&& 1 <= new_dists[v] <= new_len
                        &&& probe_pos(murmur2_of(self.keys@[v]), new_dists[v], new_len as nat) == self.occupied@[v]
                    },
                forall|v: int, k: nat|
                    0 <= v < u && 1 <= k < new_dists[v] ==> !(#[trigger] new_table@[probe_pos(
                        murmur2_of(self.keys@[v]),
                        k,
                        new_len as nat,
                    )]).spec_is_empty(),
                forall|b: int|
                    0 <= b < new_len && !(#[trigger] new_table@[b]).spec_is_empty() ==> new_table@[b].unordered_id < u
                        && self.occupied@[new_table@[b].unordered_id as int] == b,
            decreases n - u,
        {
            let key_value: KeyValue = self.table[self.occupied[u]];
            proof {
                assert(key_value.hash == murmur2_of(self.keys@[u as int]));
            }
            let (bucket, dist) = find_empty(&new_table, key_value.hash, Ghost(self.occupied@), Ghost(u as int));
            let ghost prev_table = new_table@;
            let ghost prev_occ = self.occupied@;
            new_table.set(bucket, key_value);
            self.occupied.set(u, bucket);
            proof {
                new_dists = new_dists.push(dist@);
                assert forall|v: int| 0 <= v < u implies self.occupied@[v] == prev_occ[v] && (
                #[trigger] self.occupied@[v]) != bucket by {
                    assert(!prev_table[prev_occ[v] as int].spec_is_empty());
                }
                assert(!key_value.spec_is_empty());
            }
            u = u + 1;
        }
        self.table = new_table;
        proof {
            self.dists = Ghost(new_dists);
            let c = old(self).table@.len();
            assert((2 * c) / 2 == c);
            assert(is_power_of_two(2 * c));
            let o = old(self);
            assert forall|v: int| 0 <= v < n implies self.entry_addr(v) == o.entry_addr(v) by {}
            assert forall|v: int| 0 <= v < n implies #[trigger] self.spec_values()[v] == o.spec_values()[v] by {
                assert(self.spec_value_addr(v) == o.spec_value_addr(v));
            }
            assert(self.spec_values() =~= o.spec_values());
        }
    }

    /// Creates the entry of `key` with `updater(None)`, or replaces its value
    /// `v` with `updater(Some(v))`; returns the id of the entry.
    pub fn mutate_or_create<F: FnOnce(Option<u32>) -> u32>(&mut self, key: &[u8], updater: F) -> (r:
        UnorderedId)
        requires
            old(self).wf(),
            old(self).spec_keys().len() < 0x4000_0000,
            key@.len() <= u16::MAX,
            old(self).arena_len() + key@.len() + 6 < NULL_OFFSET,
            forall|prev: Option<u32>| updater.requires((prev,)),
        ensures
            final(self).wf(),
            final(self).capacity() == if 3 * old(self).spec_keys().len() >= old(self).capacity()
                && old(self).capacity() <= usize::MAX / 2 {
                2 * old(self).capacity()
            } else {
                old(self).capacity()
            },
            final(self).arena_len() == old(self).arena_len() + if old(self).id_of(key@) is Some {
                0
            } else {
                key@.len() + 6
            },
            match old(self).id_of(key@) {
                Some(u) => {
                    &&& r == u
                    &&& final(self).spec_keys() == old(self).spec_keys()
                    &&& updater.ensures((Some(old(self).spec_values()[u]),), final(self).spec_values()[u])
                    &&& final(self).spec_values() == old(self).spec_values().update(u, final(self).spec_values()[u])
                },
                None => {
                    &&& r == old(self).spec_keys().len()
                    &&& final(self).spec_keys() == old(self).spec_keys().push(key@)
                    &&& updater.ensures((None::<u32>,), final(self).spec_values()[r as int])
                    &&& final(self).spec_values().drop_last() == old(self).spec_values()
                },
            },
    {
        if self.is_saturated() && self.table.len() <= usize::MAX / 2 {
            self.resize();
        }
        proof {
            // A saturated table has at least one entry per three buckets, so it
            // is never full after doubling; an unsaturated one has room left.
            assert(self.spec_keys().len() < self.capacity());
        }
        let ghost mid = *self;
        let hash = murmurhash2(key);
        let (bucket, found, dist) = self.find_slot(key, hash);
        match found {
            None => {
                let val = updater(None);
                let key_addr = self.store_new_entry(key, val);
                let ghost stored = self.memory_arena@;
                proof {
                    assert forall|u: int| 0 <= u < self.len implies self.entry_addr(u) + 6 + #[trigger] self.spec_keys()[u].len() <= key_addr.offset by {
                        assert(stores_entry(mid.memory_arena@, mid.entry_addr(u), mid.keys@[u]));
                    }
                }
                let id = self.set_bucket(hash, key_addr, bucket.unwrap(), Ghost(key@), dist);
                proof {
                    assert(self.spec_values()[id as int] == val);
                    assert(self.spec_values().drop_last() =~= old(self).spec_values());
                    assert(old(self).id_of(key@) is None);
                }
                id
            },
            Some(u) => {
                let kv = self.table[bucket.unwrap()];
                let (_, val_addr) = self.get_key_value(kv.key_value_addr, Ghost(u as int));
                let v = self.memory_arena.read_u32(val_addr);
                let new_v = updater(Some(v));
                self.write_value(val_addr, new_v, Ghost(u as int));
                proof {
                    let keys = old(self).spec_keys();
                    let w = choose|w: int| 0 <= w < keys.len() && keys[w] == key@;
                    if w != u {
                        if w < u {
                            assert(keys[w] != keys[u as int]);
                        } else {
                            assert(keys[u as int] != keys[w]);
                        }
                    }
                }
                kv.unordered_id
            },
        }
    }

    /// The entries in the order of their ids: key, address of the value, id.
    pub fn iter(&self) -> (r: Vec<(Vec<u8>, Addr, UnorderedId)>)
        requires
            self.wf(),
        ensures
            r@.len() == self.spec_keys().len(),
            forall|u: int|
                0 <= u < r@.len() ==> (#[trigger] r@[u]).0@ == self.spec_keys()[u] && r@[u].1.offset
                    == self.spec_value_addr(u) && r@[u].2 == u,
            forall|u: int, v: int| 0 <= u < r@.len() && 0 <= v < r@.len() && u != v ==> #[trigger] r@[u].0@ != #[trigger] r@[v].0@,
            forall|u: int| 0 <= u < r@.len() ==> #[trigger] self.id_of(r@[u].0@) == Some(u),
    {
        proof {
            self.lemma_keys_distinct();
            assert forall|u: int| 0 <= u < self.spec_keys().len() implies #[trigger] self.id_of(self.spec_keys()[u]) == Some(u) by {
                self.lemma_id_of_key(u);
            }
        }
        let mut out: Vec<(Vec<u8>, Addr, UnorderedId)> = Vec::new();
        let mut u: usize = 0;
        while u < self.occupied.len()
            invariant
                self.wf(),
                u <= self.occupied@.len(),
                self.occupied@.len() == self.spec_keys().len(),
                out@.len() == u,
                forall|x: int|
                    0 <= x < u ==> (#[trigger] out@[x]).0@ == self.spec_keys()[x] && out@[x].1.offset
                        == self.spec_value_addr(x) && out@[x].2 == x,
            decreases self.occupied@.len() - u,
        {
            let kv = self.table[self.occupied[u]];
            let (key, addr) = self.get_key_value(kv.key_value_addr, Ghost(u as int));
            let mut owned: Vec<u8> = Vec::new();
            let mut i: usize = 0;
            while i < key.len()
                invariant
                    i <= key@.len(),
                    owned@ == key@.take(i as int),
                decreases key@.len() - i,
            {
                owned.push(key[i]);
                i = i + 1;
            }
            assert(owned@ =~= key@);
            out.push((owned, addr, kv.unordered_id));
            u = u + 1;
        }
        out
    }
}

} // verus!
