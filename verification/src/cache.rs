//! The two-tier chunk cache: a small tier of recently used chunks in front
//! of a larger tier that keeps every chunk a tracked file still needs.

use crate::assoc::{lemma_as_map_push, lemma_as_map_remove};
use crate::chunk::same_address;
use crate::index::{IndexModel, SyncIndex};
use vstd::prelude::*;
use vstd::slice::slice_to_vec;

verus! {

broadcast use vstd::array::group_array_axioms;

/// Number of chunks the memory tier of a default cache holds.
pub const DEFAULT_MEMORY_CHUNKS: usize = 32;

/// Number of chunks the disk tier of a default cache holds.
pub const DEFAULT_DISK_CHUNKS: usize = 4096;

/// Mathematical model of one cached chunk.
pub struct EntryModel {
    pub address: [u8; 32],
    pub data: Seq<u8>,
}

/// The addresses of a tier, in its order.
pub open spec fn addresses(tier: Seq<EntryModel>) -> Seq<[u8; 32]> {
    Seq::new(tier.len(), |i: int| tier[i].address)
}

/// Whether the tier holds a chunk under `address`.
pub open spec fn holds(tier: Seq<EntryModel>, address: [u8; 32]) -> bool {
    addresses(tier).contains(address)
}

/// Where in the tier the chunk under `address` stands.
pub open spec fn position(tier: Seq<EntryModel>, address: [u8; 32]) -> int {
    addresses(tier).index_of(address)
}

/// A tier holds no address twice and no more than `capacity` chunks.
pub open spec fn tier_wf(tier: Seq<EntryModel>, capacity: nat) -> bool {
    &&& addresses(tier).no_duplicates()
    &&& tier.len() <= capacity
}

/// The memory tier, least recently used chunk first, after `entry` was used:
/// the entry moves to the end; where it is new and the tier is full, the
/// chunk at the front leaves.
pub open spec fn touched(memory: Seq<EntryModel>, capacity: nat, entry: EntryModel) -> Seq<
    EntryModel,
> {
    if capacity == 0 {
        memory
    } else if holds(memory, entry.address) {
        memory.remove(position(memory, entry.address)).push(entry)
    } else if memory.len() < capacity {
        memory.push(entry)
    } else {
        memory.remove(0).push(entry)
    }
}

/// Whether the chunk at position `i` of the disk tier may be evicted: no
/// manifest of a tracked file names it.
pub open spec fn evictable(disk: Seq<EntryModel>, index: IndexModel, i: int) -> bool {
    0 <= i < disk.len() && index.references(disk[i].address) == 0
}

/// The first position of the disk tier whose chunk may be evicted, if any.
pub open spec fn first_evictable(disk: Seq<EntryModel>, index: IndexModel) -> Option<int>
    decreases disk.len(),
{
    if disk.len() == 0 {
        None
    } else {
        match first_evictable(disk.drop_last(), index) {
            Some(i) => Some(i),
            None => if index.references(disk.last().address) == 0 {
                Some(disk.len() - 1)
            } else {
                None
            },
        }
    }
}

/// What `first_evictable` finds is evictable and nothing before it is; where
/// it finds nothing, nothing is evictable.
pub proof fn lemma_first_evictable(disk: Seq<EntryModel>, index: IndexModel)
    ensures
        first_evictable(disk, index) matches Some(i) ==> evictable(disk, index, i) && forall|
            j: int,
        |
            0 <= j < i ==> !evictable(disk, index, j),
        first_evictable(disk, index) is None ==> forall|j: int| !evictable(disk, index, j),
    decreases disk.len(),
{
    if disk.len() > 0 {
        let rest = disk.drop_last();
        lemma_first_evictable(rest, index);
        assert forall|j: int| 0 <= j < rest.len() implies (evictable(rest, index, j)
            <==> evictable(disk, index, j)) by {
            assert(rest[j] == disk[j]);
        }
        match first_evictable(rest, index) {
            Some(i) => {
                assert(evictable(rest, index, i));
            },
            None => {
                assert forall|j: int| 0 <= j < rest.len() implies !evictable(disk, index, j) by {
                    assert(!evictable(rest, index, j));
                }
            },
        }
    }
}

/// The disk tier after `entry` was stored: in place where its address is
/// held already, else at the end, after the first evictable chunk has left
/// if the tier was full. `None` where the tier is full of chunks that
/// tracked files need.
pub open spec fn stored(
    disk: Seq<EntryModel>,
    capacity: nat,
    index: IndexModel,
    entry: EntryModel,
) -> Option<Seq<EntryModel>> {
    if holds(disk, entry.address) {
        Some(disk.update(position(disk, entry.address), entry))
    } else if disk.len() < capacity {
        Some(disk.push(entry))
    } else {
        match first_evictable(disk, index) {
            Some(victim) => Some(disk.remove(victim).push(entry)),
            None => None,
        }
    }
}

/// Mathematical model of a [`ChunkCache`].
pub struct CacheModel {
    /// The memory tier, least recently used chunk first.
    pub memory: Seq<EntryModel>,
    /// The disk tier, in the order in which the chunks arrived.
    pub disk: Seq<EntryModel>,
    pub memory_capacity: nat,
    pub disk_capacity: nat,
}

impl CacheModel {
    pub open spec fn wf(self) -> bool {
        &&& tier_wf(self.memory, self.memory_capacity)
        &&& tier_wf(self.disk, self.disk_capacity)
    }

    /// What a lookup of `address` finds: the memory tier is asked first, then
    /// the disk tier.
    pub open spec fn lookup(self, address: [u8; 32]) -> Option<Seq<u8>> {
        if holds(self.memory, address) {
            Some(self.memory[position(self.memory, address)].data)
        } else if holds(self.disk, address) {
            Some(self.disk[position(self.disk, address)].data)
        } else {
            None
        }
    }

    /// The chunks of the cache by address.
    pub open spec fn contents(self) -> Map<[u8; 32], Seq<u8>> {
        Map::new(|a: [u8; 32]| self.lookup(a) is Some, |a: [u8; 32]| self.lookup(a)->0)
    }

    /// The cache after a lookup of `address`: a chunk that was found is now
    /// the most recently used one of the memory tier.
    pub open spec fn after_get(self, address: [u8; 32]) -> CacheModel {
        match self.lookup(address) {
            Some(data) => CacheModel {
                memory: touched(self.memory, self.memory_capacity, EntryModel { address, data }),
                ..self
            },
            None => self,
        }
    }

    /// The cache after `entry` was written through both tiers, or `None`
    /// where the disk tier cannot take it.
    pub open spec fn after_put(self, index: IndexModel, entry: EntryModel) -> Option<CacheModel> {
        match stored(self.disk, self.disk_capacity, index, entry) {
            Some(disk) => Some(
                CacheModel {
                    memory: touched(self.memory, self.memory_capacity, entry),
                    disk,
                    ..self
                },
            ),
            None => None,
        }
    }

    /// The cache after the chunk under `address` was taken out of both tiers.
    pub open spec fn after_invalidate(self, address: [u8; 32]) -> CacheModel {
        CacheModel {
            memory: if holds(self.memory, address) {
                self.memory.remove(position(self.memory, address))
            } else {
                self.memory
            },
            disk: if holds(self.disk, address) {
                self.disk.remove(position(self.disk, address))
            } else {
                self.disk
            },
            ..self
        }
    }
}

/// The disk tier cannot take another chunk: it is full, and every chunk in
/// it is named by the manifest of a tracked file.
#[derive(Clone, Copy, Debug, PartialEq, Eq)]
pub enum CacheError {
    DiskFull,
}

struct CacheEntry {
    address: [u8; 32],
    data: Vec<u8>,
}

spec fn tier_model(tier: Seq<CacheEntry>) -> Seq<EntryModel> {
    Seq::new(tier.len(), |i: int| EntryModel { address: tier[i].address, data: tier[i].data@ })
}

proof fn lemma_position(tier: Seq<EntryModel>, i: int)
    requires
        addresses(tier).no_duplicates(),
        0 <= i < tier.len(),
    ensures
        holds(tier, tier[i].address),
        position(tier, tier[i].address) == i,
{
    let keys = addresses(tier);
    assert(keys[i] == tier[i].address);
    let j = keys.index_of(tier[i].address);
    assert(0 <= j < keys.len() && keys[j] == keys[i]);
}

proof fn lemma_absent(tier: Seq<EntryModel>, address: [u8; 32])
    requires
        forall|j: int| 0 <= j < tier.len() ==> (#[trigger] tier[j]).address != address,
    ensures
        !holds(tier, address),
{
    let keys = addresses(tier);
    if keys.contains(address) {
        let j = keys.index_of(address);
        assert(tier[j].address == address);
    }
}

proof fn lemma_tier_remove(tier: Seq<EntryModel>, i: int)
    requires
        addresses(tier).no_duplicates(),
        0 <= i < tier.len(),
    ensures
        addresses(tier.remove(i)) == addresses(tier).remove(i),
        addresses(tier.remove(i)).no_duplicates(),
        !holds(tier.remove(i), tier[i].address),
        forall|a: [u8; 32]|
            a != tier[i].address ==> (holds(tier.remove(i), a) <==> holds(tier, a)),
        forall|a: [u8; 32]|
            a != tier[i].address && holds(tier, a) ==> #[trigger] tier.remove(i)[position(
                tier.remove(i),
                a,
            )].data == tier[position(tier, a)].data,
{
    let keys = addresses(tier);
    assert(addresses(tier.remove(i)) =~= keys.remove(i));
    assert(keys[i] == tier[i].address);
    let values = Seq::new(tier.len(), |k: int| tier[k].data);
    lemma_as_map_remove(keys, values, i);
    let after = tier.remove(i);
    assert forall|a: [u8; 32]| a != tier[i].address implies (holds(after, a) <==> holds(
        tier,
        a,
    )) by {
        if holds(tier, a) {
            let k = keys.index_of(a);
            assert(keys[k] == a);
            assert(addresses(after)[if k < i {
                k
            } else {
                k - 1
            }] == a);
        }
        if holds(after, a) {
            let k = addresses(after).index_of(a);
            assert(addresses(after)[k] == a);
            assert(keys[if k < i {
                k
            } else {
                k + 1
            }] == a);
        }
    }
    assert forall|a: [u8; 32]| a != tier[i].address && holds(tier, a) implies #[trigger] after[position(
        after,
        a,
    )].data == tier[position(tier, a)].data by {
        let k = position(tier, a);
        assert(keys[k] == a);
        let k2 = if k < i {
            k
        } else {
            k - 1
        };
        assert(after[k2] == tier[k]);
        lemma_position(after, k2);
    }
}

proof fn lemma_tier_push(tier: Seq<EntryModel>, entry: EntryModel)
    requires
        addresses(tier).no_duplicates(),
        !holds(tier, entry.address),
    ensures
        addresses(tier.push(entry)) == addresses(tier).push(entry.address),
        addresses(tier.push(entry)).no_duplicates(),
        holds(tier.push(entry), entry.address),
        tier.push(entry)[position(tier.push(entry), entry.address)] == entry,
        forall|a: [u8; 32]|
            a != entry.address ==> (holds(tier.push(entry), a) <==> holds(tier, a)),
        forall|a: [u8; 32]|
            a != entry.address && holds(tier, a) ==> #[trigger] tier.push(entry)[position(
                tier.push(entry),
                a,
            )].data == tier[position(tier, a)].data,
{
    let keys = addresses(tier);
    let after = tier.push(entry);
    assert(addresses(after) =~= keys.push(entry.address));
    let values = Seq::new(tier.len(), |k: int| tier[k].data);
    lemma_as_map_push(keys, values, entry.address, entry.data);
    lemma_position(after, tier.len() as int);
    assert forall|a: [u8; 32]| a != entry.address implies (holds(after, a) <==> holds(
        tier,
        a,
    )) by {
        if holds(tier, a) {
            let k = keys.index_of(a);
            assert(addresses(after)[k] == a);
        }
        if holds(after, a) {
            let k = addresses(after).index_of(a);
            assert(keys[k] == a);
        }
    }
    assert forall|a: [u8; 32]| a != entry.address && holds(tier, a) implies #[trigger] after[position(
        after,
        a,
    )].data == tier[position(tier, a)].data by {
        let k = position(tier, a);
        assert(keys[k] == a);
        assert(after[k] == tier[k]);
        lemma_position(after, k);
    }
}

proof fn lemma_tier_update(tier: Seq<EntryModel>, i: int, entry: EntryModel)
    requires
        addresses(tier).no_duplicates(),
        0 <= i < tier.len(),
        tier[i].address == entry.address,
    ensures
        addresses(tier.update(i, entry)) == addresses(tier),
        forall|a: [u8; 32]|
            a != entry.address && holds(tier, a) ==> #[trigger] tier.update(i, entry)[position(
                tier,
                a,
            )].data == tier[position(tier, a)].data,
{
    assert(addresses(tier.update(i, entry)) =~= addresses(tier));
    assert forall|a: [u8; 32]| a != entry.address && holds(tier, a) implies #[trigger] tier.update(
        i,
        entry,
    )[position(tier, a)].data == tier[position(tier, a)].data by {
        let k = position(tier, a);
        assert(addresses(tier)[k] == a);
    }
}

/// Touching keeps the memory tier well formed.
proof fn lemma_touched_wf(memory: Seq<EntryModel>, capacity: nat, entry: EntryModel)
    requires
        tier_wf(memory, capacity),
    ensures
        tier_wf(touched(memory, capacity, entry), capacity),
{
    if capacity == 0 {
    } else if holds(memory, entry.address) {
        let i = position(memory, entry.address);
        assert(addresses(memory)[i] == entry.address);
        lemma_tier_remove(memory, i);
        lemma_tier_push(memory.remove(i), entry);
    } else if memory.len() < capacity {
        lemma_tier_push(memory, entry);
    } else {
        lemma_tier_remove(memory, 0);
        assert(!holds(memory.remove(0), entry.address)) by {
            if memory[0].address != entry.address {
            } else {
                lemma_position(memory, 0);
            }
        }
        lemma_tier_push(memory.remove(0), entry);
    }
}

/// Storing keeps the disk tier well formed.
proof fn lemma_stored_wf(disk: Seq<EntryModel>, capacity: nat, index: IndexModel, entry: EntryModel)
    requires
        tier_wf(disk, capacity),
        stored(disk, capacity, index, entry) is Some,
    ensures
        tier_wf(stored(disk, capacity, index, entry)->0, capacity),
{
    if holds(disk, entry.address) {
        let i = position(disk, entry.address);
        assert(addresses(disk)[i] == entry.address);
        lemma_tier_update(disk, i, entry);
    } else if disk.len() < capacity {
        lemma_tier_push(disk, entry);
    } else {
        let victim = first_evictable(disk, index)->0;
        lemma_first_evictable(disk, index);
        lemma_tier_remove(disk, victim);
        assert(!holds(disk.remove(victim), entry.address)) by {
            if disk[victim].address == entry.address {
                lemma_position(disk, victim);
            }
        }
        lemma_tier_push(disk.remove(victim), entry);
    }
}

/// A chunk that a tracked file needs is never evicted from the disk tier:
/// whatever is stored, a chunk with references stays where it is held, with
/// its bytes (unless it is the very chunk that is stored anew).
pub proof fn lemma_store_keeps_referenced(
    disk: Seq<EntryModel>,
    capacity: nat,
    index: IndexModel,
    entry: EntryModel,
    address: [u8; 32],
)
    requires
        tier_wf(disk, capacity),
        holds(disk, address),
        index.references(address) > 0,
        stored(disk, capacity, index, entry) is Some,
    ensures
        holds(stored(disk, capacity, index, entry)->0, address),
        address != entry.address ==> ({
            let after = stored(disk, capacity, index, entry)->0;
            after[position(after, address)].data == disk[position(disk, address)].data
        }),
{
    let after = stored(disk, capacity, index, entry)->0;
    if holds(disk, entry.address) {
        let i = position(disk, entry.address);
        assert(addresses(disk)[i] == entry.address);
        lemma_tier_update(disk, i, entry);
        if address != entry.address {
            assert(after[position(disk, address)].data == disk[position(disk, address)].data);
        }
    } else if disk.len() < capacity {
        lemma_tier_push(disk, entry);
    } else {
        let victim = first_evictable(disk, index)->0;
        lemma_first_evictable(disk, index);
        assert(disk[victim].address != address);
        lemma_tier_remove(disk, victim);
        assert(!holds(disk.remove(victim), entry.address)) by {
            if disk[victim].address == entry.address {
                lemma_position(disk, victim);
            }
        }
        lemma_tier_push(disk.remove(victim), entry);
        let middle = disk.remove(victim);
        assert(holds(middle, address));
        assert(middle[position(middle, address)].data == disk[position(disk, address)].data);
        assert(after[position(after, address)].data == middle[position(middle, address)].data);
    }
}

/// Reference-count safety: whatever is written to the cache, a chunk that a
/// tracked file of the index lists stays in the disk tier, with its bytes
/// (unless it is itself written anew).
pub proof fn lemma_live_chunk_stays(
    cache: CacheModel,
    index: &SyncIndex,
    entry: EntryModel,
    address: [u8; 32],
)
    requires
        cache.wf(),
        index.wf(),
        index@.is_live(address),
        holds(cache.disk, address),
        cache.after_put(index@, entry) is Some,
    ensures
        holds(cache.after_put(index@, entry)->0.disk, address),
        address != entry.address ==> ({
            let after = cache.after_put(index@, entry)->0.disk;
            after[position(after, address)].data == cache.disk[position(cache.disk, address)].data
        }),
        cache.after_get(address).disk == cache.disk,
{
    index.lemma_referenced_is_live(address);
    lemma_store_keeps_referenced(cache.disk, cache.disk_capacity, index@, entry, address);
}

/// A chunk is stored once: storing bytes under an address that the disk
/// tier holds already adds no entry, and the tier still holds the address
/// exactly once.
pub proof fn lemma_store_once(
    disk: Seq<EntryModel>,
    capacity: nat,
    index: IndexModel,
    entry: EntryModel,
)
    requires
        tier_wf(disk, capacity),
        holds(disk, entry.address),
    ensures
        stored(disk, capacity, index, entry) is Some,
        stored(disk, capacity, index, entry)->0.len() == disk.len(),
        addresses(stored(disk, capacity, index, entry)->0).no_duplicates(),
        crate::assoc::count_of(addresses(stored(disk, capacity, index, entry)->0), entry.address)
            == 1,
{
    let i = position(disk, entry.address);
    assert(addresses(disk)[i] == entry.address);
    lemma_tier_update(disk, i, entry);
    lemma_count_unique(addresses(disk), i);
}

proof fn lemma_count_unique(keys: Seq<[u8; 32]>, i: int)
    requires
        keys.no_duplicates(),
        0 <= i < keys.len(),
    ensures
        crate::assoc::count_of(keys, keys[i]) == 1,
    decreases keys.len(),
{
    let rest = keys.drop_last();
    if i == keys.len() - 1 {
        crate::assoc::lemma_count_contains(rest, keys[i]);
        if rest.contains(keys[i]) {
            let j = rest.index_of(keys[i]);
            assert(keys[j] == keys[i]);
        }
    } else {
        assert(rest[i] == keys[i]);
        lemma_count_unique(rest, i);
    }
}

/// The two-tier cache of chunk data, keyed by content address.
pub struct ChunkCache {
    memory: Vec<CacheEntry>,
    disk: Vec<CacheEntry>,
    memory_capacity: usize,
    disk_capacity: usize,
}

impl View for ChunkCache {
    type V = CacheModel;

    closed spec fn view(&self) -> CacheModel {
        CacheModel {
            memory: tier_model(self.memory@),
            disk: tier_model(self.disk@),
            memory_capacity: self.memory_capacity as nat,
            disk_capacity: self.disk_capacity as nat,
        }
    }
}

fn find(tier: &Vec<CacheEntry>, address: &[u8; 32]) -> (found: Option<usize>)
    requires
        addresses(tier_model(tier@)).no_duplicates(),
    ensures
        found matches Some(i) ==> i < tier@.len() && holds(tier_model(tier@), *address)
            && position(tier_model(tier@), *address) == i,
        found is None ==> !holds(tier_model(tier@), *address),
{
    let mut i: usize = 0;
    while i < tier.len()
        invariant
            i <= tier@.len(),
            addresses(tier_model(tier@)).no_duplicates(),
            forall|j: int| 0 <= j < i ==> (#[trigger] tier_model(tier@)[j]).address != *address,
        decreases tier@.len() - i,
    {
        if same_address(&tier[i].address, address) {
            proof {
                assert(tier_model(tier@)[i as int].address == *address);
                lemma_position(tier_model(tier@), i as int);
            }
            return Some(i);
        }
        i = i + 1;
    }
    proof {
        lemma_absent(tier_model(tier@), *address);
    }
    None
}

/// Makes `entry` the most recently used chunk of the memory tier.
fn touch(memory: &mut Vec<CacheEntry>, capacity: usize, entry: CacheEntry)
    requires
        tier_wf(tier_model(old(memory)@), capacity as nat),
    ensures
        tier_model(final(memory)@) == touched(
            tier_model(old(memory)@),
            capacity as nat,
            EntryModel { address: entry.address, data: entry.data@ },
        ),
        tier_wf(tier_model(final(memory)@), capacity as nat),
{
    let ghost before = tier_model(memory@);
    let ghost model = EntryModel { address: entry.address, data: entry.data@ };
    proof {
        lemma_touched_wf(before, capacity as nat, model);
    }
    if capacity == 0 {
        return ;
    }
    match find(memory, &entry.address) {
        Some(i) => {
            memory.remove(i);
            assert(tier_model(memory@) =~= before.remove(i as int));
        },
        None => {
            if memory.len() >= capacity {
                memory.remove(0);
                assert(tier_model(memory@) =~= before.remove(0));
            }
        },
    }
    let ghost middle = tier_model(memory@);
    memory.push(entry);
    assert(tier_model(memory@) =~= middle.push(model));
}

impl ChunkCache {
    /// The invariant of the cache: neither tier holds an address twice or
    /// more chunks than its capacity.
    pub open spec fn wf(&self) -> bool {
        self@.wf()
    }

    /// An empty cache of the default capacities.
    pub fn new() -> (cache: Self)
        ensures
            cache.wf(),
            cache@.memory.len() == 0,
            cache@.disk.len() == 0,
            cache@.memory_capacity == DEFAULT_MEMORY_CHUNKS,
            cache@.disk_capacity == DEFAULT_DISK_CHUNKS,
    {
        ChunkCache::with_capacity(DEFAULT_MEMORY_CHUNKS, DEFAULT_DISK_CHUNKS)
    }

    /// An empty cache whose tiers hold up to `memory_chunks` and `disk_chunks`
    /// chunks.
    pub fn with_capacity(memory_chunks: usize, disk_chunks: usize) -> (cache: Self)
        ensures
            cache.wf(),
            cache@.memory.len() == 0,
            cache@.disk.len() == 0,
            cache@.memory_capacity == memory_chunks,
            cache@.disk_capacity == disk_chunks,
    {
        ChunkCache {
            memory: Vec::new(),
            disk: Vec::new(),
            memory_capacity: memory_chunks,
            disk_capacity: disk_chunks,
        }
    }

    /// Whether one of the tiers holds the chunk at `address`.
    pub fn contains(&self, address: &[u8; 32]) -> (held: bool)
        requires
            self.wf(),
        ensures
            held == self@.lookup(*address) is Some,
    {
        find(&self.memory, address).is_some() || find(&self.disk, address).is_some()
    }

    /// Number of chunks in the memory tier.
    pub fn memory_len(&self) -> (n: usize)
        ensures
            n == self@.memory.len(),
    {
        self.memory.len()
    }

    /// Number of chunks in the disk tier.
    pub fn disk_len(&self) -> (n: usize)
        ensures
            n == self@.disk.len(),
    {
        self.disk.len()
    }

    /// Looks the chunk at `address` up, in the memory tier first and then in
    /// the disk tier. A chunk that is found becomes the most recently used
    /// one of the memory tier; the disk tier is left as it is.
    pub fn get(&mut self, address: &[u8; 32]) -> (found: Option<Vec<u8>>)
        requires
            old(self).wf(),
        ensures
            final(self).wf(),
            found is Some <==> old(self)@.lookup(*address) is Some,
            found matches Some(data) ==> Some(data@) == old(self)@.lookup(*address),
            final(self)@ == old(self)@.after_get(*address),
    {
        let ghost before = self@;
        match find(&self.memory, address) {
            Some(i) => {
                let data = slice_to_vec(self.memory[i].data.as_slice());
                let copy = slice_to_vec(data.as_slice());
                touch(&mut self.memory, self.memory_capacity, CacheEntry { address: *address, data: copy });
                Some(data)
            },
            None => {
                match find(&self.disk, address) {
                    Some(i) => {
                        let data = slice_to_vec(self.disk[i].data.as_slice());
                        let copy = slice_to_vec(data.as_slice());
                        touch(
                            &mut self.memory,
                            self.memory_capacity,
                            CacheEntry { address: *address, data: copy },
                        );
                        Some(data)
                    },
                    None => None,
                }
            },
        }
    }

    /// Looks the chunk at `address` up as `get` does, but leaves the cache as
    /// it is: nothing is promoted and nothing leaves the memory tier.
    pub fn peek(&self, address: &[u8; 32]) -> (found: Option<Vec<u8>>)
        requires
            self.wf(),
        ensures
            found is Some <==> self@.lookup(*address) is Some,
            found matches Some(data) ==> Some(data@) == self@.lookup(*address),
    {
        match find(&self.memory, address) {
            Some(i) => Some(slice_to_vec(self.memory[i].data.as_slice())),
            None => match find(&self.disk, address) {
                Some(i) => Some(slice_to_vec(self.disk[i].data.as_slice())),
                None => None,
            },
        }
    }

    /// The first chunk of the disk tier that no manifest names.
    fn victim(&self, index: &SyncIndex) -> (found: Option<usize>)
        requires
            self.wf(),
            index.wf(),
        ensures
            found matches Some(i) ==> first_evictable(self@.disk, index@) == Some(i as int) && i
                < self@.disk.len(),
            found is None ==> first_evictable(self@.disk, index@) is None,
    {
        let mut i: usize = 0;
        while i < self.disk.len()
            invariant
                i <= self.disk@.len(),
                index.wf(),
                forall|j: int| 0 <= j < i ==> !evictable(self@.disk, index@, j),
            decreases self.disk@.len() - i,
        {
            if index.reference_count(&self.disk[i].address) == 0 {
                proof {
                    assert(evictable(self@.disk, index@, i as int));
                    lemma_first_evictable(self@.disk, index@);
                    let chosen = first_evictable(self@.disk, index@)->0;
                    if chosen < i {
                        assert(!evictable(self@.disk, index@, chosen));
                    }
                    if i < chosen {
                        assert(!evictable(self@.disk, index@, i as int));
                    }
                }
                return Some(i);
            }
            i = i + 1;
        }
        proof {
            lemma_first_evictable(self@.disk, index@);
            if let Some(chosen) = first_evictable(self@.disk, index@) {
                assert(!evictable(self@.disk, index@, chosen));
            }
        }
        None
    }

    /// Writes the chunk through both tiers. In the memory tier it becomes
    /// the most recently used chunk. In the disk tier it takes the place of
    /// what was held under its address, or is added; where the tier is full,
    /// the first chunk that no manifest of `index` names makes room. Where
    /// there is no such chunk the cache refuses and stays as it was.
    pub fn put(&mut self, address: [u8; 32], data: Vec<u8>, index: &SyncIndex) -> (r: Result<
        (),
        CacheError,
    >)
        requires
            old(self).wf(),
            index.wf(),
        ensures
            final(self).wf(),
            r is Ok <==> old(self)@.after_put(index@, EntryModel { address, data: data@ }) is Some,
            r is Ok ==> Some(final(self)@) == old(self)@.after_put(
                index@,
                EntryModel { address, data: data@ },
            ),
            r is Err ==> final(self)@ == old(self)@,
    {
        let ghost before = self@;
        let ghost model = EntryModel { address, data: data@ };
        let copy = slice_to_vec(data.as_slice());
        match find(&self.disk, &address) {
            Some(i) => {
                self.disk[i] = CacheEntry { address, data };
                assert(tier_model(self.disk@) =~= before.disk.update(i as int, model));
            },
            None => {
                if self.disk.len() >= self.disk_capacity {
                    match self.victim(index) {
                        Some(v) => {
                            self.disk.remove(v);
                            assert(tier_model(self.disk@) =~= before.disk.remove(v as int));
                        },
                        None => {
                            return Err(CacheError::DiskFull);
                        },
                    }
                }
                let ghost middle = tier_model(self.disk@);
                self.disk.push(CacheEntry { address, data });
                assert(tier_model(self.disk@) =~= middle.push(model));
            },
        }
        proof {
            lemma_stored_wf(before.disk, before.disk_capacity, index@, model);
        }
        touch(&mut self.memory, self.memory_capacity, CacheEntry { address, data: copy });
        Ok(())
    }

    /// Takes the chunk at `address` out of both tiers, as is done for a chunk
    /// whose bytes turned out not to match its address. Says whether a tier
    /// held it.
    pub fn invalidate(&mut self, address: &[u8; 32]) -> (held: bool)
        requires
            old(self).wf(),
        ensures
            final(self).wf(),
            held == old(self)@.lookup(*address) is Some,
            final(self)@ == old(self)@.after_invalidate(*address),
            final(self)@.lookup(*address) is None,
    {
        let ghost before = self@;
        let in_memory = match find(&self.memory, address) {
            Some(i) => {
                proof {
                    lemma_tier_remove(before.memory, i as int);
                }
                self.memory.remove(i);
                assert(tier_model(self.memory@) =~= before.memory.remove(i as int));
                true
            },
            None => false,
        };
        let on_disk = match find(&self.disk, address) {
            Some(i) => {
                proof {
                    lemma_tier_remove(before.disk, i as int);
                }
                self.disk.remove(i);
                assert(tier_model(self.disk@) =~= before.disk.remove(i as int));
                true
            },
            None => false,
        };
        in_memory || on_disk
    }
}

impl Default for ChunkCache {
    fn default() -> (cache: Self)
        ensures
            cache.wf(),
            cache@.memory.len() == 0,
            cache@.disk.len() == 0,
    {
        ChunkCache::new()
    }
}

} // verus!
