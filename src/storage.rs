//! The durable substrate: memory regions multiplexed over one persistent
//! address space, the identifier counter cell, and the ordered map of encoded
//! reports. All three are provided by `ic_stable_structures`; this module holds
//! them and states what the library relies on from each call.
//!
//! A map or cell owns its region: the facts stated here about one of them hold
//! while no second binding writes the same region. The persistent address
//! space is one per process, so a process binds it once.
use ic_stable_structures::memory_manager::{MemoryId, MemoryManager, VirtualMemory};
use ic_stable_structures::reader::Reader;
use ic_stable_structures::storable::Blob;
use ic_stable_structures::{Cell, DefaultMemoryImpl, StableBTreeMap};
use vstd::prelude::*;

verus! {

/// Largest value, in bytes, that the report map accepts.
pub const MAX_VALUE_SIZE: usize = 2048;

/// Region holding the identifier counter.
pub const COUNTER_REGION: u8 = 0;

/// Region holding the report map.
pub const REPORTS_REGION: u8 = 1;

/// Region identifier that the memory manager keeps for itself.
pub const RESERVED_REGION: u8 = 255;

/// The single persistent address space.
#[verifier::external_body]
pub struct BackingMemory {
    memory: DefaultMemoryImpl,
}

/// The page allocator that splits the address space into regions.
#[verifier::external_body]
pub struct Regions {
    manager: MemoryManager<DefaultMemoryImpl>,
}

/// One independently growable region of the address space.
#[verifier::external_body]
pub struct Region {
    memory: VirtualMemory<DefaultMemoryImpl>,
}

/// A durable 64-bit cell.
#[verifier::external_body]
pub struct CounterCell {
    cell: Cell<u64, VirtualMemory<DefaultMemoryImpl>>,
}

/// A durable ordered map from identifiers to byte strings of bounded size.
#[verifier::external_body]
pub struct ReportMap {
    map: StableBTreeMap<u64, Blob<2048>, VirtualMemory<DefaultMemoryImpl>>,
}

/// A byte string of at most [`MAX_VALUE_SIZE`] bytes, as the map stores it.
#[verifier::external_body]
pub struct StoredBytes {
    blob: Blob<2048>,
}

/// The value a counter cell holds.
pub uninterp spec fn cell_value(c: CounterCell) -> u64;

/// The entries a report map holds.
pub uninterp spec fn map_entries(m: ReportMap) -> Map<u64, Seq<u8>>;

/// The bytes a stored value holds.
pub uninterp spec fn stored_bytes(b: StoredBytes) -> Seq<u8>;

/// The bytes the persistent address space holds, all its pages in order.
pub uninterp spec fn backing_bytes(m: BackingMemory) -> Seq<u8>;

/// The bytes a region holds, all its pages in order.
pub uninterp spec fn region_bytes(r: Region) -> Seq<u8>;

/// The first `len` bytes of `b`, or all of them where `b` is shorter.
pub open spec fn head(b: Seq<u8>, len: int) -> Seq<u8> {
    if len < b.len() {
        b.subrange(0, len)
    } else {
        b
    }
}

/// The number that a region identifier carries.
pub uninterp spec fn memory_id_number(id: MemoryId) -> u8;

/// The identifier of the region a handle refers to.
pub uninterp spec fn region_number(r: Region) -> u8;

/// The region a counter cell is bound to.
pub uninterp spec fn counter_region(c: CounterCell) -> u8;

/// The region a report map is bound to.
pub uninterp spec fn map_region(m: ReportMap) -> u8;

/// Relies on `DefaultMemoryImpl::default`: the persistent address space of
/// this process.
#[verifier::external_body]
pub(crate) fn backing_memory() -> BackingMemory {
    BackingMemory { memory: DefaultMemoryImpl::default() }
}

/// Relies on `MemoryManager::init`: binds the page allocator to the address
/// space, recovering the regions it already holds. It stops the process on an
/// address space that holds a manager of another layout version, as its
/// `requires` rules out.
#[verifier::external_body]
pub(crate) fn regions_of(memory: BackingMemory) -> Regions
    requires
        manager_header_ok(backing_bytes(memory)),
{
    Regions { manager: MemoryManager::init(memory.memory) }
}

/// Identifier of a region, as the memory manager takes it.
#[verifier::external_type_specification]
#[verifier::external_body]
pub struct ExMemoryId(MemoryId);

/// Relies on `MemoryId::new`, which panics on the identifier that the memory
/// manager keeps for itself.
pub assume_specification[ MemoryId::new ](id: u8) -> (r: MemoryId)
    requires
        id != RESERVED_REGION,
    ensures
        memory_id_number(r) == id,
;

/// Relies on `MemoryManager::get`: a handle to the region with that identifier.
#[verifier::external_body]
pub(crate) fn region(regions: &Regions, id: MemoryId) -> (r: Region)
    ensures
        region_number(r) == memory_id_number(id),
{
    Region { memory: regions.manager.get(id) }
}

/// Relies on `Cell::new`: on success the cell holds `value`, whatever the
/// region held before.
#[verifier::external_body]
pub(crate) fn new_counter(memory: Region, value: u64) -> (r: Option<CounterCell>)
    ensures
        r matches Some(c) ==> cell_value(c) == value,
        r matches Some(c) ==> counter_region(c) == region_number(memory),
{
    Cell::new(memory.memory, value).ok().map(|cell| CounterCell { cell })
}

/// Relies on `Cell::init`: loads the cell that the region holds, or writes
/// `value` into a region that holds none. It stops the process on a region
/// whose stored cell does not hold eight bytes, as its `requires`
/// rules out.
#[verifier::external_body]
pub(crate) fn open_counter(memory: Region, value: u64) -> (r: Option<CounterCell>)
    requires
        counter_header_ok(region_bytes(memory)),
    ensures
        r matches Some(c) ==> counter_region(c) == region_number(memory),
        r matches Some(c) ==> !has_magic(region_bytes(memory), 0x53, 0x43, 0x4c) ==> cell_value(c)
            == value,
{
    Cell::init(memory.memory, value).ok().map(|cell| CounterCell { cell })
}

/// Relies on `Cell::get`: the value the cell holds.
#[verifier::external_body]
pub(crate) fn counter_value(c: &CounterCell) -> (r: u64)
    ensures
        r == cell_value(*c),
{
    *c.cell.get()
}

/// Relies on `Cell::set`: it returns the previous value and the cell holds
/// `value`. It fails only where the region must grow, and a cell built by
/// `Cell::new` or `Cell::init` already has room for any `u64`.
#[verifier::external_body]
pub(crate) fn set_counter(c: &mut CounterCell, value: u64) -> (r: Result<u64, ()>)
    ensures
        r is Ok,
        r matches Ok(prev) ==> prev == cell_value(*old(c)),
        cell_value(*final(c)) == value,
        counter_region(*final(c)) == counter_region(*old(c)),
{
    c.cell.set(value).map_err(|_| ())
}

/// Relies on `StableBTreeMap::new`: an empty map, whatever the region held before.
#[verifier::external_body]
pub(crate) fn new_report_map(memory: Region) -> (r: ReportMap)
    ensures
        map_entries(r).dom().is_empty(),
        map_region(r) == region_number(memory),
{
    ReportMap { map: StableBTreeMap::new(memory.memory) }
}

/// Relies on `StableBTreeMap::init`: loads the map that the region holds, or
/// an empty one. It stops the process on a region whose stored map has
/// another layout version or other size bounds, or whose allocator header is damaged, as
/// its `requires` rules out.
#[verifier::external_body]
pub(crate) fn open_report_map(memory: Region) -> (r: ReportMap)
    requires
        map_header_ok(region_bytes(memory)),
    ensures
        map_region(r) == region_number(memory),
        !has_magic(region_bytes(memory), 0x42, 0x54, 0x52) ==> map_entries(r).dom().is_empty(),
{
    ReportMap { map: StableBTreeMap::init(memory.memory) }
}

/// Relies on `Blob::try_from`: fails exactly on more than [`MAX_VALUE_SIZE`]
/// bytes, and otherwise holds the bytes given.
#[verifier::external_body]
pub(crate) fn to_stored(b: &[u8]) -> (r: Option<StoredBytes>)
    ensures
        r is Some <==> b@.len() <= MAX_VALUE_SIZE,
        r matches Some(s) ==> stored_bytes(s) == b@,
{
    Blob::<2048>::try_from(b).ok().map(|blob| StoredBytes { blob })
}

/// Relies on `StableBTreeMap::insert`: stores or replaces the value for `key`
/// and returns the value it replaced. Like every write to a region, it stops
/// the process when the address space cannot grow.
#[verifier::external_body]
pub(crate) fn map_insert(m: &mut ReportMap, key: u64, value: StoredBytes) -> (r: Option<Vec<u8>>)
    ensures
        map_entries(*final(m)) == map_entries(*old(m)).insert(key, stored_bytes(value)),
        map_region(*final(m)) == map_region(*old(m)),
        r is Some <==> map_entries(*old(m)).contains_key(key),
        r matches Some(b) ==> b@ == map_entries(*old(m))[key],
{
    m.map.insert(key, value.blob).map(|b| b.as_slice().to_vec())
}

/// Relies on `StableBTreeMap::get`: the value stored for `key`, if any.
#[verifier::external_body]
pub(crate) fn map_get(m: &ReportMap, key: u64) -> (r: Option<Vec<u8>>)
    ensures
        r is Some <==> map_entries(*m).contains_key(key),
        r matches Some(b) ==> b@ == map_entries(*m)[key],
{
    m.map.get(&key).map(|b| b.as_slice().to_vec())
}

/// Relies on `StableBTreeMap::remove`: removes the entry for `key` and
/// returns its value, if any.
#[verifier::external_body]
pub(crate) fn map_remove(m: &mut ReportMap, key: u64) -> (r: Option<Vec<u8>>)
    ensures
        map_entries(*final(m)) == map_entries(*old(m)).remove(key),
        map_region(*final(m)) == map_region(*old(m)),
        r is Some <==> map_entries(*old(m)).contains_key(key),
        r matches Some(b) ==> b@ == map_entries(*old(m))[key],
{
    m.map.remove(&key).map(|b| b.as_slice().to_vec())
}

/// Relies on `Reader::read` at offset zero: it copies the first `len` bytes
/// of the region, or all of them where the region is shorter, and fails
/// without panicking only on an empty region.
#[verifier::external_body]
pub(crate) fn region_prefix(r: &Region, len: usize) -> (out: Vec<u8>)
    ensures
        out@ == head(region_bytes(*r), len as int),
{
    let mut buf = vec![0u8; len];
    match Reader::new(&r.memory, 0).read(&mut buf) {
        Ok(n) => buf.into_iter().take(n).collect(),
        Err(_) => Vec::new(),
    }
}

/// Relies on `Reader::read` at offset zero: it copies the first `len` bytes
/// of the address space, or all of them where it is shorter, and fails
/// without panicking only on an empty address space.
#[verifier::external_body]
pub(crate) fn backing_prefix(m: &BackingMemory, len: usize) -> (out: Vec<u8>)
    ensures
        out@ == head(backing_bytes(*m), len as int),
{
    let mut buf = vec![0u8; len];
    match Reader::new(&m.memory, 0).read(&mut buf) {
        Ok(n) => buf.into_iter().take(n).collect(),
        Err(_) => Vec::new(),
    }
}

/// Whether `h` starts with the three bytes `a`, `b`, `c`.
pub open spec fn has_magic(h: Seq<u8>, a: u8, b: u8, c: u8) -> bool {
    h.len() >= 3 && h[0] == a && h[1] == b && h[2] == c
}

/// A manager header this library can load: none, or one of layout version one.
pub open spec fn manager_header_ok(h: Seq<u8>) -> bool {
    has_magic(h, 0x4d, 0x47, 0x52) ==> h.len() >= 4 && h[3] == 1
}

/// A cell header this library can load: none, another version (which the cell
/// refuses with an error), or version one holding an eight-byte value that
/// follows the eight-byte header.
pub open spec fn counter_header_ok(h: Seq<u8>) -> bool {
    has_magic(h, 0x53, 0x43, 0x4c) && h.len() >= 4 && h[3] == 1 ==> h.len() >= 16 && h[4] == 8
        && h[5] == 0 && h[6] == 0 && h[7] == 0
}

/// A map header this library can load: none, or version one with keys of
/// eight bytes and values of [`MAX_VALUE_SIZE`] bytes, followed at byte 52 by
/// an allocator header of version one.
pub open spec fn map_header_ok(h: Seq<u8>) -> bool {
    has_magic(h, 0x42, 0x54, 0x52) ==> h.len() >= 56 && h[3] == 1 && h[4] == 8 && h[5] == 0
        && h[6] == 0 && h[7] == 0 && h[8] == 0 && h[9] == 8 && h[10] == 0 && h[11] == 0
        && h[52] == 0x42 && h[53] == 0x54 && h[54] == 0x41 && h[55] == 1
}

/// A header predicate reads the same on the first `n` bytes as on the whole.
proof fn lemma_head_same(b: Seq<u8>, n: int)
    requires
        n >= 0,
    ensures
        head(b, n).len() <= n,
        b.len() >= n ==> head(b, n).len() == n,
        forall|i: int| 0 <= i < head(b, n).len() ==> #[trigger] head(b, n)[i] == b[i],
        b.len() < n ==> head(b, n) == b,
{
}

pub(crate) proof fn lemma_manager_head(b: Seq<u8>)
    ensures
        manager_header_ok(head(b, 4)) == manager_header_ok(b),
        has_magic(head(b, 4), 0x4d, 0x47, 0x52) == has_magic(b, 0x4d, 0x47, 0x52),
{
    lemma_head_same(b, 4);
}

pub(crate) proof fn lemma_counter_head(b: Seq<u8>)
    ensures
        counter_header_ok(head(b, 16)) == counter_header_ok(b),
        has_magic(head(b, 16), 0x53, 0x43, 0x4c) == has_magic(b, 0x53, 0x43, 0x4c),
{
    lemma_head_same(b, 16);
}

pub(crate) proof fn lemma_map_head(b: Seq<u8>)
    ensures
        map_header_ok(head(b, 56)) == map_header_ok(b),
        has_magic(head(b, 56), 0x42, 0x54, 0x52) == has_magic(b, 0x42, 0x54, 0x52),
{
    lemma_head_same(b, 56);
}

pub(crate) fn starts_with(h: &Vec<u8>, a: u8, b: u8, c: u8) -> (r: bool)
    ensures
        r == has_magic(h@, a, b, c),
{
    h.len() >= 3 && h[0] == a && h[1] == b && h[2] == c
}

/// Checks the header at the start of the address space.
pub fn check_manager_header(h: &Vec<u8>) -> (r: bool)
    ensures
        r == manager_header_ok(h@),
{
    !starts_with(h, 0x4d, 0x47, 0x52) || (h.len() >= 4 && h[3] == 1)
}

/// Checks the header at the start of the counter's region.
pub fn check_counter_header(h: &Vec<u8>) -> (r: bool)
    ensures
        r == counter_header_ok(h@),
{
    if starts_with(h, 0x53, 0x43, 0x4c) && h.len() >= 4 && h[3] == 1 {
        h.len() >= 16 && h[4] == 8 && h[5] == 0 && h[6] == 0 && h[7] == 0
    } else {
        true
    }
}

/// Checks the header at the start of the reports' region.
pub fn check_map_header(h: &Vec<u8>) -> (r: bool)
    ensures
        r == map_header_ok(h@),
{
    !starts_with(h, 0x42, 0x54, 0x52) || (h.len() >= 56 && h[3] == 1 && h[4] == 8 && h[5] == 0
        && h[6] == 0 && h[7] == 0 && h[8] == 0 && h[9] == 8 && h[10] == 0 && h[11] == 0
        && h[52] == 0x42 && h[53] == 0x54 && h[54] == 0x41 && h[55] == 1)
}

} // verus!
