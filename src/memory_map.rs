//! The boot memory map: the regions of physical memory the firmware reports,
//! and what they say of each frame.

use crate::frame::FrameType;
use crate::pmm::PAGE_SIZE;
use vstd::prelude::*;

verus! {

/// The kind of a region in the boot memory map.
#[derive(Debug, Clone, Copy, PartialEq, Eq, Structural)]
pub enum MmapEntryType {
    Usable,
    Reserved,
    AcpiReclaimable,
    AcpiNvs,
    BadMemory,
    BootloaderReclaimable,
    KernelAndModules,
    Framebuffer,
}

/// One region of the boot memory map: `len` bytes of physical memory from `base`.
#[derive(Debug, Clone, Copy)]
pub struct MmapEntry {
    pub base: u64,
    pub len: u64,
    pub typ: MmapEntryType,
}

/// The frame type that a memory-map region gives its frames.
pub open spec fn frame_type_for(typ: MmapEntryType) -> FrameType {
    match typ {
        MmapEntryType::Usable => FrameType::Generic,
        MmapEntryType::BootloaderReclaimable => FrameType::BootReclaim,
        MmapEntryType::AcpiReclaimable => FrameType::AcpiReclaim,
        MmapEntryType::KernelAndModules
        | MmapEntryType::Reserved
        | MmapEntryType::AcpiNvs
        | MmapEntryType::Framebuffer => FrameType::Reserved,
        MmapEntryType::BadMemory => FrameType::Unusable,
    }
}

/// The type of the frames of a memory-map region of kind `typ`.
pub fn frame_type_of(typ: MmapEntryType) -> (r: FrameType)
    ensures
        r == frame_type_for(typ),
{
    match typ {
        MmapEntryType::Usable => FrameType::Generic,
        MmapEntryType::BootloaderReclaimable => FrameType::BootReclaim,
        MmapEntryType::AcpiReclaimable => FrameType::AcpiReclaim,
        MmapEntryType::KernelAndModules
        | MmapEntryType::Reserved
        | MmapEntryType::AcpiNvs
        | MmapEntryType::Framebuffer => FrameType::Reserved,
        MmapEntryType::BadMemory => FrameType::Unusable,
    }
}

/// The highest end address of any region of the map.
pub open spec fn map_end(map: Seq<MmapEntry>) -> int
    decreases map.len(),
{
    if map.len() == 0 {
        0
    } else {
        let rest = map_end(map.drop_last());
        let last = map.last().base + map.last().len;
        if rest >= last {
            rest
        } else {
            last
        }
    }
}

/// Frames the table covers: the map's end rounded up to whole frames.
pub open spec fn page_count(map: Seq<MmapEntry>) -> int {
    (map_end(map) + PAGE_SIZE - 1) / PAGE_SIZE as int
}

/// Bytes the table needs, two per frame, rounded up to whole frames.
pub open spec fn table_bytes(map: Seq<MmapEntry>) -> int {
    (page_count(map) * 2 + PAGE_SIZE - 1) / PAGE_SIZE as int * PAGE_SIZE
}

/// The region is usable memory large enough to hold `bytes` of table.
pub open spec fn hosts_table(e: MmapEntry, bytes: int) -> bool {
    e.typ == MmapEntryType::Usable && e.len >= bytes
}

/// Entry `k` is the first region of the map that can hold the table.
pub open spec fn first_host(map: Seq<MmapEntry>, k: int) -> bool {
    &&& 0 <= k < map.len()
    &&& hosts_table(map[k], table_bytes(map))
    &&& forall|j: int| 0 <= j < k ==> !#[trigger] hosts_table(map[j], table_bytes(map))
}

/// The region covers whole frame `i`.
pub open spec fn covers(e: MmapEntry, i: int) -> bool {
    e.base as int / PAGE_SIZE as int <= i < e.base as int / PAGE_SIZE as int + e.len as int / PAGE_SIZE as int
}

/// The type that the map gives frame `i`: that of the last region covering
/// it, or `Unusable` where none does.
pub open spec fn mapped_type(map: Seq<MmapEntry>, i: int) -> FrameType
    decreases map.len(),
{
    if map.len() == 0 {
        FrameType::Unusable
    } else if covers(map.last(), i) {
        frame_type_for(map.last().typ)
    } else {
        mapped_type(map.drop_last(), i)
    }
}

/// The type of frame `i` in a table built from `map` in region `host`: the
/// frames under the table are `Reserved`, the rest as the map says.
pub open spec fn boot_type(map: Seq<MmapEntry>, host: MmapEntry, i: int) -> FrameType {
    if host.base as int / PAGE_SIZE as int <= i < host.base as int / PAGE_SIZE as int + table_bytes(map)
        / PAGE_SIZE as int {
        FrameType::Reserved
    } else {
        mapped_type(map, i)
    }
}

/// Every region ends at or below the end of the map.
pub proof fn lemma_map_end(map: Seq<MmapEntry>, k: int)
    requires
        0 <= k < map.len(),
    ensures
        map[k].base + map[k].len <= map_end(map),
    decreases map.len(),
{
    if k < map.len() - 1 {
        lemma_map_end(map.drop_last(), k);
    }
}

/// A page-aligned region of `len` bytes from `base` covers whole frames up to
/// its end frame.
pub(crate) proof fn lemma_region_frames(base: int, len: int, end: int)
    requires
        0 <= base,
        0 <= len,
        base % PAGE_SIZE as int == 0,
        base + len <= end,
    ensures
        base / PAGE_SIZE as int + len / PAGE_SIZE as int <= (end + PAGE_SIZE - 1) / PAGE_SIZE as int,
{
    let a = base / 4096;
    assert(base == 4096 * a) by (nonlinear_arith)
        requires a == base / 4096, base % 4096 == 0;
    let l = len / 4096;
    assert(4096 * l <= len) by (nonlinear_arith)
        requires l == len / 4096, 0 <= len;
    assert(4096 * (a + l) <= end);
    assert(a + l <= (end + 4095) / 4096) by (nonlinear_arith)
        requires 4096 * (a + l) <= end;
}

/// The frames the table must cover and the bytes it needs.
pub fn table_size(memory_map: &[MmapEntry]) -> (r: (u64, u64))
    requires
        forall|k: int|
            #![trigger memory_map@[k]]
            0 <= k < memory_map@.len() ==> memory_map@[k].base as int % PAGE_SIZE as int == 0
                && memory_map@[k].base + memory_map@[k].len <= u64::MAX,
    ensures
        r.0 as int == page_count(memory_map@),
        r.1 as int == table_bytes(memory_map@),
{
    let ghost map = memory_map@;
    let n = memory_map.len();
    // The end of the highest region.
    let mut end: u64 = 0;
    let mut k: usize = 0;
    while k < n
        invariant
            k <= n == map.len(),
            map == memory_map@,
            end as int == map_end(map.take(k as int)),
            forall|j: int|
                #![trigger map[j]]
                0 <= j < map.len() ==> map[j].base as int % PAGE_SIZE as int == 0 && map[j].base
                    + map[j].len <= u64::MAX,
        decreases n - k,
    {
        assert(map.take(k + 1).drop_last() == map.take(k as int));
        let entry_end = memory_map[k].base + memory_map[k].len;
        if entry_end > end {
            end = entry_end;
        }
        k += 1;
    }
    assert(map.take(n as int) == map);
    let pages: u64 = end / 4096 + if end % 4096 == 0 {
        0
    } else {
        1
    };
    assert(pages as int == page_count(map)) by (nonlinear_arith)
        requires
            pages as int == end as int / 4096 + if end as int % 4096 == 0 {
                0int
            } else {
                1int
            },
            page_count(map) == (end as int + 4095) / 4096,
    ;
    let bytes_raw: u64 = pages * 2;
    let bytes: u64 = (bytes_raw / 4096 + if bytes_raw % 4096 == 0 {
        0
    } else {
        1
    }) * 4096;
    assert(bytes as int == table_bytes(map)) by (nonlinear_arith)
        requires
            bytes as int == (bytes_raw as int / 4096 + if bytes_raw as int % 4096 == 0 {
                0int
            } else {
                1int
            }) * 4096,
            bytes_raw as int == page_count(map) * 2,
            table_bytes(map) == (page_count(map) * 2 + 4095) / 4096 * 4096,
    ;
    (pages, bytes)
}

/// The first region that can hold `bytes` of table.
pub(crate) fn find_host(memory_map: &[MmapEntry], bytes: u64) -> (r: usize)
    ensures
        r <= memory_map@.len(),
        forall|j: int| 0 <= j < r ==> !#[trigger] hosts_table(memory_map@[j], bytes as int),
        r < memory_map@.len() ==> hosts_table(memory_map@[r as int], bytes as int),
{
    let ghost map = memory_map@;
    let n = memory_map.len();
    // The first usable region large enough to hold the table.
    let mut host: usize = 0;
    while host < n
        invariant
            host <= n == map.len(),
            map == memory_map@,
            forall|j: int| 0 <= j < host ==> !#[trigger] hosts_table(map[j], bytes as int),
        ensures
            host <= n,
            forall|j: int| 0 <= j < host ==> !#[trigger] hosts_table(map[j], bytes as int),
            host < n ==> hosts_table(map[host as int], bytes as int),
        decreases n - host,
    {
        if memory_map[host].typ == MmapEntryType::Usable && memory_map[host].len >= bytes {
            break;
        }
        host += 1;
    }
    host
}

/// The index of the first usable region that can hold the frame table, or
/// `None` when there is none.
pub fn table_host(memory_map: &[MmapEntry]) -> (r: Option<usize>)
    requires
        forall|k: int|
            #![trigger memory_map@[k]]
            0 <= k < memory_map@.len() ==> memory_map@[k].base as int % PAGE_SIZE as int == 0
                && memory_map@[k].base + memory_map@[k].len <= u64::MAX,
    ensures
        r is None <==> !exists|k: int|
            0 <= k < memory_map@.len() && #[trigger] hosts_table(memory_map@[k], table_bytes(memory_map@)),
        r matches Some(k) ==> first_host(memory_map@, k as int),
{
    let (_, bytes) = table_size(memory_map);
    let host = find_host(memory_map, bytes);
    if host < memory_map.len() {
        Some(host)
    } else {
        None
    }
}

/// A map whose only usable region is exactly as large as the table it
/// calls for has that region as the table's host, and the frames of that
/// region are the ones a table built from the map marks `Reserved`.
pub proof fn lemma_exact_fit_host(map: Seq<MmapEntry>, k: int)
    requires
        0 <= k < map.len(),
        map[k].typ == MmapEntryType::Usable,
        map[k].len == table_bytes(map),
        forall|j: int| 0 <= j < map.len() && j != k ==> #[trigger] map[j].typ != MmapEntryType::Usable,
    ensures
        first_host(map, k),
        forall|i: int|
            map[k].base as int / PAGE_SIZE as int <= i < map[k].base as int / PAGE_SIZE as int + map[k].len
                as int / PAGE_SIZE as int ==> #[trigger] boot_type(map, map[k], i) == FrameType::Reserved,
{
    assert forall|j: int| 0 <= j < k implies !#[trigger] hosts_table(map[j], table_bytes(map)) by {
        assert(map[j].typ != MmapEntryType::Usable);
    }
}

} // verus!
