//! Memory and records that the boot loader hands over.

use crate::layout::PAGE_SIZE;
use vstd::prelude::*;
use x86_64::{PhysAddr, VirtAddr};

verus! {

/// Physical addresses have 52 bits.
pub const PHYS_LIMIT: u64 = 0x10_0000_0000_0000;

/// Bytes of the header in front of each boot record.
pub const TAG_HEADER_SIZE: usize = 8;

/// A region in the memory map of the boot loader.
#[derive(Clone, Copy, PartialEq, Eq, Structural, Debug)]
pub struct MemoryArea {
    pub start: u64,
    pub end: u64,
    pub available: bool,
}

/// What an EFI memory region is used for.
#[derive(Clone, Copy, PartialEq, Eq, Structural, Debug)]
pub enum MemoryKind {
    LoaderCode,
    LoaderData,
    BootServicesCode,
    BootServicesData,
    Conventional,
    Other,
}

/// A region in the EFI memory map.
#[derive(Clone, Copy, PartialEq, Eq, Structural, Debug)]
pub struct EfiArea {
    pub kind: MemoryKind,
    pub phys_start: u64,
    pub page_count: u64,
}

/// Page frames from the one at `start` up to, and without, the one at `end`.
#[derive(Clone, Copy, PartialEq, Eq, Structural, Debug)]
pub struct FrameRange {
    pub start: u64,
    pub end: u64,
}

/// Page frames that can be used, and whether write protection has to be taken off first.
#[derive(Clone, Copy, PartialEq, Eq, Structural, Debug)]
pub struct UsableRange {
    pub frames: FrameRange,
    pub unprotect: bool,
}

/// Where the memory map comes from.
#[derive(Clone, Copy, PartialEq, Eq, Structural, Debug)]
pub enum MemoryMapSource {
    /// EFI boot services are exited to obtain it.
    ExitBootServices,
    /// The boot loader provides the EFI memory map.
    EfiMap,
    /// The boot loader provides its own memory map.
    BootLoaderMap,
}

/// What to do at one level of the page tables.
#[derive(Clone, Copy, PartialEq, Eq, Structural, Debug)]
pub enum WalkStep {
    /// Make the entry writable; the walk is over.
    MakeWritable,
    /// Go on in the table that the entry refers to.
    Descend,
}

/// The largest multiple of `align` that is at most `addr`.
pub open spec fn round_down(addr: int, align: int) -> int {
    addr / align * align
}

/// The virtual address is canonical: its upper 17 bits are equal.
pub open spec fn is_canonical(addr: int) -> bool {
    0 <= addr < 0x8000_0000_0000 || 0xffff_8000_0000_0000 <= addr <= u64::MAX
}

/// `x86_64::PhysAddr::align_up`: the address rounded up to a multiple of `align`. It panics where
/// address or result have more than 52 bits.
#[verifier::external_body]
fn phys_align_up(addr: u64, align: u64) -> (aligned: u64)
    requires
        crate::layout::is_alignment(align as int),
        addr < PHYS_LIMIT,
        crate::layout::round_up(addr as int, align as int) < PHYS_LIMIT,
    ensures
        aligned == crate::layout::round_up(addr as int, align as int),
{
    PhysAddr::new(addr).align_up(align).as_u64()
}

/// `x86_64::PhysAddr::align_down`: the address rounded down to a multiple of `align`. It panics
/// where the address has more than 52 bits.
#[verifier::external_body]
fn phys_align_down(addr: u64, align: u64) -> (aligned: u64)
    requires
        crate::layout::is_alignment(align as int),
        addr < PHYS_LIMIT,
    ensures
        aligned == round_down(addr as int, align as int),
{
    PhysAddr::new(addr).align_down(align).as_u64()
}

/// `x86_64::VirtAddr::align_up`: the address rounded up to a multiple of `align`. It panics where
/// the address is not canonical, and is not said where the result is not.
#[verifier::external_body]
fn virt_align_up(addr: u64, align: u64) -> (aligned: u64)
    requires
        crate::layout::is_alignment(align as int),
        is_canonical(addr as int),
        is_canonical(crate::layout::round_up(addr as int, align as int)),
    ensures
        aligned == crate::layout::round_up(addr as int, align as int),
{
    VirtAddr::new(addr).align_up(align).as_u64()
}

/// Page frames that lie wholly in a region.
pub open spec fn frames_in(area: MemoryArea) -> FrameRange {
    FrameRange {
        start: crate::layout::round_up(area.start as int, 4096) as u64,
        end: round_down(area.end as int, 4096) as u64,
    }
}

/// The frames of the available regions, in the order of the map.
pub open spec fn available_frames(areas: Seq<MemoryArea>) -> Seq<FrameRange>
    decreases areas.len(),
{
    if areas.len() == 0 {
        Seq::empty()
    } else {
        let rest = available_frames(areas.drop_last());
        if areas.last().available {
            rest.push(frames_in(areas.last()))
        } else {
            rest
        }
    }
}

/// Frames of the available regions of the map of the boot loader.
pub fn scan_multiboot2_memory_map(areas: &Vec<MemoryArea>) -> (frames: Vec<FrameRange>)
    requires
        forall|i: int| #![trigger areas@[i]]
            0 <= i < areas@.len() && areas@[i].available ==> {
                &&& crate::layout::round_up(areas@[i].start as int, 4096) < PHYS_LIMIT
                &&& areas@[i].end < PHYS_LIMIT
            },
    ensures
        frames@ == available_frames(areas@),
{
    let mut frames: Vec<FrameRange> = Vec::new();
    let mut i: usize = 0;
    while i < areas.len()
        invariant
            i <= areas@.len(),
            forall|i: int| #![trigger areas@[i]]
                0 <= i < areas@.len() && areas@[i].available ==> {
                    &&& crate::layout::round_up(areas@[i].start as int, 4096) < PHYS_LIMIT
                    &&& areas@[i].end < PHYS_LIMIT
                },
            frames@ == available_frames(areas@.take(i as int)),
        decreases areas.len() - i,
    {
        let area: MemoryArea = areas[i];
        proof {
            crate::layout::lemma_layout_alignments();
            assert(areas@.take(i + 1).drop_last() =~= areas@.take(i as int));
            assert(area == areas@[i as int]);
        }
        if area.available {
            frames.push(
                FrameRange {
                    start: phys_align_up(area.start, PAGE_SIZE as u64),
                    end: phys_align_down(area.end, PAGE_SIZE as u64),
                },
            );
        }
        i = i + 1;
    }
    assert(areas@.take(i as int) =~= areas@);
    frames
}

/// The region holds nothing that is needed any more.
pub open spec fn is_usable(kind: MemoryKind) -> bool {
    !(kind is Other)
}

/// Page frames of an EFI region, from the first aligned address on.
pub open spec fn frames_of(area: EfiArea) -> UsableRange {
    let start = crate::layout::round_up(area.phys_start as int, 4096);
    UsableRange {
        frames: FrameRange { start: start as u64, end: (start + area.page_count * 4096) as u64 },
        unprotect: area.kind != MemoryKind::Conventional,
    }
}

/// The frames of the usable EFI regions, in the order of the map.
pub open spec fn usable_frames(areas: Seq<EfiArea>) -> Seq<UsableRange>
    decreases areas.len(),
{
    if areas.len() == 0 {
        Seq::empty()
    } else {
        let rest = usable_frames(areas.drop_last());
        if is_usable(areas.last().kind) {
            rest.push(frames_of(areas.last()))
        } else {
            rest
        }
    }
}

/// Frames of the EFI regions that can be used once boot services are exited. All but conventional
/// memory may be write-protected.
pub fn scan_efi_memory_map(areas: &Vec<EfiArea>) -> (frames: Vec<UsableRange>)
    requires
        forall|i: int| #![trigger areas@[i]]
            0 <= i < areas@.len() && is_usable(areas@[i].kind) ==> crate::layout::round_up(
                areas@[i].phys_start as int,
                4096,
            ) + areas@[i].page_count * 4096 < PHYS_LIMIT,
    ensures
        frames@ == usable_frames(areas@),
{
    let mut frames: Vec<UsableRange> = Vec::new();
    let mut i: usize = 0;
    while i < areas.len()
        invariant
            i <= areas@.len(),
            forall|i: int| #![trigger areas@[i]]
                0 <= i < areas@.len() && is_usable(areas@[i].kind) ==> crate::layout::round_up(
                    areas@[i].phys_start as int,
                    4096,
                ) + areas@[i].page_count * 4096 < PHYS_LIMIT,
            frames@ == usable_frames(areas@.take(i as int)),
        decreases areas.len() - i,
    {
        let area: EfiArea = areas[i];
        proof {
            crate::layout::lemma_layout_alignments();
            assert(areas@.take(i + 1).drop_last() =~= areas@.take(i as int));
            assert(area == areas@[i as int]);
        }
        let usable: bool = match area.kind {
            MemoryKind::Other => false,
            _ => true,
        };
        if usable {
            let start: u64 = phys_align_up(area.phys_start, PAGE_SIZE as u64);
            frames.push(
                UsableRange {
                    frames: FrameRange { start, end: start + area.page_count * PAGE_SIZE as u64 },
                    unprotect: area.kind != MemoryKind::Conventional,
                },
            );
        }
        i = i + 1;
    }
    assert(areas@.take(i as int) =~= areas@);
    frames
}

/// Where the memory map comes from: from EFI boot services where they run, or else from the boot
/// loader, which may have that of EFI or its own.
pub open spec fn map_source(boot_services_running: bool, efi_map: bool, loader_map: bool) -> Option<
    MemoryMapSource,
> {
    if boot_services_running {
        Some(MemoryMapSource::ExitBootServices)
    } else if efi_map {
        Some(MemoryMapSource::EfiMap)
    } else if loader_map {
        Some(MemoryMapSource::BootLoaderMap)
    } else {
        None
    }
}

/// Where the memory map comes from; `None` where there is none.
pub fn choose_memory_map(boot_services_running: bool, efi_map: bool, loader_map: bool) -> (source:
    Option<MemoryMapSource>)
    ensures
        source == map_source(boot_services_running, efi_map, loader_map),
{
    if boot_services_running {
        Some(MemoryMapSource::ExitBootServices)
    } else if efi_map {
        Some(MemoryMapSource::EfiMap)
    } else if loader_map {
        Some(MemoryMapSource::BootLoaderMap)
    } else {
        None
    }
}

/// Level of the root page table.
pub fn root_level(five_level_paging: bool) -> (level: usize)
    ensures
        level == if five_level_paging { 5int } else { 4int },
{
    if five_level_paging {
        5
    } else {
        4
    }
}

/// What to do at a level of the page tables: entries of the lowest level and of huge pages are made
/// writable.
pub open spec fn step_at(level: int, huge_page: bool) -> WalkStep {
    if level == 1 || huge_page {
        WalkStep::MakeWritable
    } else {
        WalkStep::Descend
    }
}

/// What to do at a level of the page tables to take write protection off a page.
pub fn unprotect_step(level: usize, huge_page: bool) -> (step: WalkStep)
    ensures
        step == step_at(level as int, huge_page),
{
    if level == 1 || huge_page {
        WalkStep::MakeWritable
    } else {
        WalkStep::Descend
    }
}

/// Page frames from an aligned address on up to the one that holds the last byte before `end`.
pub open spec fn frames_around(start: u64, end: int) -> FrameRange {
    FrameRange { start, end: crate::layout::round_up(end, 4096) as u64 }
}

/// Page frames of the kernel image.
pub fn kernel_image_region(start: u64, end: u64) -> (frames: FrameRange)
    requires
        start % 4096 == 0,
        start < PHYS_LIMIT,
        crate::layout::round_up(end as int, 4096) < PHYS_LIMIT,
    ensures
        frames == frames_around(start, end as int),
{
    proof { crate::layout::lemma_layout_alignments(); }
    FrameRange { start, end: phys_align_up(end, PAGE_SIZE as u64) }
}

/// Pages of the frame buffer.
pub fn framebuffer_pages(address: u64, height: u32, pitch: u32) -> (pages: FrameRange)
    requires
        address % 4096 == 0,
        height * pitch <= u32::MAX,
        is_canonical(address as int),
        is_canonical(address + height * pitch),
        is_canonical(crate::layout::round_up(address + height * pitch, 4096)),
    ensures
        pages == frames_around(address, address + height * pitch),
{
    proof { crate::layout::lemma_layout_alignments(); }
    FrameRange { start: address, end: virt_align_up(address + (height * pitch) as u64, PAGE_SIZE as u64) }
}

/// Where the ACPI root record lies.
pub open spec fn root_record(v2_tag: Option<usize>, v1_tag: Option<usize>) -> Option<usize> {
    match (v2_tag, v1_tag) {
        (Some(tag), _) => Some((tag + TAG_HEADER_SIZE) as usize),
        (None, Some(tag)) => Some((tag + TAG_HEADER_SIZE) as usize),
        (None, None) => None,
    }
}

/// Address of the ACPI root record: behind the header of the newer tag, or else of the older one;
/// `None` where there is neither.
pub fn rsdp_address(v2_tag: Option<usize>, v1_tag: Option<usize>) -> (address: Option<usize>)
    requires
        v2_tag matches Some(tag) ==> tag + TAG_HEADER_SIZE <= usize::MAX,
        v1_tag matches Some(tag) ==> tag + TAG_HEADER_SIZE <= usize::MAX,
    ensures
        address == root_record(v2_tag, v1_tag),
{
    match v2_tag {
        Some(tag) => Some(tag + TAG_HEADER_SIZE),
        None => match v1_tag {
            Some(tag) => Some(tag + TAG_HEADER_SIZE),
            None => None,
        },
    }
}

/// Bytes in a range of page frames.
pub open spec fn bytes_in(frames: FrameRange) -> int {
    frames.end - frames.start
}

/// Bytes of NVRAM in a range of page frames.
pub fn nvram_size(frames: FrameRange) -> (size: usize)
    requires
        frames.start <= frames.end <= usize::MAX,
        frames.start % 4096 == 0,
        frames.end % 4096 == 0,
    ensures
        size == bytes_in(frames),
{
    let count: u64 = (frames.end - frames.start) / PAGE_SIZE as u64;
    count as usize * PAGE_SIZE
}

/// The index is that of the first record that has the name, or none has it.
pub open spec fn is_first_named(
    names: Seq<Option<Vec<u8>>>,
    name: Seq<u8>,
    index: Option<usize>,
) -> bool {
    match index {
        Some(index) => {
            &&& index < names.len()
            &&& is_named(names[index as int], name)
            &&& forall|j: int| 0 <= j < index ==> !is_named(#[trigger] names[j], name)
        },
        None => forall|j: int| 0 <= j < names.len() ==> !is_named(#[trigger] names[j], name),
    }
}

/// The first record that has the name.
pub fn find_record(names: &Vec<Option<Vec<u8>>>, name: &[u8]) -> (index: Option<usize>)
    ensures
        is_first_named(names@, name@, index),
{
    let mut i: usize = 0;
    while i < names.len()
        invariant
            i <= names@.len(),
            forall|j: int| 0 <= j < i ==> !is_named(#[trigger] names@[j], name@),
        decreases names.len() - i,
    {
        if let Some(found) = &names[i] {
            if crate::table::bytes_equal(found.as_slice(), name) {
                return Some(i);
            }
        }
        i = i + 1;
    }
    None
}

/// The record has the name.
pub open spec fn is_named(record: Option<Vec<u8>>, name: Seq<u8>) -> bool {
    record matches Some(found) && found@ == name
}

/// Frames that are handed out of an available region lie in it, where there is room for one.
pub proof fn law_frames_lie_in_their_area(area: MemoryArea)
    requires
        crate::layout::round_up(area.start as int, 4096) <= u64::MAX,
    ensures
        area.start <= frames_in(area).start,
        frames_in(area).end <= area.end,
        frames_in(area).start % 4096 == 0,
        frames_in(area).end % 4096 == 0,
{
}

/// Every region that is available is handed out.
pub proof fn law_available_areas_are_handed_out(areas: Seq<MemoryArea>, i: int)
    requires
        0 <= i < areas.len(),
        areas[i].available,
    ensures
        available_frames(areas).contains(frames_in(areas[i])),
    decreases areas.len(),
{
    let rest = areas.drop_last();
    if i == areas.len() - 1 {
        let all = available_frames(areas);
        assert(all[all.len() - 1] == frames_in(areas[i]));
    } else {
        assert(rest[i] == areas[i]);
        law_available_areas_are_handed_out(rest, i);
        let before = available_frames(rest);
        let k = choose|k: int| 0 <= k < before.len() && before[k] == frames_in(areas[i]);
        assert(available_frames(areas)[k] == before[k]);
    }
}

/// Only regions that are available are handed out.
pub proof fn law_only_available_areas_are_handed_out(areas: Seq<MemoryArea>, k: int)
    requires
        0 <= k < available_frames(areas).len(),
    ensures
        exists|i: int| #![trigger areas[i]]
            0 <= i < areas.len() && areas[i].available && frames_in(areas[i]) == available_frames(
                areas,
            )[k],
    decreases areas.len(),
{
    if areas.len() > 0 {
        let rest = areas.drop_last();
        let before = available_frames(rest);
        if k < before.len() {
            law_only_available_areas_are_handed_out(rest, k);
            let i = choose|i: int| #![trigger rest[i]]
                0 <= i < rest.len() && rest[i].available && frames_in(rest[i]) == before[k];
            assert(areas[i] == rest[i]);
        } else {
            let i = areas.len() - 1;
            assert(areas[i].available && frames_in(areas[i]) == available_frames(areas)[k]);
        }
    }
}

/// All whole page frames of a region are handed out.
pub proof fn law_whole_frames_are_handed_out(area: MemoryArea, page: int)
    requires
        crate::layout::round_up(area.start as int, 4096) <= u64::MAX,
        page % 4096 == 0,
        area.start <= page,
        page + 4096 <= area.end,
    ensures
        frames_in(area).start <= page,
        page + 4096 <= frames_in(area).end,
{
}

/// A map is read region by region, in order: what two maps hold one after the other is what the one
/// holds, and then what the other does.
pub proof fn law_map_is_read_in_order(first: Seq<MemoryArea>, second: Seq<MemoryArea>)
    ensures
        available_frames(first + second) == available_frames(first) + available_frames(second),
    decreases second.len(),
{
    if second.len() == 0 {
        assert(first + second =~= first);
        assert(available_frames(first) + available_frames(second) =~= available_frames(first));
    } else {
        let rest = second.drop_last();
        law_map_is_read_in_order(first, rest);
        assert((first + second).drop_last() =~= first + rest);
        assert((first + second).last() == second.last());
        assert(available_frames(first + second) =~= available_frames(first) + available_frames(
            second,
        ));
    }
}

/// A region of an EFI map is handed out exactly where it is conventional memory, or was used by
/// the loader or by boot services.
pub proof fn law_efi_region_is_handed_out(area: EfiArea)
    ensures
        match area.kind {
            MemoryKind::Other => usable_frames(seq![area]) == Seq::<UsableRange>::empty(),
            MemoryKind::LoaderCode | MemoryKind::LoaderData | MemoryKind::BootServicesCode
            | MemoryKind::BootServicesData | MemoryKind::Conventional => usable_frames(seq![area])
                == seq![frames_of(area)],
        },
{
    assert(seq![area].drop_last() =~= Seq::empty());
    assert(usable_frames(seq![area].drop_last()) =~= Seq::empty());
    assert(seq![area].last() == area);
    if !(area.kind is Other) {
        assert(usable_frames(seq![area]) =~= seq![frames_of(area)]);
    }
}

/// The frames of an EFI region are as many as it has pages, from its first aligned address on, and
/// are unprotected first unless they are conventional memory.
pub proof fn law_efi_frames_are_those_of_the_region(area: EfiArea)
    requires
        crate::layout::round_up(area.phys_start as int, 4096) + area.page_count * 4096 <= u64::MAX,
    ensures
        frames_of(area).frames.start % 4096 == 0,
        area.phys_start <= frames_of(area).frames.start < area.phys_start + 4096,
        frames_of(area).frames.end - frames_of(area).frames.start == area.page_count * 4096,
        frames_of(area).unprotect == !(area.kind is Conventional),
{
}

/// An EFI map is read region by region, in order.
pub proof fn law_efi_map_is_read_in_order(first: Seq<EfiArea>, second: Seq<EfiArea>)
    ensures
        usable_frames(first + second) == usable_frames(first) + usable_frames(second),
    decreases second.len(),
{
    if second.len() == 0 {
        assert(first + second =~= first);
        assert(usable_frames(first) + usable_frames(second) =~= usable_frames(first));
    } else {
        let rest = second.drop_last();
        law_efi_map_is_read_in_order(first, rest);
        assert((first + second).drop_last() =~= first + rest);
        assert((first + second).last() == second.last());
        assert(usable_frames(first + second) =~= usable_frames(first) + usable_frames(second));
    }
}

/// Frames around a region hold all of it, and no whole frame more.
pub proof fn law_frames_around_hold_the_region(start: u64, end: int, byte: int)
    requires
        start % 4096 == 0,
        start <= end,
        crate::layout::round_up(end, 4096) <= u64::MAX,
    ensures
        start <= byte < end ==> frames_around(start, end).start <= byte < frames_around(
            start,
            end,
        ).end,
        frames_around(start, end).start == start,
        frames_around(start, end).end % 4096 == 0,
        end <= frames_around(start, end).end < end + 4096,
{
}

/// There is a memory map wherever one of its sources is there, and it comes from one that is. EFI
/// boot services come first, the map of the boot loader last.
pub proof fn law_memory_map_comes_from_what_is_there(
    boot_services_running: bool,
    efi_map: bool,
    loader_map: bool,
)
    ensures
        map_source(boot_services_running, efi_map, loader_map) is None <==> !boot_services_running
            && !efi_map && !loader_map,
        map_source(boot_services_running, efi_map, loader_map) == Some(
            MemoryMapSource::ExitBootServices,
        ) <==> boot_services_running,
        map_source(boot_services_running, efi_map, loader_map) == Some(MemoryMapSource::EfiMap)
            <==> efi_map && !boot_services_running,
{
}

/// Page tables are walked down to the lowest level, or to a huge page, and no further.
pub proof fn law_walk_ends_at_the_page(level: int, huge_page: bool)
    ensures
        huge_page ==> step_at(level, huge_page) is MakeWritable,
        !huge_page ==> (step_at(level, huge_page) is MakeWritable <==> level == 1),
{
}

/// The ACPI root record lies eight bytes into the newer tag where there is one, or else into the
/// older one.
pub proof fn law_root_record_lies_in_its_tag(v2_tag: Option<usize>, v1_tag: Option<usize>)
    ensures
        v2_tag matches Some(tag) ==> tag + 8 <= usize::MAX ==> root_record(v2_tag, v1_tag) == Some(
            (tag + 8) as usize,
        ),
        v2_tag is None ==> (v1_tag matches Some(tag) ==> tag + 8 <= usize::MAX ==> root_record(
            v2_tag,
            v1_tag,
        ) == Some((tag + 8) as usize)),
        root_record(v2_tag, v1_tag) is None <==> v2_tag is None && v1_tag is None,
{
}

/// Each page frame has 4096 bytes.
pub proof fn law_frames_have_the_size_of_a_page(start: u64, count: int)
    requires
        0 <= count,
        start + count * 4096 <= u64::MAX,
    ensures
        bytes_in(FrameRange { start, end: (start + count * 4096) as u64 }) == count * 4096,
{
}

/// The first record with the name is found, whatever comes behind it; where none has the name,
/// none is found.
pub proof fn law_first_record_is_found(
    names: Seq<Option<Vec<u8>>>,
    name: Seq<u8>,
    index: Option<usize>,
    i: usize,
)
    requires
        is_first_named(names, name, index),
    ensures
        i < names.len() && (names[i as int] matches Some(found) && found@ == name) && (forall|j: int|
            #![trigger names[j]]
            0 <= j < i ==> names[j] is None || names[j]->Some_0@ != name) ==> index == Some(i),
        (forall|j: int| #![trigger names[j]]
            0 <= j < names.len() ==> names[j] is None || names[j]->Some_0@ != name) ==> index
            is None,
{
    if i < names.len() && (names[i as int] matches Some(found) && found@ == name) {
        assert(is_named(names[i as int], name));
    }
}

} // verus!
