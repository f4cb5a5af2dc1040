use nvpool::banner::{build_date, compiler_name, date_text, or_unknown, short_ref, version_text};
use nvpool::boot::{
    choose_memory_map, find_record, framebuffer_pages, kernel_image_region, nvram_size, root_level,
    rsdp_address, scan_efi_memory_map, scan_multiboot2_memory_map, unprotect_step, EfiArea,
    FrameRange, MemoryArea, MemoryKind, MemoryMapSource, UsableRange, WalkStep,
};
use nvpool::memory::MemorySpace;

#[test]
fn available_regions_are_cut_to_whole_frames() {
    let areas = vec![
        MemoryArea { start: 1, end: 0x9fc00, available: true },
        MemoryArea { start: 0x9fc00, end: 0xa0000, available: false },
        MemoryArea { start: 0x10_0000, end: 0x7ffe_0000, available: true },
    ];
    assert_eq!(
        scan_multiboot2_memory_map(&areas),
        vec![
            FrameRange { start: 0x1000, end: 0x9f000 },
            FrameRange { start: 0x10_0000, end: 0x7ffe_0000 },
        ]
    );
    assert_eq!(scan_multiboot2_memory_map(&vec![]), vec![]);
}

#[test]
fn efi_regions_are_filtered_by_kind() {
    let area = |kind, phys_start, page_count| EfiArea { kind, phys_start, page_count };
    let areas = vec![
        area(MemoryKind::Conventional, 0x1000, 3),
        area(MemoryKind::Other, 0x8000, 1),
        area(MemoryKind::LoaderCode, 0x10001, 2),
        area(MemoryKind::LoaderData, 0x20000, 1),
        area(MemoryKind::BootServicesCode, 0x30000, 1),
        area(MemoryKind::BootServicesData, 0x40000, 1),
    ];
    let range = |start, end, unprotect| UsableRange { frames: FrameRange { start, end }, unprotect };
    assert_eq!(
        scan_efi_memory_map(&areas),
        vec![
            range(0x1000, 0x4000, false),
            range(0x11000, 0x13000, true),
            range(0x20000, 0x21000, true),
            range(0x30000, 0x31000, true),
            range(0x40000, 0x41000, true),
        ]
    );
}

#[test]
fn the_memory_map_is_chosen() {
    assert_eq!(choose_memory_map(true, true, true), Some(MemoryMapSource::ExitBootServices));
    assert_eq!(choose_memory_map(false, true, true), Some(MemoryMapSource::EfiMap));
    assert_eq!(choose_memory_map(false, false, true), Some(MemoryMapSource::BootLoaderMap));
    assert_eq!(choose_memory_map(false, false, false), None);
}

#[test]
fn the_page_walk_ends_at_a_page() {
    assert_eq!(root_level(true), 5);
    assert_eq!(root_level(false), 4);
    assert_eq!(unprotect_step(4, false), WalkStep::Descend);
    assert_eq!(unprotect_step(3, true), WalkStep::MakeWritable);
    assert_eq!(unprotect_step(1, false), WalkStep::MakeWritable);
}

#[test]
fn regions_of_the_kernel() {
    assert_eq!(
        kernel_image_region(0x10_0000, 0x12_3456),
        FrameRange { start: 0x10_0000, end: 0x12_4000 }
    );
    assert_eq!(
        framebuffer_pages(0xfd00_0000, 600, 3201),
        FrameRange { start: 0xfd00_0000, end: 0xfd1d_5000 }
    );
    assert_eq!(nvram_size(FrameRange { start: 0x1000, end: 0x5000 }), 0x4000);
}

#[test]
fn the_acpi_root_record_lies_behind_its_header() {
    assert_eq!(rsdp_address(Some(100), Some(200)), Some(108));
    assert_eq!(rsdp_address(None, Some(200)), Some(208));
    assert_eq!(rsdp_address(None, None), None);
}

#[test]
fn records_are_found_by_name() {
    let names = vec![None, Some(b"shell".to_vec()), Some(b"initrd".to_vec())];
    assert_eq!(find_record(&names, b"initrd"), Some(2));
    assert_eq!(find_record(&names, b"shell"), Some(1));
    assert_eq!(find_record(&names, b""), None);
}

#[test]
fn the_build_date_is_shown() {
    assert_eq!(build_date("Tue, 14 Feb 2023 17:21:41 +0000"), "2023-02-14 17:21:41");
    assert_eq!(build_date("Fri, 28 Nov 2014 21:00:09 +0900"), "2014-11-28 21:00:09");
    assert_eq!(build_date("Sat, 31 Dec 2016 23:59:60 +0000"), "2016-12-31 23:59:60");
    assert_eq!(build_date("yesterday"), "Unknown");
    assert_eq!(date_text(Some((0, 0, 0))), "1970-01-01 00:00:00");
    assert_eq!(date_text(Some((86399, 0, -3600))), "1970-01-01 22:59:59");
    assert_eq!(date_text(Some((i64::MAX, 0, 0))), "Unknown");
    assert_eq!(date_text(Some((0, 0, 86400))), "Unknown");
    assert_eq!(date_text(None), "Unknown");
    assert_eq!(or_unknown(Some(String::from("GRUB"))), "GRUB");
    assert_eq!(or_unknown(None), "Unknown");
}

#[test]
fn the_version_is_shown() {
    assert_eq!(version_text("0.1.0", "release", "3"), "v0.1.0 (release - O3)");
    assert_eq!(short_ref("refs/heads/master"), "master");
    assert_eq!(short_ref("master"), "master");
    assert_eq!(short_ref("a/"), "");
    assert_eq!(compiler_name("rustc 1.80.0 (051478957 2024-07-21)"), "rustc 1.80.0");
    assert_eq!(compiler_name("\t rustc "), "rustc");
    assert_eq!(compiler_name(" (x"), "");
    assert_eq!(compiler_name("\u{3000}rustc\u{a0}(x)"), "rustc");
    let white = (0..0x11_0000).filter_map(char::from_u32).filter(|c| {
        compiler_name(&c.to_string()).is_empty()
    });
    let points: Vec<u32> = white.map(|c| c as u32).filter(|c| *c != '(' as u32).collect();
    assert_eq!(
        points,
        vec![
            0x9, 0xa, 0xb, 0xc, 0xd, 0x20, 0x85, 0xa0, 0x1680, 0x2000, 0x2001, 0x2002, 0x2003,
            0x2004, 0x2005, 0x2006, 0x2007, 0x2008, 0x2009, 0x200a, 0x2028, 0x2029, 0x202f, 0x205f,
            0x3000,
        ]
    );
}

#[test]
fn memory_spaces_differ() {
    assert_ne!(MemorySpace::Kernel, MemorySpace::User);
}
