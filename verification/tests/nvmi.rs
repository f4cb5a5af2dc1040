use nvpool::nvmi::{
    check_chunks, message_at, pmem_check, run, Meta, NvmiAction, NvmiMode, NvmiOutcome, PmemReport,
};

fn perform(region: &mut [u8], address: usize, actions: &[NvmiAction]) {
    for action in actions {
        if let NvmiAction::Write(target, data) = action {
            let from = target - address;
            region[from..from + data.len()].copy_from_slice(data);
        }
    }
}

fn write_plan(address: usize, len: usize, chunk: usize, flush: bool) -> Vec<NvmiAction> {
    match run(NvmiMode::PMemWrite(address, len, chunk, 200, flush)) {
        NvmiOutcome::Actions(actions) => actions,
        other => panic!("{other:?}"),
    }
}

#[test]
fn the_message_repeats() {
    let text: Vec<u8> = (0..26).map(message_at).collect();
    assert_eq!(text, b"Hello There; Hello There; ");
}

#[test]
fn the_header_lies_in_front_of_the_payload() {
    let meta = Meta { magic: *b"PMEMOBJ1", payload_len: 0x0102, payload_offset: 24 };
    assert_eq!(
        meta.to_bytes(),
        b"PMEMOBJ1\x02\x01\0\0\0\0\0\0\x18\0\0\0\0\0\0\0".to_vec()
    );
    assert_eq!(meta.payload_ptr(1000), 1024);
}

#[test]
fn a_message_is_written_to_a_cleared_page() {
    match run(NvmiMode::Simple(4096, b"hi")) {
        NvmiOutcome::Actions(actions) => assert_eq!(
            actions,
            vec![
                NvmiAction::Write(4096, vec![0; 4096]),
                NvmiAction::Flush(4096),
                NvmiAction::Write(4096, b"hi".to_vec()),
                NvmiAction::Flush(4096),
            ]
        ),
        other => panic!("{other:?}"),
    }
}

#[test]
fn an_object_is_written_in_chunks() {
    let actions = write_plan(1000, 20, 8, true);
    let header = Meta { magic: *b"PMEMOBJ1", payload_len: 20, payload_offset: 24 }.to_bytes();
    assert_eq!(
        actions,
        vec![
            NvmiAction::Write(1000, vec![0; 44]),
            NvmiAction::Flush(1000),
            NvmiAction::Write(1000, header),
            NvmiAction::Flush(1000),
            NvmiAction::Write(1024, b"Hello Th".to_vec()),
            NvmiAction::Flush(1024),
            NvmiAction::Sleep(200),
            NvmiAction::Write(1032, b"ere; Hel".to_vec()),
            NvmiAction::Flush(1032),
            NvmiAction::Sleep(200),
            NvmiAction::Write(1040, b"lo T".to_vec()),
            NvmiAction::Flush(1040),
            NvmiAction::Sleep(200),
            NvmiAction::Flush(1024),
        ]
    );
    assert_eq!(write_plan(1000, 20, 8, false).len(), 4 + 3 * 2 + 1);
}

#[test]
fn a_finished_write_is_complete() {
    let mut region = vec![0xaa; 200];
    perform(&mut region, 0, &write_plan(0, 150, 16, true));
    assert_eq!(
        run(NvmiMode::PMemCheck(&region, 16)),
        NvmiOutcome::Report(PmemReport::Object { declared: 150, contiguous: 150, complete: true })
    );
    assert_eq!(region[174], 0xaa);
    for checked_size in [1, 7, 16, 150, 1000] {
        assert_eq!(
            pmem_check(&region, checked_size),
            PmemReport::Object { declared: 150, contiguous: 150, complete: true }
        );
    }
}

#[test]
fn an_interrupted_write_is_noticed() {
    let actions = write_plan(0, 150, 16, true);
    for chunks in 0..10 {
        let mut region = vec![0xaa; 200];
        perform(&mut region, 0, &actions[..4 + chunks * 3]);
        assert_eq!(
            pmem_check(&region, 16),
            PmemReport::Object { declared: 150, contiguous: chunks * 16, complete: false }
        );
        // Checked in other chunks than those it was written in.
        assert_eq!(
            pmem_check(&region, 7),
            PmemReport::Object { declared: 150, contiguous: chunks * 16 / 7 * 7, complete: false }
        );
    }
}

#[test]
fn what_an_earlier_write_left_is_not_taken_for_the_object() {
    let actions = write_plan(0, 150, 8, false);
    let mut region = vec![0; 200];
    perform(&mut region, 0, &actions);
    // Written once more, and interrupted before the last chunks.
    perform(&mut region, 0, &actions[..4 + 16 * 2]);
    assert_eq!(
        pmem_check(&region, 8),
        PmemReport::Object { declared: 150, contiguous: 128, complete: false }
    );
    // And before the last byte.
    perform(&mut region, 0, &actions[..4 + 18 * 2]);
    assert_eq!(
        pmem_check(&region, 8),
        PmemReport::Object { declared: 150, contiguous: 144, complete: false }
    );
}

#[test]
fn a_region_without_header_is_reported() {
    assert_eq!(pmem_check(&[0; 64], 8), PmemReport::NoHeader);
    assert!(matches!(run(NvmiMode::Nothing), NvmiOutcome::Nothing));
}

#[test]
fn chunks_are_checked_whole() {
    let mut payload: Vec<u8> = (0..40).map(message_at).collect();
    assert_eq!(check_chunks(&payload, 40, 7), 40);
    assert_eq!(check_chunks(&payload, 39, 100), 39);
    assert_eq!(check_chunks(&payload, 0, 0), 0);
    payload[20] = 0;
    assert_eq!(check_chunks(&payload, 40, 7), 14);
    assert_eq!(check_chunks(&payload, 40, 10), 20);
    payload[0] = 0;
    assert_eq!(check_chunks(&payload, 40, 10), 0);
}
