//! Writing an object to NVRAM chunk by chunk, and checking how much of it arrived.

use vstd::bytes::*;
use vstd::prelude::*;
use vstd::slice::slice_subrange;

verus! {

/// Bytes of the record in front of the payload.
pub const PAYLOAD_OFFSET: usize = 24;

/// Bytes that [`NvmiMode::Simple`] clears.
pub const SIMPLE_SIZE: usize = 4096;

/// Bytes per chunk, unless asked for otherwise.
pub const CHUNK_SIZE: usize = 65536;

/// Milliseconds between chunks, unless asked for otherwise.
pub const DELAY_MS: usize = 200;

/// Record in front of an object.
#[derive(Clone, Copy, Debug)]
pub struct Meta {
    pub magic: [u8; 8],
    pub payload_len: usize,
    pub payload_offset: usize,
}

/// What to do with a region of NVRAM.
#[derive(Clone, Debug)]
pub enum NvmiMode<'a> {
    /// Clear a page at the address and write the message there.
    Simple(usize, &'a [u8]),
    /// Write an object at the address: length of the payload, bytes per chunk, milliseconds
    /// between chunks, and whether each chunk is flushed.
    PMemWrite(usize, usize, usize, usize, bool),
    /// Check the object in the region, chunk by chunk.
    PMemCheck(&'a [u8], usize),
    /// Do nothing.
    Nothing,
}

/// One step of writing to NVRAM.
#[derive(Debug, PartialEq, Eq)]
pub enum NvmiAction {
    /// Write the bytes at the address.
    Write(usize, Vec<u8>),
    /// Flush the cache line at the address.
    Flush(usize),
    /// Wait for so many milliseconds.
    Sleep(usize),
}

/// What was found of an object.
#[derive(Clone, Copy, PartialEq, Eq, Structural, Debug)]
pub enum PmemReport {
    /// There is no object header.
    NoHeader,
    /// There is an object: declared length, length of the part that arrived, and whether that is
    /// all of it.
    Object { declared: usize, contiguous: usize, complete: bool },
}

/// What came of a [`NvmiMode`].
#[derive(Debug, PartialEq, Eq)]
pub enum NvmiOutcome {
    /// Steps to perform, in order.
    Actions(Vec<NvmiAction>),
    /// What was found.
    Report(PmemReport),
    Nothing,
}

/// What an [`NvmiAction`] means.
pub enum ActionView {
    Write(int, Seq<u8>),
    Flush(int),
    Sleep(int),
}

impl View for NvmiAction {
    type V = ActionView;

    open spec fn view(&self) -> ActionView {
        match *self {
            NvmiAction::Write(address, data) => ActionView::Write(address as int, data@),
            NvmiAction::Flush(address) => ActionView::Flush(address as int),
            NvmiAction::Sleep(ms) => ActionView::Sleep(ms as int),
        }
    }
}

/// The meaning of a list of actions.
pub open spec fn actions_view(actions: Seq<NvmiAction>) -> Seq<ActionView> {
    actions.map_values(|a: NvmiAction| a@)
}

/// `Hello There; `
pub open spec fn message() -> Seq<u8> {
    seq![72u8, 101u8, 108u8, 108u8, 111u8, 32u8, 84u8, 104u8, 101u8, 114u8, 101u8, 59u8, 32u8]
}

/// The byte of the payload at a position: the message over and over.
pub open spec fn message_byte(position: int) -> u8 {
    message()[position % 13]
}

/// The payload from one position to another.
pub open spec fn payload(from: int, to: int) -> Seq<u8> {
    Seq::new((to - from) as nat, |i: int| message_byte(from + i))
}

/// `PMEMOBJ1`
pub open spec fn magic() -> Seq<u8> {
    seq![80u8, 77u8, 69u8, 77u8, 79u8, 66u8, 74u8, 49u8]
}

/// The byte of the payload at a position.
pub fn message_at(pos_in_payload: usize) -> (byte: u8)
    ensures
        byte == message_byte(pos_in_payload as int),
{
    let message: [u8; 13] = [72, 101, 108, 108, 111, 32, 84, 104, 101, 114, 101, 59, 32];
    assert(message@ =~= self::message());
    message[pos_in_payload % 13]
}

/// The payload from one position to another.
fn payload_bytes(from: usize, to: usize) -> (bytes: Vec<u8>)
    requires
        from <= to,
    ensures
        bytes@ == payload(from as int, to as int),
{
    let mut bytes: Vec<u8> = Vec::new();
    let mut i: usize = from;
    while i < to
        invariant
            from <= i <= to,
            bytes@ == payload(from as int, i as int),
        decreases to - i,
    {
        bytes.push(message_at(i));
        i = i + 1;
        assert(bytes@ =~= payload(from as int, i as int));
    }
    bytes
}

/// A [`Meta`] as it lies in memory: the magic bytes, then the two numbers, little-endian.
pub open spec fn meta_bytes(magic: Seq<u8>, payload_len: usize, payload_offset: usize) -> Seq<u8> {
    magic + spec_u64_to_le_bytes(payload_len as u64) + spec_u64_to_le_bytes(payload_offset as u64)
}

/// The number in memory at an offset.
pub open spec fn number_at(bytes: Seq<u8>, offset: int) -> u64 {
    spec_u64_from_le_bytes(bytes.subrange(offset, offset + 8))
}

impl Meta {
    /// The record as it lies in memory.
    pub fn to_bytes(&self) -> (bytes: Vec<u8>)
        ensures
            bytes@ == meta_bytes(self.magic@, self.payload_len, self.payload_offset),
            bytes@.len() == PAYLOAD_OFFSET,
    {
        proof { vstd::bytes::lemma_auto_spec_u64_to_from_le_bytes(); }
        let mut bytes: Vec<u8> = vstd::slice::slice_to_vec(self.magic.as_slice());
        let mut len: Vec<u8> = u64_to_le_bytes(self.payload_len as u64);
        let mut offset: Vec<u8> = u64_to_le_bytes(self.payload_offset as u64);
        bytes.append(&mut len);
        bytes.append(&mut offset);
        bytes
    }

    /// Address of the payload, for a record at an address.
    pub fn payload_ptr(&self, address: usize) -> (payload: usize)
        requires
            address + self.payload_offset <= usize::MAX,
        ensures
            payload == address + self.payload_offset,
    {
        address + self.payload_offset
    }
}

/// How much of a payload arrived, in whole chunks: every byte of that part is right, and the
/// chunk behind it has a wrong byte.
pub open spec fn arrived(bytes: Seq<u8>, payload_len: int, chunk_size: int, contiguous: int) -> bool {
    &&& 0 <= contiguous <= payload_len
    &&& contiguous == payload_len || contiguous % chunk_size == 0
    &&& forall|i: int| 0 <= i < contiguous ==> #[trigger] bytes[i] == message_byte(i)
    &&& contiguous < payload_len ==> exists|i: int|
        contiguous <= i < contiguous + chunk_size && i < payload_len && #[trigger] bytes[i]
            != message_byte(i)
}

/// The part of a payload that arrived is determined.
pub proof fn law_arrived_part_is_determined(
    bytes: Seq<u8>,
    payload_len: int,
    chunk_size: int,
    a: int,
    b: int,
)
    requires
        chunk_size > 0,
        arrived(bytes, payload_len, chunk_size, a),
        arrived(bytes, payload_len, chunk_size, b),
    ensures
        a == b,
{
    if a < b {
        lemma_arrived_not_less(bytes, payload_len, chunk_size, a, b);
    } else if b < a {
        lemma_arrived_not_less(bytes, payload_len, chunk_size, b, a);
    }
}

proof fn lemma_arrived_not_less(
    bytes: Seq<u8>,
    payload_len: int,
    chunk_size: int,
    a: int,
    b: int,
)
    requires
        chunk_size > 0,
        arrived(bytes, payload_len, chunk_size, a),
        arrived(bytes, payload_len, chunk_size, b),
    ensures
        !(a < b),
{
    if a < b {
        let i = choose|i: int|
            a <= i < a + chunk_size && i < payload_len && #[trigger] bytes[i] != message_byte(i);
        if b < payload_len {
            assert(a + chunk_size <= b) by (nonlinear_arith)
                requires
                    a < b,
                    a % chunk_size == 0,
                    b % chunk_size == 0,
                    chunk_size > 0,
            ;
        }
        assert(bytes[i] == message_byte(i));
    }
}

/// How much of the payload arrived, in whole chunks.
pub fn check_chunks(payload: &[u8], payload_len: usize, chunk_size: usize) -> (contiguous: usize)
    requires
        payload_len <= payload@.len(),
        chunk_size > 0 || payload_len == 0,
    ensures
        arrived(payload@, payload_len as int, chunk_size as int, contiguous as int),
{
    let mut offset: usize = 0;
    while offset < payload_len
        invariant
            chunk_size > 0 || payload_len == 0,
            offset <= payload_len <= payload@.len(),
            offset == payload_len || offset as int % chunk_size as int == 0,
            forall|i: int| 0 <= i < offset ==> #[trigger] payload@[i] == message_byte(i),
        decreases payload_len - offset,
    {
        let this_chunk: usize = if chunk_size < payload_len - offset {
            chunk_size
        } else {
            payload_len - offset
        };
        let actual: &[u8] = slice_subrange(payload, offset, offset + this_chunk);
        let expected: Vec<u8> = payload_bytes(offset, offset + this_chunk);
        if !crate::table::bytes_equal(actual, expected.as_slice()) {
            proof {
                assert(actual@ != expected@);
                if forall|i: int|
                    offset <= i < offset + this_chunk ==> #[trigger] payload@[i] == message_byte(i) {
                    assert(actual@ =~= expected@);
                }
                let i = choose|i: int|
                    offset <= i < offset + this_chunk && #[trigger] payload@[i] != message_byte(i);
                assert(payload@[i] != message_byte(i));
            }
            return offset;
        }
        proof {
            assert forall|i: int| 0 <= i < offset + this_chunk implies #[trigger] payload@[i]
                == message_byte(i) by {
                if i >= offset {
                    assert(actual@[i - offset] == expected@[i - offset]);
                }
            }
            assert((offset + chunk_size) % (chunk_size as int) == 0) by (nonlinear_arith)
                requires
                    offset as int % chunk_size as int == 0,
                    chunk_size > 0,
            ;
        }
        offset = offset + this_chunk;
    }
    offset
}

/// What [`pmem_check`] reports of a region.
pub open spec fn reported(region: Seq<u8>, chunk_size: int, report: PmemReport) -> bool {
    if region.take(8) != magic() {
        report == PmemReport::NoHeader
    } else {
        let len = number_at(region, 8);
        let offset = number_at(region, 16);
        &&& report matches PmemReport::Object { declared, contiguous, complete }
        &&& declared == len
        &&& arrived(region.skip(offset as int), len as int, chunk_size, contiguous as int)
        &&& complete == (contiguous == declared)
    }
}

/// The object that a region declares lies in the region.
pub open spec fn declares_within(region: Seq<u8>) -> bool {
    region.take(8) == magic() ==> number_at(region, 8) + number_at(region, 16) <= region.len()
}

/// The region has no object, or one without payload.
pub open spec fn declares_nothing(region: Seq<u8>) -> bool {
    region.take(8) == magic() ==> number_at(region, 8) == 0
}

/// Checks how much of the object in a region arrived.
pub fn pmem_check(region: &[u8], chunk_size: usize) -> (report: PmemReport)
    requires
        region@.len() >= PAYLOAD_OFFSET,
        declares_within(region@),
        chunk_size > 0 || declares_nothing(region@),
    ensures
        reported(region@, chunk_size as int, report),
{
    let magic: [u8; 8] = [80, 77, 69, 77, 79, 66, 74, 49];
    assert(magic@ =~= self::magic());
    assert(region@.subrange(0, 8) =~= region@.take(8));
    if !crate::table::bytes_equal(slice_subrange(region, 0, 8), magic.as_slice()) {
        return PmemReport::NoHeader;
    }
    let declared: u64 = u64_from_le_bytes(slice_subrange(region, 8, 16));
    let offset: u64 = u64_from_le_bytes(slice_subrange(region, 16, 24));
    let payload: &[u8] = slice_subrange(region, offset as usize, region.len());
    assert(payload@ =~= region@.skip(offset as int));
    let contiguous: usize = check_chunks(payload, declared as usize, chunk_size);
    PmemReport::Object {
        declared: declared as usize,
        contiguous,
        complete: contiguous == declared as usize,
    }
}

/// The steps that write the payload from `written` on.
pub open spec fn chunk_actions(
    address: int,
    payload_len: int,
    chunk_size: int,
    delay_ms: int,
    flush_each_chunk: bool,
    written: int,
) -> Seq<ActionView>
    decreases payload_len - written,
{
    if written >= payload_len || chunk_size <= 0 {
        seq![ActionView::Flush(address + 24)]
    } else {
        let next = if written + chunk_size < payload_len {
            written + chunk_size
        } else {
            payload_len
        };
        let write = seq![ActionView::Write(address + 24 + written, payload(written, next))];
        let flush = if flush_each_chunk {
            seq![ActionView::Flush(address + 24 + written)]
        } else {
            Seq::empty()
        };
        write + flush + seq![ActionView::Sleep(delay_ms)] + chunk_actions(
            address,
            payload_len,
            chunk_size,
            delay_ms,
            flush_each_chunk,
            next,
        )
    }
}

/// The steps that write an object: clear the region, write and flush the header, then the
/// payload chunk by chunk.
pub open spec fn write_actions(
    address: int,
    payload_len: usize,
    chunk_size: int,
    delay_ms: int,
    flush_each_chunk: bool,
) -> Seq<ActionView> {
    seq![
        ActionView::Write(address, zeros(24 + payload_len)),
        ActionView::Flush(address),
        ActionView::Write(address, meta_bytes(magic(), payload_len, 24)),
        ActionView::Flush(address),
    ] + chunk_actions(address, payload_len as int, chunk_size, delay_ms, flush_each_chunk, 0)
}

/// So many zeros.
pub open spec fn zeros(len: int) -> Seq<u8> {
    Seq::new(len as nat, |i: int| 0u8)
}

fn zero_bytes(len: usize) -> (bytes: Vec<u8>)
    ensures
        bytes@ == zeros(len as int),
{
    let mut bytes: Vec<u8> = Vec::new();
    let mut i: usize = 0;
    while i < len
        invariant
            i <= len,
            bytes@ == zeros(i as int),
        decreases len - i,
    {
        bytes.push(0);
        i = i + 1;
        assert(bytes@ =~= zeros(i as int));
    }
    bytes
}

/// The steps that write an object at an address.
pub fn pmem_write(
    address: usize,
    payload_len: usize,
    chunk_size: usize,
    delay_ms: usize,
    flush_each_chunk: bool,
) -> (actions: Vec<NvmiAction>)
    requires
        chunk_size > 0 || payload_len == 0,
        address + PAYLOAD_OFFSET + payload_len <= usize::MAX,
    ensures
        actions_view(actions@) == write_actions(
            address as int,
            payload_len,
            chunk_size as int,
            delay_ms as int,
            flush_each_chunk,
        ),
{
    let mut actions: Vec<NvmiAction> = Vec::new();
    let magic: [u8; 8] = [80, 77, 69, 77, 79, 66, 74, 49];
    assert(magic@ =~= self::magic());
    let meta: Meta = Meta { magic, payload_len, payload_offset: PAYLOAD_OFFSET };
    actions.push(NvmiAction::Write(address, zero_bytes(PAYLOAD_OFFSET + payload_len)));
    actions.push(NvmiAction::Flush(address));
    actions.push(NvmiAction::Write(address, meta.to_bytes()));
    actions.push(NvmiAction::Flush(address));
    let ghost whole = write_actions(
        address as int,
        payload_len,
        chunk_size as int,
        delay_ms as int,
        flush_each_chunk,
    );
    let mut written: usize = 0;
    assert(actions_view(actions@) + chunk_actions(
        address as int,
        payload_len as int,
        chunk_size as int,
        delay_ms as int,
        flush_each_chunk,
        0,
    ) =~= whole);
    while written < payload_len
        invariant
            chunk_size > 0 || payload_len == 0,
            written <= payload_len,
            address + PAYLOAD_OFFSET + payload_len <= usize::MAX,
            actions_view(actions@) + chunk_actions(
                address as int,
                payload_len as int,
                chunk_size as int,
                delay_ms as int,
                flush_each_chunk,
                written as int,
            ) == whole,
        decreases payload_len - written,
    {
        let to_write: usize = if chunk_size < payload_len - written {
            chunk_size
        } else {
            payload_len - written
        };
        let target: usize = address + PAYLOAD_OFFSET + written;
        actions.push(NvmiAction::Write(target, payload_bytes(written, written + to_write)));
        if flush_each_chunk {
            actions.push(NvmiAction::Flush(target));
        }
        actions.push(NvmiAction::Sleep(delay_ms));
        written = written + to_write;
        assert(actions_view(actions@) + chunk_actions(
            address as int,
            payload_len as int,
            chunk_size as int,
            delay_ms as int,
            flush_each_chunk,
            written as int,
        ) =~= whole);
    }
    actions.push(NvmiAction::Flush(address + PAYLOAD_OFFSET));
    assert(actions_view(actions@) =~= whole);
    actions
}

/// The steps that write a message to a page.
pub open spec fn simple_actions(address: int, text: Seq<u8>) -> Seq<ActionView> {
    seq![
        ActionView::Write(address, zeros(4096)),
        ActionView::Flush(address),
        ActionView::Write(address, text),
        ActionView::Flush(address),
    ]
}

/// The steps that write a message to a page.
pub fn simple_write_to_nvme(address: usize, text: &[u8]) -> (actions: Vec<NvmiAction>)
    requires
        text@.len() <= SIMPLE_SIZE,
    ensures
        actions_view(actions@) == simple_actions(address as int, text@),
{
    let mut actions: Vec<NvmiAction> = Vec::new();
    actions.push(NvmiAction::Write(address, zero_bytes(SIMPLE_SIZE)));
    actions.push(NvmiAction::Flush(address));
    actions.push(NvmiAction::Write(address, vstd::slice::slice_to_vec(text)));
    actions.push(NvmiAction::Flush(address));
    assert(actions_view(actions@) =~= simple_actions(address as int, text@));
    actions
}

/// The mode can be run: what is written fits, chunks are not empty, and a declared object lies
/// in its region.
pub open spec fn runnable(mode: NvmiMode) -> bool {
    match mode {
        NvmiMode::Simple(_, text) => text@.len() <= SIMPLE_SIZE,
        NvmiMode::PMemWrite(address, payload_len, chunk_size, _, _) => (chunk_size > 0
            || payload_len == 0) && address + PAYLOAD_OFFSET + payload_len <= usize::MAX,
        NvmiMode::PMemCheck(region, chunk_size) => region@.len() >= PAYLOAD_OFFSET
            && declares_within(region@) && (chunk_size > 0 || declares_nothing(region@)),
        NvmiMode::Nothing => true,
    }
}

/// Runs a mode: gives the steps to perform, or what was found.
pub fn run(mode: NvmiMode) -> (outcome: NvmiOutcome)
    requires
        runnable(mode),
    ensures
        match mode {
            NvmiMode::Simple(address, text) => outcome matches NvmiOutcome::Actions(actions)
                && actions_view(actions@) == simple_actions(address as int, text@),
            NvmiMode::PMemWrite(address, payload_len, chunk_size, delay_ms, flush_each_chunk) => {
                &&& outcome matches NvmiOutcome::Actions(actions)
                &&& actions_view(actions@) == write_actions(
                    address as int,
                    payload_len,
                    chunk_size as int,
                    delay_ms as int,
                    flush_each_chunk,
                )
            },
            NvmiMode::PMemCheck(region, chunk_size) => outcome matches NvmiOutcome::Report(report)
                && reported(region@, chunk_size as int, report),
            NvmiMode::Nothing => outcome is Nothing,
        },
{
    match mode {
        NvmiMode::Simple(address, text) => NvmiOutcome::Actions(simple_write_to_nvme(address, text)),
        NvmiMode::PMemWrite(address, payload_len, chunk_size, delay_ms, flush_each_chunk) => {
            NvmiOutcome::Actions(
                pmem_write(address, payload_len, chunk_size, delay_ms, flush_each_chunk),
            )
        },
        NvmiMode::PMemCheck(region, chunk_size) => NvmiOutcome::Report(
            pmem_check(region, chunk_size),
        ),
        NvmiMode::Nothing => NvmiOutcome::Nothing,
    }
}

/// A region at an address after one step.
pub open spec fn after_action(region: Seq<u8>, address: int, action: ActionView) -> Seq<u8> {
    match action {
        ActionView::Write(target, data) => Seq::new(
            region.len(),
            |i: int|
                if target <= address + i < target + data.len() {
                    data[address + i - target]
                } else {
                    region[i]
                },
        ),
        _ => region,
    }
}

/// A region at an address after the steps.
pub open spec fn performed(region: Seq<u8>, address: int, actions: Seq<ActionView>) -> Seq<u8>
    decreases actions.len(),
{
    if actions.len() == 0 {
        region
    } else {
        after_action(performed(region, address, actions.drop_last()), address, actions.last())
    }
}

/// The steps of [`write_actions`] up to the one that has written `chunks` chunks, where all of
/// them are whole.
pub open spec fn first_chunks(
    address: int,
    payload_len: usize,
    chunk_size: int,
    delay_ms: int,
    flush_each_chunk: bool,
    chunks: int,
) -> Seq<ActionView>
    decreases chunks,
{
    if chunks <= 0 {
        seq![
            ActionView::Write(address, zeros(24 + payload_len)),
            ActionView::Flush(address),
            ActionView::Write(address, meta_bytes(magic(), payload_len, 24)),
            ActionView::Flush(address),
        ]
    } else {
        let written = (chunks - 1) * chunk_size;
        let write = seq![
            ActionView::Write(address + 24 + written, payload(written, written + chunk_size)),
        ];
        let flush = if flush_each_chunk {
            seq![ActionView::Flush(address + 24 + written)]
        } else {
            Seq::empty()
        };
        first_chunks(
            address,
            payload_len,
            chunk_size,
            delay_ms,
            flush_each_chunk,
            chunks - 1,
        ) + write + flush + seq![ActionView::Sleep(delay_ms)]
    }
}

/// A region after the header and `written` bytes of the payload were written.
pub open spec fn progress(region: Seq<u8>, payload_len: usize, written: int) -> Seq<u8> {
    Seq::new(
        region.len(),
        |i: int|
            if i < 24 {
                meta_bytes(magic(), payload_len, 24)[i]
            } else if i < 24 + written {
                message_byte(i - 24)
            } else if i < 24 + payload_len {
                0u8
            } else {
                region[i]
            },
    )
}

proof fn lemma_performed_push(region: Seq<u8>, address: int, actions: Seq<ActionView>, next: ActionView)
    ensures
        performed(region, address, actions.push(next)) == after_action(
            performed(region, address, actions),
            address,
            next,
        ),
{
    assert(actions.push(next).drop_last() =~= actions);
}

proof fn lemma_meta_len(payload_len: usize)
    ensures
        meta_bytes(magic(), payload_len, 24).len() == 24,
{
    vstd::bytes::lemma_auto_spec_u64_to_from_le_bytes();
}

/// The steps of a write come in the order of its chunks.
pub proof fn lemma_first_chunks_prefix(
    address: int,
    payload_len: usize,
    chunk_size: int,
    delay_ms: int,
    flush_each_chunk: bool,
    chunks: int,
)
    requires
        chunk_size > 0,
        chunks >= 0,
        chunks * chunk_size <= payload_len,
    ensures
        write_actions(address, payload_len, chunk_size, delay_ms, flush_each_chunk)
            == first_chunks(address, payload_len, chunk_size, delay_ms, flush_each_chunk, chunks)
            + chunk_actions(
            address,
            payload_len as int,
            chunk_size,
            delay_ms,
            flush_each_chunk,
            chunks * chunk_size,
        ),
    decreases chunks,
{
    if chunks > 0 {
        assert((chunks - 1) * chunk_size + chunk_size == chunks * chunk_size) by (nonlinear_arith);
        lemma_first_chunks_prefix(
            address,
            payload_len,
            chunk_size,
            delay_ms,
            flush_each_chunk,
            chunks - 1,
        );
        assert(write_actions(address, payload_len, chunk_size, delay_ms, flush_each_chunk)
            =~= first_chunks(address, payload_len, chunk_size, delay_ms, flush_each_chunk, chunks)
            + chunk_actions(
            address,
            payload_len as int,
            chunk_size,
            delay_ms,
            flush_each_chunk,
            chunks * chunk_size,
        ));
    } else {
        assert(chunks * chunk_size == 0) by (nonlinear_arith)
            requires
                chunks == 0,
        ;
    }
}

proof fn lemma_progress(
    region: Seq<u8>,
    address: int,
    payload_len: usize,
    chunk_size: int,
    delay_ms: int,
    flush_each_chunk: bool,
    chunks: int,
)
    requires
        region.len() >= 24 + payload_len,
        chunk_size > 0,
        chunks >= 0,
        chunks * chunk_size <= payload_len,
    ensures
        performed(
            region,
            address,
            first_chunks(address, payload_len, chunk_size, delay_ms, flush_each_chunk, chunks),
        ) == progress(region, payload_len, chunks * chunk_size),
    decreases chunks,
{
    let all = first_chunks(address, payload_len, chunk_size, delay_ms, flush_each_chunk, chunks);
    lemma_meta_len(payload_len);
    if chunks <= 0 {
        assert(chunks * chunk_size == 0) by (nonlinear_arith)
            requires
                chunks == 0,
        ;
        let none = Seq::<ActionView>::empty();
        let clear = ActionView::Write(address, zeros(24 + payload_len));
        let flush = ActionView::Flush(address);
        let header = ActionView::Write(address, meta_bytes(magic(), payload_len, 24));
        lemma_performed_push(region, address, none, clear);
        lemma_performed_push(region, address, none.push(clear), flush);
        lemma_performed_push(region, address, none.push(clear).push(flush), header);
        lemma_performed_push(region, address, none.push(clear).push(flush).push(header), flush);
        assert(all =~= none.push(clear).push(flush).push(header).push(flush));
        assert(performed(region, address, all) =~= progress(region, payload_len, 0));
    } else {
        let written = (chunks - 1) * chunk_size;
        assert(written + chunk_size == chunks * chunk_size) by (nonlinear_arith)
            requires
                written == (chunks - 1) * chunk_size,
        ;
        assert(written >= 0) by (nonlinear_arith)
            requires
                written == (chunks - 1) * chunk_size,
                chunks >= 1,
                chunk_size > 0,
        ;
        lemma_progress(
            region,
            address,
            payload_len,
            chunk_size,
            delay_ms,
            flush_each_chunk,
            chunks - 1,
        );
        let before = first_chunks(
            address,
            payload_len,
            chunk_size,
            delay_ms,
            flush_each_chunk,
            chunks - 1,
        );
        let write = ActionView::Write(
            address + 24 + written,
            payload(written, written + chunk_size),
        );
        let flush = ActionView::Flush(address + 24 + written);
        let sleep = ActionView::Sleep(delay_ms);
        lemma_performed_push(region, address, before, write);
        if flush_each_chunk {
            lemma_performed_push(region, address, before.push(write), flush);
            lemma_performed_push(region, address, before.push(write).push(flush), sleep);
            assert(all =~= before.push(write).push(flush).push(sleep));
        } else {
            lemma_performed_push(region, address, before.push(write), sleep);
            assert(all =~= before.push(write).push(sleep));
        }
        assert(performed(region, address, all) =~= progress(
            region,
            payload_len,
            chunks * chunk_size,
        ));
    }
}

/// The header of a region in which an object was begun says what was declared.
proof fn lemma_header(region: Seq<u8>, payload_len: usize)
    requires
        region.len() >= 24,
        region.take(24) == meta_bytes(magic(), payload_len, 24),
    ensures
        region.take(8) == magic(),
        number_at(region, 8) == payload_len,
        number_at(region, 16) == 24,
{
    vstd::bytes::lemma_auto_spec_u64_to_from_le_bytes();
    let bytes = meta_bytes(magic(), payload_len, 24);
    assert(region.take(8) =~= region.take(24).take(8));
    assert(bytes.take(8) =~= magic());
    assert(region.subrange(8, 16) =~= region.take(24).subrange(8, 16));
    assert(bytes.subrange(8, 16) =~= spec_u64_to_le_bytes(payload_len as u64));
    assert(region.subrange(16, 24) =~= region.take(24).subrange(16, 24));
    assert(bytes.subrange(16, 24) =~= spec_u64_to_le_bytes(24u64));
}

/// A write that was cut short is noticed, be it between two chunks or `torn` bytes into one: the
/// check reports exactly those of its own chunks that were written in full.
pub proof fn law_interrupted_write_is_noticed(
    region: Seq<u8>,
    address: int,
    payload_len: usize,
    chunk_size: int,
    delay_ms: int,
    flush_each_chunk: bool,
    chunks: int,
    torn: int,
    checked_size: int,
)
    requires
        region.len() >= 24 + payload_len,
        chunks >= 0,
        0 <= torn < chunk_size,
        chunks * chunk_size + torn < payload_len,
        checked_size > 0,
    ensures
        reported(
            after_action(
                performed(
                    region,
                    address,
                    first_chunks(
                        address,
                        payload_len,
                        chunk_size,
                        delay_ms,
                        flush_each_chunk,
                        chunks,
                    ),
                ),
                address,
                ActionView::Write(
                    address + 24 + chunks * chunk_size,
                    payload(chunks * chunk_size, chunks * chunk_size + torn),
                ),
            ),
            checked_size,
            PmemReport::Object {
                declared: payload_len,
                contiguous: ((chunks * chunk_size + torn) / checked_size * checked_size) as usize,
                complete: false,
            },
        ),
{
    let written = chunks * chunk_size;
    assert(written >= 0) by (nonlinear_arith)
        requires
            written == chunks * chunk_size,
            chunks >= 0,
            chunk_size > 0,
    ;
    lemma_progress(region, address, payload_len, chunk_size, delay_ms, flush_each_chunk, chunks);
    lemma_meta_len(payload_len);
    let after = after_action(
        progress(region, payload_len, written),
        address,
        ActionView::Write(address + 24 + written, payload(written, written + torn)),
    );
    assert(after =~= progress(region, payload_len, written + torn));
    assert(after.take(24) =~= meta_bytes(magic(), payload_len, 24));
    lemma_header(after, payload_len);
    let bytes = after.skip(24);
    let right = written + torn;
    let whole = right / checked_size * checked_size;
    assert(0 <= whole <= right < whole + checked_size && whole % checked_size == 0)
        by (nonlinear_arith)
        requires
            whole == right / checked_size * checked_size,
            right >= 0,
            checked_size > 0,
    ;
    assert forall|i: int| 0 <= i < whole implies #[trigger] bytes[i] == message_byte(i) by {
        assert(bytes[i] == after[24 + i]);
    }
    assert(bytes[right] == after[24 + right]);
    assert(message_byte(right) != 0);
    assert(arrived(bytes, payload_len as int, checked_size, whole));
}

/// A write that was carried through is found complete, whatever chunks are checked.
pub proof fn law_finished_write_is_complete(
    region: Seq<u8>,
    address: int,
    payload_len: usize,
    chunk_size: int,
    delay_ms: int,
    flush_each_chunk: bool,
    checked_size: int,
)
    requires
        region.len() >= 24 + payload_len,
        chunk_size > 0,
        checked_size > 0,
    ensures
        reported(
            performed(
                region,
                address,
                write_actions(address, payload_len, chunk_size, delay_ms, flush_each_chunk),
            ),
            checked_size,
            PmemReport::Object { declared: payload_len, contiguous: payload_len, complete: true },
        ),
{
    let chunks = payload_len as int / chunk_size;
    let written = chunks * chunk_size;
    assert(0 <= chunks && written <= payload_len < written + chunk_size) by (nonlinear_arith)
        requires
            chunks == payload_len as int / chunk_size,
            written == chunks * chunk_size,
            chunk_size > 0,
            payload_len >= 0,
    ;
    let first = first_chunks(address, payload_len, chunk_size, delay_ms, flush_each_chunk, chunks);
    lemma_first_chunks_prefix(
        address,
        payload_len,
        chunk_size,
        delay_ms,
        flush_each_chunk,
        chunks,
    );
    lemma_progress(region, address, payload_len, chunk_size, delay_ms, flush_each_chunk, chunks);
    let last = ActionView::Flush(address + 24);
    let whole = write_actions(address, payload_len, chunk_size, delay_ms, flush_each_chunk);
    let after = progress(region, payload_len, payload_len as int);
    lemma_meta_len(payload_len);
    if written == payload_len {
        assert(whole =~= first.push(last));
        lemma_performed_push(region, address, first, last);
    } else {
        let write = ActionView::Write(
            address + 24 + written,
            payload(written, payload_len as int),
        );
        let flush = ActionView::Flush(address + 24 + written);
        let sleep = ActionView::Sleep(delay_ms);
        reveal_with_fuel(chunk_actions, 2);
        lemma_performed_push(region, address, first, write);
        if flush_each_chunk {
            assert(whole =~= first.push(write).push(flush).push(sleep).push(last));
            lemma_performed_push(region, address, first.push(write), flush);
            lemma_performed_push(region, address, first.push(write).push(flush), sleep);
            lemma_performed_push(region, address, first.push(write).push(flush).push(sleep), last);
        } else {
            assert(whole =~= first.push(write).push(sleep).push(last));
            lemma_performed_push(region, address, first.push(write), sleep);
            lemma_performed_push(region, address, first.push(write).push(sleep), last);
        }
    }
    assert(performed(region, address, whole) =~= after);
    assert(after.take(24) =~= meta_bytes(magic(), payload_len, 24));
    lemma_header(after, payload_len);
    let bytes = after.skip(24);
    assert forall|i: int| 0 <= i < payload_len implies #[trigger] bytes[i] == message_byte(i) by {
        assert(bytes[i] == after[24 + i]);
    }
}

/// The payload is `Hello There; ` over and over, and an object is marked `PMEMOBJ1`.
pub proof fn law_message_is_repeated(position: int, i: int)
    requires
        position >= 0,
    ensures
        message_byte(position + 13) == message_byte(position),
        0 <= i < 13 ==> message_byte(i) == "Hello There; "@[i] as u8,
        "Hello There; "@.len() == 13,
        0 <= i < 8 ==> magic()[i] == "PMEMOBJ1"@[i] as u8,
        magic().len() == 8,
{
    reveal_strlit("Hello There; ");
    reveal_strlit("PMEMOBJ1");
    assert((position + 13) % 13 == position % 13);
}

/// A page that a message was written to holds the message and zeros behind it. What lies behind
/// the page stays, and each write is flushed.
pub proof fn law_message_lies_on_its_page(region: Seq<u8>, address: int, text: Seq<u8>, i: int)
    requires
        region.len() >= 4096,
        text.len() <= 4096,
        0 <= i < region.len(),
    ensures
        ({
            let actions = simple_actions(address, text);
            let after = performed(region, address, actions);
            &&& after.len() == region.len()
            &&& i < text.len() ==> after[i] == text[i]
            &&& text.len() <= i < 4096 ==> after[i] == 0
            &&& i >= 4096 ==> after[i] == region[i]
            &&& actions.len() == 4
            &&& actions[1] == ActionView::Flush(address)
            &&& actions[3] == ActionView::Flush(address)
        }),
{
    let none = Seq::<ActionView>::empty();
    let clear = ActionView::Write(address, zeros(4096));
    let flush = ActionView::Flush(address);
    let write = ActionView::Write(address, text);
    assert(simple_actions(address, text) =~= none.push(clear).push(flush).push(write).push(flush));
    lemma_performed_push(region, address, none, clear);
    lemma_performed_push(region, address, none.push(clear), flush);
    lemma_performed_push(region, address, none.push(clear).push(flush), write);
    lemma_performed_push(region, address, none.push(clear).push(flush).push(write), flush);
}

/// Each write of the steps from `from` on is a chunk of the payload, a whole one or the last, and is
/// followed by a flush of it, where chunks are flushed, and by a pause.
pub open spec fn paced(
    actions: Seq<ActionView>,
    from: int,
    address: int,
    payload_len: int,
    chunk_size: int,
    delay_ms: int,
    flush_each_chunk: bool,
) -> bool {
    forall|i: int| #![trigger actions[i]]
        from <= i < actions.len() ==> (actions[i] matches ActionView::Write(target, data) ==> {
            let pause = if flush_each_chunk {
                i + 2
            } else {
                i + 1
            };
            &&& 0 < data.len() <= chunk_size
            &&& data.len() == chunk_size || target + data.len() == address + 24 + payload_len
            &&& data == payload(target - address - 24, target - address - 24 + data.len())
            &&& pause < actions.len()
            &&& actions[pause] == ActionView::Sleep(delay_ms)
            &&& flush_each_chunk ==> actions[i + 1] == ActionView::Flush(target)
        })
}

/// An object is written in steps: the header is flushed before any of the payload, each chunk is at
/// most as large as was asked for, is flushed where that was asked for, and is followed by the
/// pause; at the end the start of the payload is flushed.
pub proof fn law_chunks_are_flushed_and_paced(
    address: int,
    payload_len: usize,
    chunk_size: int,
    delay_ms: int,
    flush_each_chunk: bool,
)
    requires
        chunk_size > 0,
    ensures
        ({
            let actions = write_actions(
                address,
                payload_len,
                chunk_size,
                delay_ms,
                flush_each_chunk,
            );
            &&& actions.len() >= 5
            &&& actions[1] == ActionView::Flush(address)
            &&& actions[3] == ActionView::Flush(address)
            &&& actions.last() == ActionView::Flush(address + 24)
            &&& paced(actions, 4, address, payload_len as int, chunk_size, delay_ms, flush_each_chunk)
        }),
{
    let actions = write_actions(address, payload_len, chunk_size, delay_ms, flush_each_chunk);
    let chunks = chunk_actions(
        address,
        payload_len as int,
        chunk_size,
        delay_ms,
        flush_each_chunk,
        0,
    );
    lemma_paced(address, payload_len as int, chunk_size, delay_ms, flush_each_chunk, 0);
    assert forall|i: int| #![trigger actions[i]] 4 <= i < actions.len() implies actions[i]
        == chunks[i - 4] by {}
    assert(paced(actions, 4, address, payload_len as int, chunk_size, delay_ms, flush_each_chunk)) by {
        assert forall|i: int| #![trigger actions[i]] 4 <= i < actions.len() implies (
        actions[i] matches ActionView::Write(target, data) ==> {
            let pause = if flush_each_chunk {
                i + 2
            } else {
                i + 1
            };
            &&& 0 < data.len() <= chunk_size
            &&& data.len() == chunk_size || target + data.len() == address + 24 + payload_len
            &&& data == payload(target - address - 24, target - address - 24 + data.len())
            &&& pause < actions.len()
            &&& actions[pause] == ActionView::Sleep(delay_ms)
            &&& flush_each_chunk ==> actions[i + 1] == ActionView::Flush(target)
        }) by {
            assert(actions[i] == chunks[i - 4]);
        }
    }
}

proof fn lemma_paced(
    address: int,
    payload_len: int,
    chunk_size: int,
    delay_ms: int,
    flush_each_chunk: bool,
    written: int,
)
    requires
        chunk_size > 0,
        written >= 0,
    ensures
        ({
            let actions = chunk_actions(
                address,
                payload_len,
                chunk_size,
                delay_ms,
                flush_each_chunk,
                written,
            );
            &&& actions.len() > 0
            &&& actions.last() == ActionView::Flush(address + 24)
            &&& paced(actions, 0, address, payload_len, chunk_size, delay_ms, flush_each_chunk)
        }),
    decreases payload_len - written,
{
    let actions = chunk_actions(
        address,
        payload_len,
        chunk_size,
        delay_ms,
        flush_each_chunk,
        written,
    );
    if written < payload_len {
        let next = if written + chunk_size < payload_len {
            written + chunk_size
        } else {
            payload_len
        };
        lemma_paced(address, payload_len, chunk_size, delay_ms, flush_each_chunk, next);
        let rest = chunk_actions(
            address,
            payload_len,
            chunk_size,
            delay_ms,
            flush_each_chunk,
            next,
        );
        let head: int = if flush_each_chunk {
            3
        } else {
            2
        };
        assert(actions.len() == head + rest.len());
        assert forall|i: int| #![trigger actions[i]] 0 <= i < actions.len() implies (
        actions[i] matches ActionView::Write(target, data) ==> {
            let pause = if flush_each_chunk {
                i + 2
            } else {
                i + 1
            };
            &&& 0 < data.len() <= chunk_size
            &&& data.len() == chunk_size || target + data.len() == address + 24 + payload_len
            &&& data == payload(target - address - 24, target - address - 24 + data.len())
            &&& pause < actions.len()
            &&& actions[pause] == ActionView::Sleep(delay_ms)
            &&& flush_each_chunk ==> actions[i + 1] == ActionView::Flush(target)
        }) by {
            if i >= head {
                assert(actions[i] == rest[i - head]);
                if i + 1 < actions.len() {
                    assert(actions[i + 1] == rest[i + 1 - head]);
                }
                if i + 2 < actions.len() {
                    assert(actions[i + 2] == rest[i + 2 - head]);
                }
            } else if i == 0 {
                assert(actions[0] == ActionView::Write(
                    address + 24 + written,
                    payload(written, next),
                ));
            }
        }
        assert(actions.last() == rest.last());
    }
}

/// A report is right: there is a header exactly where the mark is, the declared length is the one
/// in the header, all of the part that arrived is right, and where that is not all, the next chunk
/// has a wrong byte.
pub proof fn law_report_is_right(region: Seq<u8>, chunk_size: int, report: PmemReport)
    requires
        region.len() >= 24,
        chunk_size > 0,
        reported(region, chunk_size, report),
    ensures
        report is NoHeader <==> exists|i: int|
            0 <= i < 8 && #[trigger] region[i] != magic()[i],
        report matches PmemReport::Object { declared, contiguous, complete } ==> {
            let at = spec_u64_from_le_bytes(region.subrange(16, 24)) as int;
            &&& declared == spec_u64_from_le_bytes(region.subrange(8, 16))
            &&& contiguous <= declared
            &&& complete == (contiguous == declared)
            &&& at <= region.len() ==> forall|i: int|
                0 <= i < contiguous && at + i < region.len() ==> #[trigger] region[at + i]
                    == message_byte(i)
            &&& !complete ==> contiguous as int % chunk_size == 0
            &&& !complete && at + declared <= region.len() ==> exists|i: int|
                contiguous <= i < contiguous + chunk_size && i < declared && #[trigger] region[at
                    + i] != message_byte(i)
        },
{
    let head = region.take(8);
    if report is NoHeader {
        if forall|i: int| 0 <= i < 8 ==> #[trigger] region[i] == magic()[i] {
            assert(head =~= magic());
        }
    } else if exists|i: int| 0 <= i < 8 && #[trigger] region[i] != magic()[i] {
        let i = choose|i: int| 0 <= i < 8 && #[trigger] region[i] != magic()[i];
        assert(head[i] == region[i]);
    }
    if let PmemReport::Object { declared, contiguous, complete } = report {
        let at = spec_u64_from_le_bytes(region.subrange(16, 24)) as int;
        let bytes = region.skip(at);
        if at <= region.len() {
            assert forall|i: int| 0 <= i < contiguous && at + i < region.len() implies
                #[trigger] region[at + i] == message_byte(i) by {
                assert(bytes[i] == region[at + i]);
            }
        }
        if !complete && at + declared <= region.len() {
            let i = choose|i: int|
                contiguous <= i < contiguous + chunk_size && i < declared && #[trigger] bytes[i]
                    != message_byte(i);
            assert(region[at + i] != message_byte(i));
        }
    }
}

/// An object of `chunks` chunks, the last of which may be smaller, is written in two or three steps
/// for each, after four for the header and before the last.
pub proof fn law_steps_are_counted_by_chunks(
    address: int,
    payload_len: usize,
    chunk_size: int,
    delay_ms: int,
    flush_each_chunk: bool,
    chunks: int,
)
    requires
        chunk_size > 0,
        chunks >= 0,
        (chunks - 1) * chunk_size < payload_len <= chunks * chunk_size,
    ensures
        write_actions(address, payload_len, chunk_size, delay_ms, flush_each_chunk).len() == 5
            + chunks * (if flush_each_chunk {
            3int
        } else {
            2int
        }),
        write_actions(address, payload_len, chunk_size, delay_ms, flush_each_chunk)[0]
            == ActionView::Write(address, zeros(24 + payload_len)),
{
    lemma_steps(address, payload_len as int, chunk_size, delay_ms, flush_each_chunk, 0, chunks);
}

proof fn lemma_steps(
    address: int,
    payload_len: int,
    chunk_size: int,
    delay_ms: int,
    flush_each_chunk: bool,
    written: int,
    chunks: int,
)
    requires
        chunk_size > 0,
        chunks >= 0,
        written <= payload_len,
        (chunks - 1) * chunk_size < payload_len - written <= chunks * chunk_size,
    ensures
        chunk_actions(
            address,
            payload_len,
            chunk_size,
            delay_ms,
            flush_each_chunk,
            written,
        ).len() == 1 + chunks * (if flush_each_chunk {
            3int
        } else {
            2int
        }),
    decreases chunks,
{
    assert((chunks - 1) * chunk_size == chunks * chunk_size - chunk_size) by (nonlinear_arith);
    assert((chunks - 2) * chunk_size == chunks * chunk_size - 2 * chunk_size) by (nonlinear_arith);
    if written < payload_len {
        let next = if written + chunk_size < payload_len {
            written + chunk_size
        } else {
            payload_len
        };
        assert(chunks > 0) by (nonlinear_arith)
            requires
                0 < payload_len - written <= chunks * chunk_size,
                chunk_size > 0,
        ;
        if written + chunk_size >= payload_len {
            assert(chunks == 1) by (nonlinear_arith)
                requires
                    chunks > 0,
                    chunks * chunk_size - chunk_size < payload_len - written,
                    written + chunk_size >= payload_len,
                    chunk_size > 0,
            ;
        }
        lemma_steps(
            address,
            payload_len,
            chunk_size,
            delay_ms,
            flush_each_chunk,
            next,
            chunks - 1,
        );
    } else {
        assert(chunks == 0) by (nonlinear_arith)
            requires
                chunks >= 0,
                chunks * chunk_size - chunk_size < 0,
                chunk_size > 0,
        ;
    }
}

} // verus!
