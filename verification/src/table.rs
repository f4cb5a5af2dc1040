//! The object table of a pool: one entry per slot, and the searches over it.

use vstd::prelude::*;

verus! {

/// Longest object identifier in bytes.
pub const MAX_ID_LEN: usize = 32;

/// One slot of the object table.
#[derive(Clone, Copy)]
pub struct ObjectTableEntry {
    /// The data was committed.
    pub valid: bool,
    /// The slot is in use.
    pub active: bool,
    /// The current operation on the slot is complete.
    pub operation_done: bool,
    /// Identifier, of which the first `id_len` bytes count.
    pub id: [u8; 32],
    pub id_len: u8,
    pub type_hash: u64,
    pub type_size: usize,
    /// Address of the object.
    pub data: Option<u64>,
}

/// What an [`ObjectTableEntry`] means: its flags, its identifier as a byte string, and the
/// object that it refers to.
#[verifier::ext_equal]
pub struct EntryView {
    pub active: bool,
    pub valid: bool,
    pub done: bool,
    pub id: Seq<u8>,
    pub type_hash: u64,
    pub type_size: usize,
    pub data: Option<u64>,
}

impl EntryView {
    /// Active and valid: visible to readers.
    pub open spec fn live(self) -> bool {
        self.active && self.valid
    }

    /// An object that recovery keeps: live, or complete and not made valid yet.
    pub open spec fn kept(self) -> bool {
        self.active && (self.valid || self.done)
    }

    /// Given up by a deallocation whose memory is not returned to the heap yet.
    pub open spec fn dropped(self) -> bool {
        !self.active && !self.valid && self.done
    }

    /// The same entry with other flags.
    pub open spec fn flagged(self, active: bool, valid: bool, done: bool) -> EntryView {
        EntryView { active, valid, done, ..self }
    }

    /// The entry that a blank slot holds.
    pub open spec fn blank() -> EntryView {
        EntryView {
            active: false,
            valid: false,
            done: false,
            id: Seq::empty(),
            type_hash: 0,
            type_size: 0,
            data: None,
        }
    }

    /// Whether recovery empties the slot.
    pub open spec fn discarded(self) -> bool {
        if self.active {
            !self.valid && !self.done
        } else {
            self.done
        }
    }

    /// The slot after recovery: a slot whose allocation did not finish, or that was
    /// deallocated, is emptied; a finished allocation that was not made valid yet becomes
    /// valid; any other slot stays.
    pub open spec fn recovered(self) -> EntryView {
        if self.discarded() {
            EntryView::blank()
        } else if self.active && !self.valid {
            self.flagged(true, true, true)
        } else {
            self
        }
    }

    /// The block that recovery of this slot gives back to the heap.
    pub open spec fn released(self) -> Seq<FreedBlock> {
        if self.discarded() {
            match self.data {
                Some(address) => seq![FreedBlock { address, size: self.type_size }],
                None => Seq::empty(),
            }
        } else {
            Seq::empty()
        }
    }
}

/// A block of pool memory that goes back to the heap of the pool.
#[derive(Clone, Copy, PartialEq, Eq, Structural, Debug)]
pub struct FreedBlock {
    pub address: u64,
    pub size: usize,
}

impl View for ObjectTableEntry {
    type V = EntryView;

    open spec fn view(&self) -> EntryView {
        EntryView {
            active: self.active,
            valid: self.valid,
            done: self.operation_done,
            id: self.id@.take(self.id_len as int),
            type_hash: self.type_hash,
            type_size: self.type_size,
            data: self.data,
        }
    }
}

/// The entries of a table, in slot order.
pub open spec fn entries(table: Seq<ObjectTableEntry>) -> Seq<EntryView> {
    Seq::new(table.len(), |i: int| table[i]@)
}

/// What a search over the table looks for.
pub enum Probe {
    /// An entry, whatever its flags, whose object is at the address.
    At(u64),
    /// A live entry with the identifier.
    Live(Seq<u8>),
    /// A live entry whose object is at the address.
    LiveAt(u64),
    /// A slot that is not in use.
    Inactive,
    /// A slot that is neither in use nor given up by a deallocation.
    Free,
    /// A slot given up by a deallocation.
    Dropped,
}

impl Probe {
    pub open spec fn hits(self, e: EntryView) -> bool {
        match self {
            Probe::At(address) => e.data == Some(address),
            Probe::Live(id) => e.live() && e.id == id,
            Probe::LiveAt(address) => e.live() && e.data == Some(address),
            Probe::Inactive => !e.active,
            Probe::Free => !e.active && !e.done,
            Probe::Dropped => e.dropped(),
        }
    }

    /// `i` is the first slot that the probe hits.
    pub open spec fn first_at(self, table: Seq<EntryView>, i: int) -> bool {
        &&& 0 <= i < table.len()
        &&& self.hits(table[i])
        &&& forall|j: int| 0 <= j < i ==> !self.hits(#[trigger] table[j])
    }

    /// The first slot that the probe hits, if there is one.
    pub open spec fn find(self, table: Seq<EntryView>) -> Option<int> {
        if exists|i: int| self.first_at(table, i) {
            Some(choose|i: int| self.first_at(table, i))
        } else {
            None
        }
    }
}

/// The first slot that a probe hits is the only first one.
pub proof fn lemma_find_is(probe: Probe, table: Seq<EntryView>, i: int)
    requires
        probe.first_at(table, i),
    ensures
        probe.find(table) == Some(i),
{
    let k = choose|k: int| probe.first_at(table, k);
    assert(probe.first_at(table, k));
    if k < i {
        assert(!probe.hits(table[k]));
    } else if i < k {
        assert(!probe.hits(table[i]));
    }
}

/// A probe that hits no slot finds nothing.
pub proof fn lemma_find_none(probe: Probe, table: Seq<EntryView>)
    requires
        forall|j: int| 0 <= j < table.len() ==> !probe.hits(#[trigger] table[j]),
    ensures
        probe.find(table) is None,
{
}

/// What a probe finds is its first hit; where it finds nothing, it hits nothing.
pub proof fn lemma_find(probe: Probe, table: Seq<EntryView>)
    ensures
        match probe.find(table) {
            Some(i) => probe.first_at(table, i),
            None => forall|j: int| 0 <= j < table.len() ==> !probe.hits(#[trigger] table[j]),
        },
{
    if probe.find(table) is None {
        assert forall|j: int| 0 <= j < table.len() implies !probe.hits(#[trigger] table[j]) by {
            if probe.hits(table[j]) {
                lemma_first_below(probe, table, j);
            }
        }
    }
}

proof fn lemma_first_below(probe: Probe, table: Seq<EntryView>, j: int)
    requires
        0 <= j < table.len(),
        probe.hits(table[j]),
    ensures
        exists|i: int| probe.first_at(table, i),
    decreases j,
{
    if exists|k: int| 0 <= k < j && probe.hits(#[trigger] table[k]) {
        let k = choose|k: int| 0 <= k < j && probe.hits(#[trigger] table[k]);
        lemma_first_below(probe, table, k);
    } else {
        assert(probe.first_at(table, j));
    }
}

/// Whether two byte strings are equal.
pub fn bytes_equal(a: &[u8], b: &[u8]) -> (equal: bool)
    ensures
        equal == (a@ == b@),
{
    if a.len() != b.len() {
        return false;
    }
    let mut i: usize = 0;
    while i < a.len()
        invariant
            i <= a.len(),
            a.len() == b.len(),
            forall|k: int| 0 <= k < i ==> a@[k] == b@[k],
        decreases a.len() - i,
    {
        if a[i] != b[i] {
            return false;
        }
        i = i + 1;
    }
    assert(a@ =~= b@);
    true
}

impl ObjectTableEntry {
    /// The identifier length is within bounds.
    pub open spec fn wf(self) -> bool {
        self.id_len <= MAX_ID_LEN
    }

    /// A slot that holds nothing.
    pub fn empty() -> (entry: Self)
        ensures
            entry.wf(),
            entry@ == EntryView::blank(),
            entry.id@ == Seq::new(32, |i: int| 0u8),
            entry.id_len == 0,
    {
        let entry = ObjectTableEntry {
            valid: false,
            active: false,
            operation_done: false,
            id: [0u8; 32],
            id_len: 0,
            type_hash: 0,
            type_size: 0,
            data: None,
        };
        assert(entry.id@ =~= Seq::new(32, |i: int| 0u8));
        assert(entry@.id =~= Seq::empty());
        entry
    }

    /// Whether the identifier of the entry is `id`.
    pub fn has_id(&self, id: &[u8]) -> (same: bool)
        requires
            self.wf(),
        ensures
            same == (self@.id == id@),
    {
        let len: usize = self.id_len as usize;
        if len != id.len() {
            return false;
        }
        let mut i: usize = 0;
        while i < len
            invariant
                i <= len,
                len == id.len(),
                len == self.id_len,
                len <= 32,
                forall|k: int| 0 <= k < i ==> self.id@[k] == id@[k],
            decreases len - i,
        {
            if self.id[i] != id[i] {
                assert(self@.id[i as int] == self.id@[i as int]);
                return false;
            }
            i = i + 1;
        }
        assert(self@.id =~= id@);
        true
    }

    /// Gives the entry the identifier `id`.
    pub fn set_id(&mut self, id: &[u8])
        requires
            id.len() <= MAX_ID_LEN,
        ensures
            final(self).wf(),
            final(self)@ == (EntryView { id: id@, ..old(self)@ }),
    {
        let mut i: usize = 0;
        while i < id.len()
            invariant
                i <= id.len() <= 32,
                forall|k: int| 0 <= k < i ==> self.id@[k] == id@[k],
                self.active == old(self).active,
                self.valid == old(self).valid,
                self.operation_done == old(self).operation_done,
                self.type_hash == old(self).type_hash,
                self.type_size == old(self).type_size,
                self.data == old(self).data,
            decreases id.len() - i,
        {
            self.id[i] = id[i];
            i = i + 1;
        }
        self.id_len = id.len() as u8;
        assert(self@.id =~= id@);
    }

    /// Drops the identifier, the type and the object, and keeps the flags.
    pub fn clear(&mut self)
        ensures
            final(self).wf(),
            final(self)@ == EntryView::blank().flagged(
                old(self).active,
                old(self).valid,
                old(self).operation_done,
            ),
            final(self).id@ == Seq::new(32, |k: int| 0u8),
    {
        self.data = None;
        self.type_hash = 0;
        self.type_size = 0;
        self.id = [0u8; 32];
        self.id_len = 0;
        assert(self.id@ =~= Seq::new(32, |k: int| 0u8));
        assert(self@.id =~= Seq::empty());
    }
}

impl ObjectTableEntry {
    /// Finishes or discards what a crash or the last transaction left of the entry, and says
    /// which block goes back to the heap.
    pub fn recover(&mut self) -> (freed: Option<FreedBlock>)
        requires
            old(self).wf(),
        ensures
            final(self).wf(),
            final(self)@ == old(self)@.recovered(),
            old(self)@.released() == match freed {
                Some(block) => seq![block],
                None => Seq::empty(),
            },
            final(self).id@ == if old(self)@.discarded() {
                Seq::new(32, |k: int| 0u8)
            } else {
                old(self).id@
            },
    {
        if self.active && !self.valid && self.operation_done {
            self.valid = true;
            return None;
        }
        let discarded: bool = if self.active {
            !self.valid
        } else {
            self.operation_done
        };
        if !discarded {
            return None;
        }
        let mut freed: Option<FreedBlock> = None;
        if let Some(address) = self.data {
            freed = Some(FreedBlock { address, size: self.type_size });
        }
        self.clear();
        self.active = false;
        self.valid = false;
        self.operation_done = false;
        freed
    }
}

/// First slot, whatever its flags, whose object is at `address`.
pub fn find_at(table: &Vec<ObjectTableEntry>, address: u64) -> (slot: Option<usize>)
    ensures
        slot matches Some(i) ==> Probe::At(address).find(entries(table@)) == Some(i as int),
        slot is None ==> Probe::At(address).find(entries(table@)) is None,
{
    let ghost all = entries(table@);
    let ghost probe = Probe::At(address);
    let mut i: usize = 0;
    while i < table.len()
        invariant
            i <= table.len(),
            all == entries(table@),
            probe == Probe::At(address),
            forall|j: int| 0 <= j < i ==> !probe.hits(#[trigger] all[j]),
        decreases table.len() - i,
    {
        if let Some(data) = table[i].data {
            if data == address {
                proof { lemma_find_is(probe, all, i as int); }
                return Some(i);
            }
        }
        i = i + 1;
    }
    proof { lemma_find_none(probe, all); }
    None
}

/// First live slot with the identifier `id`.
pub fn find_live(table: &Vec<ObjectTableEntry>, id: &[u8]) -> (slot: Option<usize>)
    requires
        forall|i: int| 0 <= i < table.len() ==> (#[trigger] table@[i]).wf(),
    ensures
        slot matches Some(i) ==> Probe::Live(id@).find(entries(table@)) == Some(i as int),
        slot is None ==> Probe::Live(id@).find(entries(table@)) is None,
{
    let ghost all = entries(table@);
    let ghost probe = Probe::Live(id@);
    let mut i: usize = 0;
    while i < table.len()
        invariant
            i <= table.len(),
            all == entries(table@),
            probe == Probe::Live(id@),
            forall|i: int| 0 <= i < table.len() ==> (#[trigger] table@[i]).wf(),
            forall|j: int| 0 <= j < i ==> !probe.hits(#[trigger] all[j]),
        decreases table.len() - i,
    {
        if table[i].active && table[i].valid && table[i].has_id(id) {
            proof { lemma_find_is(probe, all, i as int); }
            return Some(i);
        }
        i = i + 1;
    }
    proof { lemma_find_none(probe, all); }
    None
}

/// First live slot whose object is at `address`.
pub fn find_live_at(table: &Vec<ObjectTableEntry>, address: u64) -> (slot: Option<usize>)
    ensures
        slot matches Some(i) ==> Probe::LiveAt(address).find(entries(table@)) == Some(i as int),
        slot is None ==> Probe::LiveAt(address).find(entries(table@)) is None,
{
    let ghost all = entries(table@);
    let ghost probe = Probe::LiveAt(address);
    let mut i: usize = 0;
    while i < table.len()
        invariant
            i <= table.len(),
            all == entries(table@),
            probe == Probe::LiveAt(address),
            forall|j: int| 0 <= j < i ==> !probe.hits(#[trigger] all[j]),
        decreases table.len() - i,
    {
        if table[i].active && table[i].valid {
            if let Some(data) = table[i].data {
                if data == address {
                    proof { lemma_find_is(probe, all, i as int); }
                    return Some(i);
                }
            }
        }
        i = i + 1;
    }
    proof { lemma_find_none(probe, all); }
    None
}

/// First slot that is not in use.
pub fn find_inactive(table: &Vec<ObjectTableEntry>) -> (slot: Option<usize>)
    ensures
        slot matches Some(i) ==> Probe::Inactive.find(entries(table@)) == Some(i as int),
        slot is None ==> Probe::Inactive.find(entries(table@)) is None,
{
    let ghost all = entries(table@);
    let ghost probe = Probe::Inactive;
    let mut i: usize = 0;
    while i < table.len()
        invariant
            i <= table.len(),
            all == entries(table@),
            probe == Probe::Inactive,
            forall|j: int| 0 <= j < i ==> !probe.hits(#[trigger] all[j]),
        decreases table.len() - i,
    {
        if !table[i].active {
            proof { lemma_find_is(probe, all, i as int); }
            return Some(i);
        }
        i = i + 1;
    }
    proof { lemma_find_none(probe, all); }
    None
}

/// First slot that is neither in use nor given up by a deallocation.
pub fn find_free(table: &Vec<ObjectTableEntry>) -> (slot: Option<usize>)
    ensures
        slot matches Some(i) ==> Probe::Free.find(entries(table@)) == Some(i as int),
        slot is None ==> Probe::Free.find(entries(table@)) is None,
{
    let ghost all = entries(table@);
    let ghost probe = Probe::Free;
    let mut i: usize = 0;
    while i < table.len()
        invariant
            i <= table.len(),
            all == entries(table@),
            probe == Probe::Free,
            forall|j: int| 0 <= j < i ==> !probe.hits(#[trigger] all[j]),
        decreases table.len() - i,
    {
        if !table[i].active && !table[i].operation_done {
            proof { lemma_find_is(probe, all, i as int); }
            return Some(i);
        }
        i = i + 1;
    }
    proof { lemma_find_none(probe, all); }
    None
}

/// First slot that was given up by a deallocation.
pub fn find_dropped(table: &Vec<ObjectTableEntry>) -> (slot: Option<usize>)
    ensures
        slot matches Some(i) ==> Probe::Dropped.find(entries(table@)) == Some(i as int),
        slot is None ==> Probe::Dropped.find(entries(table@)) is None,
{
    let ghost all = entries(table@);
    let ghost probe = Probe::Dropped;
    let mut i: usize = 0;
    while i < table.len()
        invariant
            i <= table.len(),
            all == entries(table@),
            probe == Probe::Dropped,
            forall|j: int| 0 <= j < i ==> !probe.hits(#[trigger] all[j]),
        decreases table.len() - i,
    {
        if !table[i].active && !table[i].valid && table[i].operation_done {
            proof { lemma_find_is(probe, all, i as int); }
            return Some(i);
        }
        i = i + 1;
    }
    proof { lemma_find_none(probe, all); }
    None
}

/// A search finds the first slot that it looks for, and nothing where there is none: by the address
/// of the object, by the identifier among the objects that readers see, or by the flags alone.
pub proof fn law_search_finds_the_first_slot(
    table: Seq<EntryView>,
    address: u64,
    id: Seq<u8>,
)
    ensures
        is_first(Probe::At(address).find(table), table, |e: EntryView| e.data == Some(address)),
        is_first(
            Probe::Live(id).find(table),
            table,
            |e: EntryView| e.active && e.valid && e.id == id,
        ),
        is_first(
            Probe::LiveAt(address).find(table),
            table,
            |e: EntryView| e.active && e.valid && e.data == Some(address),
        ),
        is_first(Probe::Inactive.find(table), table, |e: EntryView| !e.active),
        is_first(Probe::Free.find(table), table, |e: EntryView| !e.active && !e.done),
        is_first(
            Probe::Dropped.find(table),
            table,
            |e: EntryView| !e.active && !e.valid && e.done,
        ),
{
    lemma_find(Probe::At(address), table);
    lemma_find(Probe::Live(id), table);
    lemma_find(Probe::LiveAt(address), table);
    lemma_find(Probe::Inactive, table);
    lemma_find(Probe::Free, table);
    lemma_find(Probe::Dropped, table);
}

/// The slot is the first one that is wanted, or none is.
pub open spec fn is_first(
    slot: Option<int>,
    table: Seq<EntryView>,
    wanted: spec_fn(EntryView) -> bool,
) -> bool {
    match slot {
        Some(slot) => {
            &&& 0 <= slot < table.len()
            &&& wanted(table[slot])
            &&& forall|j: int| 0 <= j < slot ==> !wanted(#[trigger] table[j])
        },
        None => forall|j: int| 0 <= j < table.len() ==> !wanted(#[trigger] table[j]),
    }
}

} // verus!
