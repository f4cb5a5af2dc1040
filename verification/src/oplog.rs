//! The record that the log pool holds for each operation of a transaction.

use vstd::bytes::*;
use vstd::prelude::*;
use vstd::slice::slice_subrange;

verus! {

/// Size of an encoded [`LoggedOperation`].
pub const LOGGED_OPERATION_SIZE: usize = 40;

/// What a logged operation does to its object.
#[derive(Clone, Copy, PartialEq, Eq, Structural, Debug)]
pub enum OperationType {
    Allocation,
    Modification,
    Deallocation,
}

/// One operation on an object of a pool.
#[derive(Clone, Copy, PartialEq, Eq, Structural, Debug)]
pub struct LoggedOperation {
    pub op_type: OperationType,
    /// Pool that the object belongs to.
    pub pool_base_address: u64,
    /// Address of the object.
    pub absolute_address: u64,
    /// Size of the object in bytes.
    pub data_size: usize,
    pub type_hash: u64,
}

impl OperationType {
    /// The byte that stands for the operation.
    pub open spec fn spec_tag(self) -> u8 {
        match self {
            OperationType::Allocation => 0,
            OperationType::Modification => 1,
            OperationType::Deallocation => 2,
        }
    }

    /// The byte that stands for the operation.
    #[verifier::when_used_as_spec(spec_tag)]
    pub fn tag(self) -> (tag: u8)
        ensures
            tag == self.spec_tag(),
    {
        match self {
            OperationType::Allocation => 0,
            OperationType::Modification => 1,
            OperationType::Deallocation => 2,
        }
    }

    /// The operation that the byte stands for.
    pub open spec fn spec_from_tag(tag: u8) -> Option<OperationType> {
        if tag == 0 {
            Some(OperationType::Allocation)
        } else if tag == 1 {
            Some(OperationType::Modification)
        } else if tag == 2 {
            Some(OperationType::Deallocation)
        } else {
            None
        }
    }

    /// The operation that the byte stands for.
    #[verifier::when_used_as_spec(spec_from_tag)]
    pub fn from_tag(tag: u8) -> (op: Option<OperationType>)
        ensures
            op == Self::spec_from_tag(tag),
    {
        match tag {
            0 => Some(OperationType::Allocation),
            1 => Some(OperationType::Modification),
            2 => Some(OperationType::Deallocation),
            _ => None,
        }
    }
}

/// The five fields in eight bytes each, little-endian; the operation takes the first byte of
/// its field.
pub open spec fn encoding(op: LoggedOperation) -> Seq<u8> {
    seq![op.op_type.spec_tag(), 0u8, 0u8, 0u8, 0u8, 0u8, 0u8, 0u8]
        + spec_u64_to_le_bytes(op.pool_base_address)
        + spec_u64_to_le_bytes(op.absolute_address)
        + spec_u64_to_le_bytes(op.data_size as u64)
        + spec_u64_to_le_bytes(op.type_hash)
}

/// Number held by the field that starts at byte `at`.
pub open spec fn field(bytes: Seq<u8>, at: int) -> u64 {
    spec_u64_from_le_bytes(bytes.subrange(at, at + 8))
}

/// The operation that 40 bytes encode; `None` when the first byte stands for no operation or
/// the size is not a size on this machine.
pub open spec fn decoding(bytes: Seq<u8>) -> Option<LoggedOperation> {
    match OperationType::spec_from_tag(bytes[0]) {
        Some(op_type) if field(bytes, 24) <= usize::MAX => Some(
            LoggedOperation {
                op_type,
                pool_base_address: field(bytes, 8),
                absolute_address: field(bytes, 16),
                data_size: field(bytes, 24) as usize,
                type_hash: field(bytes, 32),
            },
        ),
        _ => None,
    }
}

impl LoggedOperation {
    /// The operation as it is stored in the log.
    pub fn encode(&self) -> (bytes: Vec<u8>)
        ensures
            bytes@ == encoding(*self),
            bytes.len() == LOGGED_OPERATION_SIZE,
    {
        proof { vstd::bytes::lemma_auto_spec_u64_to_from_le_bytes(); }
        let mut bytes: Vec<u8> = vec![self.op_type.tag(), 0, 0, 0, 0, 0, 0, 0];
        let mut base: Vec<u8> = u64_to_le_bytes(self.pool_base_address);
        let mut address: Vec<u8> = u64_to_le_bytes(self.absolute_address);
        let mut size: Vec<u8> = u64_to_le_bytes(self.data_size as u64);
        let mut hash: Vec<u8> = u64_to_le_bytes(self.type_hash);
        bytes.append(&mut base);
        bytes.append(&mut address);
        bytes.append(&mut size);
        bytes.append(&mut hash);
        assert(bytes@ =~= encoding(*self));
        bytes
    }

    /// Reads an operation back from the log.
    pub fn decode(bytes: &[u8]) -> (op: Option<LoggedOperation>)
        requires
            bytes@.len() == LOGGED_OPERATION_SIZE,
        ensures
            op == decoding(bytes@),
    {
        let size: u64 = u64_from_le_bytes(slice_subrange(bytes, 24, 32));
        match OperationType::from_tag(bytes[0]) {
            Some(op_type) => {
                if size <= usize::MAX as u64 {
                    Some(
                        LoggedOperation {
                            op_type,
                            pool_base_address: u64_from_le_bytes(slice_subrange(bytes, 8, 16)),
                            absolute_address: u64_from_le_bytes(slice_subrange(bytes, 16, 24)),
                            data_size: size as usize,
                            type_hash: u64_from_le_bytes(slice_subrange(bytes, 32, 40)),
                        },
                    )
                } else {
                    None
                }
            },
            None => None,
        }
    }
}

/// What was written to the log is what is read back from it.
pub proof fn law_decode_encode(op: LoggedOperation)
    ensures
        encoding(op).len() == LOGGED_OPERATION_SIZE,
        decoding(encoding(op)) == Some(op),
{
    vstd::bytes::lemma_auto_spec_u64_to_from_le_bytes();
    let bytes = encoding(op);
    assert(bytes.subrange(8, 16) =~= spec_u64_to_le_bytes(op.pool_base_address));
    assert(bytes.subrange(16, 24) =~= spec_u64_to_le_bytes(op.absolute_address));
    assert(bytes.subrange(24, 32) =~= spec_u64_to_le_bytes(op.data_size as u64));
    assert(bytes.subrange(32, 40) =~= spec_u64_to_le_bytes(op.type_hash));
}

/// A record says in its first byte which operation it is of, and in eight bytes each where the pool
/// is, where the object is, how long it is and what type it has.
pub proof fn law_fields_of_a_record(op: LoggedOperation)
    ensures
        encoding(op).len() == 40,
        encoding(op)[0] == match op.op_type {
            OperationType::Allocation => 0u8,
            OperationType::Modification => 1u8,
            OperationType::Deallocation => 2u8,
        },
        forall|i: int| 1 <= i < 8 ==> #[trigger] encoding(op)[i] == 0,
        spec_u64_from_le_bytes(encoding(op).subrange(8, 16)) == op.pool_base_address,
        spec_u64_from_le_bytes(encoding(op).subrange(16, 24)) == op.absolute_address,
        spec_u64_from_le_bytes(encoding(op).subrange(24, 32)) == op.data_size,
        spec_u64_from_le_bytes(encoding(op).subrange(32, 40)) == op.type_hash,
{
    vstd::bytes::lemma_auto_spec_u64_to_from_le_bytes();
    let bytes = encoding(op);
    assert(bytes.subrange(8, 16) =~= spec_u64_to_le_bytes(op.pool_base_address));
    assert(bytes.subrange(16, 24) =~= spec_u64_to_le_bytes(op.absolute_address));
    assert(bytes.subrange(24, 32) =~= spec_u64_to_le_bytes(op.data_size as u64));
    assert(bytes.subrange(32, 40) =~= spec_u64_to_le_bytes(op.type_hash));
}

/// Bytes are a record exactly where the first stands for an operation and the size is one on this
/// machine.
pub proof fn law_records_are_told_by_their_first_byte(bytes: Seq<u8>)
    ensures
        decoding(bytes) is Some <==> bytes[0] <= 2 && spec_u64_from_le_bytes(
            bytes.subrange(24, 32),
        ) <= usize::MAX,
        decoding(bytes) matches Some(op) ==> {
            &&& op.op_type is Allocation <==> bytes[0] == 0
            &&& op.op_type is Modification <==> bytes[0] == 1
            &&& op.op_type is Deallocation <==> bytes[0] == 2
        },
{
}

} // verus!
