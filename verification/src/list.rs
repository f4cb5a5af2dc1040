//! A doubly linked list whose nodes are objects of a pool.

use vstd::bytes::*;
use vstd::prelude::*;
use vstd::slice::slice_subrange;

verus! {

/// Bytes of a [`ListNode`] or a [`LinkedList`] in a pool.
pub const LIST_OBJECT_SIZE: usize = 24;

/// A node. Offsets count from the start of the pool; 0 stands for no node.
#[derive(Clone, Copy, PartialEq, Eq, Structural, Debug)]
pub struct ListNode {
    pub value: u64,
    pub next_offset: u64,
    pub prev_offset: u64,
}

/// The list: offsets of its first and last node, and its length.
#[derive(Clone, Copy, PartialEq, Eq, Structural, Debug)]
pub struct LinkedList {
    pub head_offset: u64,
    pub tail_offset: u64,
    pub size: usize,
}

/// Three numbers as they lie in memory, little-endian.
pub open spec fn words(a: u64, b: u64, c: u64) -> Seq<u8> {
    spec_u64_to_le_bytes(a) + spec_u64_to_le_bytes(b) + spec_u64_to_le_bytes(c)
}

fn words_to_bytes(a: u64, b: u64, c: u64) -> (bytes: Vec<u8>)
    ensures
        bytes@ == words(a, b, c),
        bytes@.len() == LIST_OBJECT_SIZE,
{
    proof { vstd::bytes::lemma_auto_spec_u64_to_from_le_bytes(); }
    let mut bytes: Vec<u8> = u64_to_le_bytes(a);
    let mut second: Vec<u8> = u64_to_le_bytes(b);
    let mut third: Vec<u8> = u64_to_le_bytes(c);
    bytes.append(&mut second);
    bytes.append(&mut third);
    bytes
}

fn bytes_to_words(bytes: &[u8]) -> (numbers: (u64, u64, u64))
    requires
        bytes@.len() == LIST_OBJECT_SIZE,
    ensures
        bytes@ == words(numbers.0, numbers.1, numbers.2),
{
    proof { vstd::bytes::lemma_auto_spec_u64_to_from_le_bytes(); }
    let a: u64 = u64_from_le_bytes(slice_subrange(bytes, 0, 8));
    let b: u64 = u64_from_le_bytes(slice_subrange(bytes, 8, 16));
    let c: u64 = u64_from_le_bytes(slice_subrange(bytes, 16, 24));
    proof {
        assert(spec_u64_to_le_bytes(a) == bytes@.subrange(0, 8));
        assert(spec_u64_to_le_bytes(b) == bytes@.subrange(8, 16));
        assert(spec_u64_to_le_bytes(c) == bytes@.subrange(16, 24));
        assert(bytes@ =~= words(a, b, c));
    }
    (a, b, c)
}

impl ListNode {
    /// The node as it lies in a pool.
    pub fn to_bytes(&self) -> (bytes: Vec<u8>)
        ensures
            bytes@ == words(self.value, self.next_offset, self.prev_offset),
            bytes@.len() == LIST_OBJECT_SIZE,
    {
        words_to_bytes(self.value, self.next_offset, self.prev_offset)
    }

    /// The node that lies in a pool.
    pub fn from_bytes(bytes: &[u8]) -> (node: ListNode)
        requires
            bytes@.len() == LIST_OBJECT_SIZE,
        ensures
            bytes@ == words(node.value, node.next_offset, node.prev_offset),
    {
        let (value, next_offset, prev_offset) = bytes_to_words(bytes);
        ListNode { value, next_offset, prev_offset }
    }

    /// The node with the one at the offset as the next.
    pub open spec fn linked_to(self, node_offset: u64) -> ListNode {
        ListNode { next_offset: node_offset, ..self }
    }

    /// Makes the node refer to the one at the offset as the next. The node that was last in a
    /// list is linked this way to the one that [`LinkedList::push_back`] puts behind it.
    pub fn link_to(&mut self, node_offset: u64)
        ensures
            *final(self) == old(self).linked_to(node_offset),
    {
        self.next_offset = node_offset;
    }
}

impl LinkedList {
    /// The list without nodes.
    pub fn new() -> (list: Self)
        ensures
            list == (LinkedList { head_offset: 0, tail_offset: 0, size: 0 }),
    {
        LinkedList { head_offset: 0, tail_offset: 0, size: 0 }
    }

    /// The list with a node more that lies at the offset, and the node.
    pub open spec fn pushed(self, value: u64, node_offset: u64) -> (LinkedList, ListNode) {
        (
            LinkedList {
                head_offset: if self.size == 0 {
                    node_offset
                } else {
                    self.head_offset
                },
                tail_offset: node_offset,
                size: (self.size + 1) as usize,
            },
            ListNode { value, next_offset: 0, prev_offset: self.tail_offset },
        )
    }

    /// Adds a node that lies at the offset behind the last one, and returns the node. The node
    /// that was last is to be linked to it with [`ListNode::link_to`].
    pub fn push_back(&mut self, value: u64, node_offset: u64) -> (node: ListNode)
        requires
            old(self).size < usize::MAX,
        ensures
            (*final(self), node) == old(self).pushed(value, node_offset),
    {
        let node: ListNode = ListNode { value, next_offset: 0, prev_offset: self.tail_offset };
        if self.size == 0 {
            self.head_offset = node_offset;
        }
        self.tail_offset = node_offset;
        self.size = self.size + 1;
        node
    }

    /// The list as it lies in a pool.
    pub fn to_bytes(&self) -> (bytes: Vec<u8>)
        ensures
            bytes@ == words(self.head_offset, self.tail_offset, self.size as u64),
            bytes@.len() == LIST_OBJECT_SIZE,
    {
        words_to_bytes(self.head_offset, self.tail_offset, self.size as u64)
    }

    /// The list that lies in a pool; `None` where its length is no length on this machine.
    pub fn from_bytes(bytes: &[u8]) -> (list: Option<LinkedList>)
        requires
            bytes@.len() == LIST_OBJECT_SIZE,
        ensures
            match list {
                Some(list) => bytes@ == words(list.head_offset, list.tail_offset, list.size as u64),
                None => exists|a: u64, b: u64, c: u64|
                    #[trigger] words(a, b, c) == bytes@ && c > usize::MAX,
            },
    {
        let (head_offset, tail_offset, size) = bytes_to_words(bytes);
        if size > usize::MAX as u64 {
            None
        } else {
            Some(LinkedList { head_offset, tail_offset, size: size as usize })
        }
    }
}

/// What was stored of a node or a list is what is read back: no two triples of numbers lie the
/// same way in memory.
pub proof fn law_stored_numbers_are_read_back(
    a: u64,
    b: u64,
    c: u64,
    d: u64,
    e: u64,
    f: u64,
)
    requires
        words(a, b, c) == words(d, e, f),
    ensures
        a == d && b == e && c == f,
{
    vstd::bytes::lemma_auto_spec_u64_to_from_le_bytes();
    let left = words(a, b, c);
    let right = words(d, e, f);
    assert(left.subrange(0, 8) =~= spec_u64_to_le_bytes(a));
    assert(right.subrange(0, 8) =~= spec_u64_to_le_bytes(d));
    assert(left.subrange(8, 16) =~= spec_u64_to_le_bytes(b));
    assert(right.subrange(8, 16) =~= spec_u64_to_le_bytes(e));
    assert(left.subrange(16, 24) =~= spec_u64_to_le_bytes(c));
    assert(right.subrange(16, 24) =~= spec_u64_to_le_bytes(f));
}

/// The nodes at the offsets are linked to one another in this order, in both directions, and the
/// list refers to the first and the last of them. Offsets lead to nodes by `nodes`.
pub open spec fn chained(
    list: LinkedList,
    nodes: Map<u64, ListNode>,
    offsets: Seq<u64>,
    values: Seq<u64>,
) -> bool {
    &&& list.size == offsets.len()
    &&& values.len() == offsets.len()
    &&& list.head_offset == if offsets.len() > 0 {
        offsets[0]
    } else {
        0
    }
    &&& list.tail_offset == if offsets.len() > 0 {
        offsets.last()
    } else {
        0
    }
    &&& forall|i: int| #![trigger offsets[i]]
        0 <= i < offsets.len() ==> {
            &&& nodes.dom().contains(offsets[i])
            &&& nodes[offsets[i]].value == values[i]
            &&& nodes[offsets[i]].next_offset == if i + 1 < offsets.len() {
                offsets[i + 1]
            } else {
                0
            }
            &&& nodes[offsets[i]].prev_offset == if i > 0 {
                offsets[i - 1]
            } else {
                0
            }
        }
    &&& forall|i: int, j: int| #![trigger offsets[i], offsets[j]]
        0 <= i < j < offsets.len() ==> offsets[i] != offsets[j]
}

/// The list without nodes is linked.
pub proof fn law_empty_list_is_chained(nodes: Map<u64, ListNode>)
    ensures
        chained(
            LinkedList { head_offset: 0, tail_offset: 0, size: 0 },
            nodes,
            Seq::empty(),
            Seq::empty(),
        ),
{
}

/// A value that is pushed is the last of the list: once the node that was last is linked to the
/// new one, the list holds all values in their order, in both directions.
pub proof fn law_pushed_value_is_last(
    list: LinkedList,
    nodes: Map<u64, ListNode>,
    offsets: Seq<u64>,
    values: Seq<u64>,
    value: u64,
    node_offset: u64,
)
    requires
        chained(list, nodes, offsets, values),
        list.size < usize::MAX,
        !offsets.contains(node_offset),
    ensures
        ({
            let (after, node) = list.pushed(value, node_offset);
            let rest = if offsets.len() > 0 {
                nodes.insert(list.tail_offset, nodes[list.tail_offset].linked_to(node_offset))
            } else {
                nodes
            };
            chained(
                after,
                rest.insert(node_offset, node),
                offsets.push(node_offset),
                values.push(value),
            )
        }),
{
    let (after, node) = list.pushed(value, node_offset);
    let rest = if offsets.len() > 0 {
        nodes.insert(list.tail_offset, nodes[list.tail_offset].linked_to(node_offset))
    } else {
        nodes
    };
    let all = rest.insert(node_offset, node);
    let grown = offsets.push(node_offset);
    assert forall|i: int| #![trigger grown[i]] 0 <= i < grown.len() implies {
        &&& all.dom().contains(grown[i])
        &&& all[grown[i]].value == values.push(value)[i]
        &&& all[grown[i]].next_offset == if i + 1 < grown.len() {
            grown[i + 1]
        } else {
            0
        }
        &&& all[grown[i]].prev_offset == if i > 0 {
            grown[i - 1]
        } else {
            0
        }
    } by {
        if i < offsets.len() {
            assert(grown[i] == offsets[i]);
            assert(offsets.contains(offsets[i]));
            if i < offsets.len() - 1 {
                assert(offsets[i] != offsets[offsets.len() - 1]);
                assert(grown[i + 1] == offsets[i + 1]);
            }
            if i > 0 {
                assert(grown[i - 1] == offsets[i - 1]);
            }
        } else if i > 0 {
            assert(grown[i - 1] == offsets[i - 1]);
        }
    }
    assert forall|i: int, j: int| #![trigger grown[i], grown[j]]
        0 <= i < j < grown.len() implies grown[i] != grown[j] by {
        assert(grown[i] == offsets[i]);
        if j < offsets.len() {
            assert(grown[j] == offsets[j]);
        } else {
            assert(offsets.contains(offsets[i]));
        }
    }
}

/// Three numbers lie in memory one behind the other, in eight bytes each.
pub proof fn law_stored_numbers_lie_in_order(a: u64, b: u64, c: u64)
    ensures
        words(a, b, c).len() == 24,
        spec_u64_from_le_bytes(words(a, b, c).subrange(0, 8)) == a,
        spec_u64_from_le_bytes(words(a, b, c).subrange(8, 16)) == b,
        spec_u64_from_le_bytes(words(a, b, c).subrange(16, 24)) == c,
{
    vstd::bytes::lemma_auto_spec_u64_to_from_le_bytes();
    let bytes = words(a, b, c);
    assert(bytes.subrange(0, 8) =~= spec_u64_to_le_bytes(a));
    assert(bytes.subrange(8, 16) =~= spec_u64_to_le_bytes(b));
    assert(bytes.subrange(16, 24) =~= spec_u64_to_le_bytes(c));
}

} // verus!
