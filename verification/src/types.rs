//! Plain-valued domain types shared by the coordinator and mailbox modules.

use vstd::prelude::*;

verus! {

/// A 20-byte account address.
pub type Address = [u8; 20];

/// A 256-bit unsigned integer held as 32 big-endian bytes.
pub type U256 = [u8; 32];

/// A rollup chain identifier.
#[derive(Debug, Clone, Copy, PartialEq, Eq, Structural, Hash, PartialOrd, Ord)]
pub struct ChainId(pub u64);

/// A publisher period number.
#[derive(Debug, Clone, Copy, PartialEq, Eq, Structural, Hash, PartialOrd, Ord)]
pub struct PeriodId(pub u64);

/// A sequence number within a period (or a local origin counter).
#[derive(Debug, Clone, Copy, PartialEq, Eq, Structural, Hash, PartialOrd, Ord)]
pub struct SequenceNumber(pub u64);

/// A superblock number.
#[derive(Debug, Clone, Copy, PartialEq, Eq, Structural, Hash, PartialOrd, Ord)]
pub struct SuperblockNumber(pub u64);

/// A CIRC mailbox message exchanged between sidecars.
#[derive(Debug)]
pub struct MailboxMessage {
    pub instance_id: Vec<u8>,
    pub source_chain: u64,
    pub destination_chain: u64,
    pub source: Vec<u8>,
    pub receiver: Vec<u8>,
    pub label: String,
    pub data: Vec<Vec<u8>>,
    pub session_id: u64,
}

/// A mailbox read discovered during simulation: the transaction waits for a
/// message with these fields.
#[derive(Debug)]
pub struct CrossRollupDependency {
    pub source_chain_id: ChainId,
    pub dest_chain_id: ChainId,
    pub sender: Address,
    pub receiver: Address,
    pub label: Vec<u8>,
    pub data: Option<Vec<u8>>,
    pub session_id: Option<U256>,
}

/// A mailbox write discovered during simulation: an outbound message.
#[derive(Debug)]
pub struct CrossRollupMessage {
    pub source_chain_id: ChainId,
    pub dest_chain_id: ChainId,
    pub sender: Address,
    pub receiver: Address,
    pub label: String,
    pub data: Vec<u8>,
    pub session_id: Option<U256>,
}

/// Copies a vector of byte strings.
pub fn clone_byte_vecs(v: &Vec<Vec<u8>>) -> (out: Vec<Vec<u8>>)
    ensures
        out@.len() == v@.len(),
        forall|i: int| 0 <= i < v@.len() ==> #[trigger] out@[i]@ == v@[i]@,
{
    let mut out: Vec<Vec<u8>> = Vec::new();
    let mut i: usize = 0;
    while i < v.len()
        invariant
            0 <= i <= v@.len(),
            out@.len() == i,
            forall|j: int| 0 <= j < i ==> #[trigger] out@[j]@ == v@[j]@,
        decreases v@.len() - i,
    {
        out.push(crate::util::copy_bytes(v[i].as_slice()));
        i = i + 1;
    }
    out
}

/// Copies an optional byte string.
pub fn clone_opt_bytes(v: &Option<Vec<u8>>) -> (out: Option<Vec<u8>>)
    ensures
        out is Some <==> v is Some,
        v is Some ==> out.unwrap()@ == v.unwrap()@,
{
    match v {
        Some(b) => Some(crate::util::copy_bytes(b.as_slice())),
        None => None,
    }
}

impl MailboxMessage {
    /// The message viewed by its contents.
    pub open spec fn same_as(&self, other: &MailboxMessage) -> bool {
        &&& self.instance_id@ == other.instance_id@
        &&& self.source_chain == other.source_chain
        &&& self.destination_chain == other.destination_chain
        &&& self.source@ == other.source@
        &&& self.receiver@ == other.receiver@
        &&& self.label@ == other.label@
        &&& self.data@.len() == other.data@.len()
        &&& forall|i: int| 0 <= i < self.data@.len() ==> #[trigger] self.data@[i]@ == other.data@[i]@
        &&& self.session_id == other.session_id
    }

    /// A copy of the message.
    pub fn duplicate(&self) -> (out: MailboxMessage)
        ensures
            out.same_as(self),
    {
        MailboxMessage {
            instance_id: crate::util::copy_bytes(self.instance_id.as_slice()),
            source_chain: self.source_chain,
            destination_chain: self.destination_chain,
            source: crate::util::copy_bytes(self.source.as_slice()),
            receiver: crate::util::copy_bytes(self.receiver.as_slice()),
            label: self.label.clone(),
            data: clone_byte_vecs(&self.data),
            session_id: self.session_id,
        }
    }
}

impl CrossRollupDependency {
    /// The dependency viewed by its contents.
    pub open spec fn same_as(&self, other: &CrossRollupDependency) -> bool {
        &&& self.source_chain_id == other.source_chain_id
        &&& self.dest_chain_id == other.dest_chain_id
        &&& self.sender == other.sender
        &&& self.receiver == other.receiver
        &&& self.label@ == other.label@
        &&& (self.data is Some <==> other.data is Some)
        &&& (self.data is Some ==> self.data.unwrap()@ == other.data.unwrap()@)
        &&& self.session_id == other.session_id
    }

    /// A copy of the dependency.
    pub fn duplicate(&self) -> (out: CrossRollupDependency)
        ensures
            out.same_as(self),
    {
        CrossRollupDependency {
            source_chain_id: self.source_chain_id,
            dest_chain_id: self.dest_chain_id,
            sender: self.sender,
            receiver: self.receiver,
            label: crate::util::copy_bytes(self.label.as_slice()),
            data: clone_opt_bytes(&self.data),
            session_id: self.session_id,
        }
    }
}

impl CrossRollupMessage {
    /// The message viewed by its contents.
    pub open spec fn same_as(&self, other: &CrossRollupMessage) -> bool {
        &&& self.source_chain_id == other.source_chain_id
        &&& self.dest_chain_id == other.dest_chain_id
        &&& self.sender == other.sender
        &&& self.receiver == other.receiver
        &&& self.label@ == other.label@
        &&& self.data@ == other.data@
        &&& self.session_id == other.session_id
    }

    /// A copy of the message.
    pub fn duplicate(&self) -> (out: CrossRollupMessage)
        ensures
            out.same_as(self),
    {
        CrossRollupMessage {
            source_chain_id: self.source_chain_id,
            dest_chain_id: self.dest_chain_id,
            sender: self.sender,
            receiver: self.receiver,
            label: self.label.clone(),
            data: crate::util::copy_bytes(self.data.as_slice()),
            session_id: self.session_id,
        }
    }
}

} // verus!
