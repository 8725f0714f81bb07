//! Mailbox values: parsed mailbox calls, matching inbound messages to the
//! dependencies a simulation discovered, deduplication keys, the 32-byte
//! session id on the wire, and the in-memory message queue.

use vstd::prelude::*;

use crate::codec::{decimal, hex_encode, spec_decimal, spec_decimal_nat, spec_hex};
use crate::types::{Address, ChainId, CrossRollupDependency, CrossRollupMessage, MailboxMessage, U256};
use crate::util::bytes_eq;

verus! {

broadcast use vstd::seq::group_seq_axioms;

/// Errors of the mailbox components.
#[derive(Debug)]
pub enum MailboxError {
    Queue(String),
    Send(String),
    Parse(String),
    Abi(String),
}

impl MailboxError {
    /// The message text of each error.
    pub open spec fn spec_message(&self) -> Seq<char> {
        match self {
            MailboxError::Queue(m) => "queue error: "@ + m@,
            MailboxError::Send(m) => "send error: "@ + m@,
            MailboxError::Parse(m) => "parse error: "@ + m@,
            MailboxError::Abi(m) => "abi encoding error: "@ + m@,
        }
    }

    /// The error's message text.
    pub fn message(&self) -> (s: String)
        ensures
            s@ == self.spec_message(),
    {
        let (prefix, m) = match self {
            MailboxError::Queue(m) => ("queue error: ", m),
            MailboxError::Send(m) => ("send error: ", m),
            MailboxError::Parse(m) => ("parse error: ", m),
            MailboxError::Abi(m) => ("abi encoding error: ", m),
        };
        let mut s = String::from_str(prefix);
        s.append(m.as_str());
        s
    }
}

/// Whether a mailbox call reads (a dependency) or writes (an outbound message).
#[derive(Debug, Clone, Copy, PartialEq, Eq, Structural)]
pub enum MailboxCallType {
    Read,
    Write,
}

/// A mailbox call found in a call trace.
#[derive(Debug)]
pub struct MailboxCall {
    pub call_type: MailboxCallType,
    pub source_chain: ChainId,
    pub dest_chain: ChainId,
    pub sender: Address,
    pub receiver: Address,
    pub label: String,
    pub data: Vec<u8>,
    pub session_id: Option<U256>,
}

/// The mailbox calls of one simulation.
#[derive(Debug)]
pub struct SimulationState {
    pub reads: Vec<MailboxCall>,
    pub writes: Vec<MailboxCall>,
}

// ---------------------------------------------------------------------------
// 256-bit values as 32 big-endian bytes.
// ---------------------------------------------------------------------------

/// The value of big-endian bytes.
pub open spec fn be_value(b: Seq<u8>) -> nat
    decreases b.len(),
{
    if b.len() == 0 {
        0
    } else {
        be_value(b.drop_last()) * 256 + (b.last() as nat)
    }
}

/// `U256` to `u64`: the value when it fits in 64 bits.
pub open spec fn spec_u256_to_u64(b: U256) -> Option<u64> {
    if be_value(b@) <= u64::MAX {
        Some(be_value(b@) as u64)
    } else {
        None
    }
}

proof fn lemma_be_value_prefix_zero(b: Seq<u8>, k: int)
    requires
        0 <= k <= b.len(),
        forall|j: int| 0 <= j < k ==> b[j] == 0,
    ensures
        be_value(b) == be_value(b.skip(k)),
    decreases b.len(),
{
    if k == b.len() {
        assert(b.skip(k) =~= Seq::<u8>::empty());
        lemma_be_value_all_zero(b);
    } else {
        assert(b.skip(k).drop_last() =~= b.drop_last().skip(k));
        lemma_be_value_prefix_zero(b.drop_last(), k);
    }
}

proof fn lemma_be_value_all_zero(b: Seq<u8>)
    requires
        forall|j: int| 0 <= j < b.len() ==> b[j] == 0,
    ensures
        be_value(b) == 0,
    decreases b.len(),
{
    if b.len() > 0 {
        lemma_be_value_all_zero(b.drop_last());
    }
}

/// `256` to the power `n`.
pub open spec fn pow256(n: nat) -> nat
    decreases n,
{
    if n == 0 {
        1
    } else {
        pow256((n - 1) as nat) * 256
    }
}

proof fn lemma_pow256_grows(a: nat, b: nat)
    requires
        a <= b,
    ensures
        pow256(a) <= pow256(b),
        pow256(a) >= 1,
    decreases b,
{
    if b > a {
        lemma_pow256_grows(a, (b - 1) as nat);
    } else if a > 0 {
        lemma_pow256_grows((a - 1) as nat, (a - 1) as nat);
    }
}

/// A byte at position `j` contributes its weight.
proof fn lemma_be_value_ge(b: Seq<u8>, j: int)
    requires
        0 <= j < b.len(),
        b[j] != 0,
    ensures
        be_value(b) >= pow256((b.len() - 1 - j) as nat),
    decreases b.len(),
{
    if j == b.len() - 1 {
        assert(be_value(b) >= b.last());
    } else {
        lemma_be_value_ge(b.drop_last(), j);
        let p = pow256((b.len() - 2 - j) as nat);
        assert(be_value(b.drop_last()) * 256 + b.last() >= p * 256) by (nonlinear_arith)
            requires
                be_value(b.drop_last()) >= p,
        ;
    }
}

/// A nonzero byte before the last eight makes the value exceed 64 bits.
proof fn lemma_be_value_large(b: Seq<u8>, j: int)
    requires
        b.len() == 32,
        0 <= j < 24,
        b[j] != 0,
    ensures
        be_value(b) > u64::MAX,
{
    lemma_be_value_ge(b, j);
    lemma_pow256_grows(8, (31 - j) as nat);
    assert(pow256(8) == 0x1_0000_0000_0000_0000) by {
        reveal_with_fuel(pow256, 9);
    }
}

/// `U256` to `u64`, when the value fits.
pub fn u256_to_u64(b: &U256) -> (r: Option<u64>)
    ensures
        r == spec_u256_to_u64(*b),
{
    let mut j: usize = 0;
    while j < 24
        invariant
            0 <= j <= 24,
            forall|k: int| 0 <= k < j ==> b@[k] == 0,
        decreases 24 - j,
    {
        if b[j] != 0 {
            proof {
                lemma_be_value_large(b@, j as int);
            }
            return None;
        }
        j = j + 1;
    }
    let mut v: u64 = 0;
    let mut k: usize = 24;
    while k < 32
        invariant
            24 <= k <= 32,
            forall|x: int| 0 <= x < 24 ==> b@[x] == 0,
            v == be_value(b@.subrange(24, k as int)),
            v < pow256((k - 24) as nat),
        decreases 32 - k,
    {
        proof {
            assert(b@.subrange(24, k + 1).drop_last() =~= b@.subrange(24, k as int));
            let p = pow256((k - 24) as nat);
            assert(p <= 0x100_0000_0000_0000) by {
                lemma_pow256_grows((k - 24) as nat, 7);
                reveal_with_fuel(pow256, 8);
            }
            assert(v * 256 + b@[k as int] < p * 256) by (nonlinear_arith)
                requires
                    v < p,
                    b@[k as int] < 256,
            ;
        }
        v = v * 256 + b[k] as u64;
        k = k + 1;
    }
    proof {
        lemma_be_value_prefix_zero(b@, 24);
        assert(b@.skip(24) =~= b@.subrange(24, 32));
    }
    Some(v)
}

// ---------------------------------------------------------------------------
// Matching.
// ---------------------------------------------------------------------------

/// The full 256-bit value of a dependency's session id: zero when absent.
pub open spec fn dep_session_value(dep: CrossRollupDependency) -> nat {
    match dep.session_id {
        Some(s) => be_value(s@),
        None => 0,
    }
}

/// A message satisfies a dependency: source chain, destination chain,
/// sender, receiver, session id and label all agree.
pub open spec fn spec_matches_dependency(msg: MailboxMessage, dep: CrossRollupDependency) -> bool {
    &&& ChainId(msg.source_chain) == dep.source_chain_id
    &&& ChainId(msg.destination_chain) == dep.dest_chain_id
    &&& msg.source@ == dep.sender@
    &&& msg.receiver@ == dep.receiver@
    &&& msg.session_id as nat == dep_session_value(dep)
    &&& vstd::utf8::encode_utf8(msg.label@) == dep.label@
}

/// A message fulfils a dependency exactly when all six fields of the mailbox
/// key agree: source chain, destination chain, sender, receiver, session id
/// (an absent dependency session counting as 0, a present one compared at its
/// full 256-bit value) and label (the message's label as UTF-8 bytes).
pub proof fn lemma_match_is_six_field_key(msg: MailboxMessage, dep: CrossRollupDependency)
    ensures
        spec_matches_dependency(msg, dep) ==> {
            &&& msg.source_chain == dep.source_chain_id.0
            &&& msg.destination_chain == dep.dest_chain_id.0
            &&& dep.sender@ == msg.source@
            &&& dep.receiver@ == msg.receiver@
            &&& dep.session_id is None ==> msg.session_id == 0
            &&& dep.session_id matches Some(s) ==> msg.session_id as nat == be_value(s@)
            &&& vstd::utf8::encode_utf8(msg.label@) == dep.label@
        },
        msg.source_chain == dep.source_chain_id.0 && msg.destination_chain == dep.dest_chain_id.0
            && msg.source@ == dep.sender@ && msg.receiver@ == dep.receiver@ && (dep.session_id is None
            ==> msg.session_id == 0) && (dep.session_id is Some ==> msg.session_id as nat
            == be_value(dep.session_id.unwrap()@)) && vstd::utf8::encode_utf8(msg.label@)
            == dep.label@ ==> spec_matches_dependency(msg, dep),
        msg.receiver@ != dep.receiver@ ==> !spec_matches_dependency(msg, dep),
        msg.source@ != dep.sender@ ==> !spec_matches_dependency(msg, dep),
{
}

/// Whether a mailbox message satisfies a cross-rollup dependency.
pub fn matches_dependency(msg: &MailboxMessage, dep: &CrossRollupDependency) -> (r: bool)
    ensures
        r == spec_matches_dependency(*msg, *dep),
{
    if msg.source_chain != dep.source_chain_id.0 {
        return false;
    }
    if msg.destination_chain != dep.dest_chain_id.0 {
        return false;
    }
    if !bytes_eq(msg.source.as_slice(), dep.sender.as_slice()) {
        return false;
    }
    if !bytes_eq(msg.receiver.as_slice(), dep.receiver.as_slice()) {
        return false;
    }
    // A session id above `u64::MAX` equals no message session.
    let dep_session = match &dep.session_id {
        Some(s) => match u256_to_u64(s) {
            Some(v) => v,
            None => {
                return false;
            },
        },
        None => 0,
    };
    if msg.session_id != dep_session {
        return false;
    }
    bytes_eq(msg.label.as_str().as_bytes(), dep.label.as_slice())
}

/// Two dependencies with the same key fields (all but the data).
pub open spec fn same_dep_key(a: CrossRollupDependency, b: CrossRollupDependency) -> bool {
    &&& a.source_chain_id == b.source_chain_id
    &&& a.dest_chain_id == b.dest_chain_id
    &&& a.sender == b.sender
    &&& a.receiver == b.receiver
    &&& a.session_id == b.session_id
    &&& a.label@ == b.label@
}

/// Whether two dependencies have the same key fields.
pub fn dep_key_eq(a: &CrossRollupDependency, b: &CrossRollupDependency) -> (r: bool)
    ensures
        r == same_dep_key(*a, *b),
{
    if a.source_chain_id.0 != b.source_chain_id.0 || a.dest_chain_id.0 != b.dest_chain_id.0 {
        return false;
    }
    if !crate::overrides::address_eq(&a.sender, &b.sender) || !crate::overrides::address_eq(
        &a.receiver,
        &b.receiver,
    ) {
        return false;
    }
    let same_session = match (&a.session_id, &b.session_id) {
        (Some(x), Some(y)) => crate::overrides::slot_eq(x, y),
        (None, None) => true,
        _ => false,
    };
    same_session && bytes_eq(a.label.as_slice(), b.label.as_slice())
}

/// `U256`'s `Display` (from `ruint`): the decimal text of the big-endian
/// value, without leading zeros.
#[verifier::external_body]
fn u256_text(b: &U256) -> (s: String)
    ensures
        s@ == spec_decimal_nat(be_value(b@)),
{
    alloy::primitives::U256::from_be_bytes(*b).to_string()
}

/// The deduplication key text of a dependency:
/// `source:dest:hex(sender):hex(receiver):session:hex(label)`, the session
/// being zero when absent.
pub open spec fn spec_dep_key(dep: CrossRollupDependency) -> Seq<char> {
    spec_decimal(dep.source_chain_id.0) + ":"@ + spec_decimal(dep.dest_chain_id.0) + ":"@
        + spec_hex(dep.sender@) + ":"@ + spec_hex(dep.receiver@) + ":"@ + spec_decimal_nat(be_value(
        match dep.session_id {
            Some(s) => s@,
            None => seq![0u8; 32],
        },
    )) + ":"@ + spec_hex(dep.label@)
}

/// Deduplication key of a dependency.
pub fn dep_key(dep: &CrossRollupDependency) -> (s: String)
    ensures
        s@ == spec_dep_key(*dep),
{
    let zero: U256 = [0u8; 32];
    let session = match &dep.session_id {
        Some(v) => u256_text(v),
        None => u256_text(&zero),
    };
    proof {
        assert(zero@ =~= seq![0u8; 32]);
    }
    let mut s = decimal(dep.source_chain_id.0);
    s.append(":");
    s.append(decimal(dep.dest_chain_id.0).as_str());
    s.append(":");
    s.append(hex_encode(dep.sender.as_slice()).as_str());
    s.append(":");
    s.append(hex_encode(dep.receiver.as_slice()).as_str());
    s.append(":");
    s.append(session.as_str());
    s.append(":");
    s.append(hex_encode(dep.label.as_slice()).as_str());
    s
}

/// Two outbound messages with the same route and label.
pub open spec fn same_route(a: CrossRollupMessage, b: CrossRollupMessage) -> bool {
    &&& a.source_chain_id == b.source_chain_id
    &&& a.dest_chain_id == b.dest_chain_id
    &&& a.label@ == b.label@
    &&& a.sender == b.sender
    &&& a.receiver == b.receiver
}

/// Whether `msgs` already holds a message with the same route and label.
pub fn contains_message(msgs: &[CrossRollupMessage], msg: &CrossRollupMessage) -> (r: bool)
    ensures
        r == exists|i: int| 0 <= i < msgs@.len() && same_route(#[trigger] msgs@[i], *msg),
{
    let mut i: usize = 0;
    while i < msgs.len()
        invariant
            0 <= i <= msgs@.len(),
            forall|j: int| 0 <= j < i ==> !same_route(#[trigger] msgs@[j], *msg),
        decreases msgs@.len() - i,
    {
        let m = &msgs[i];
        if m.source_chain_id.0 == msg.source_chain_id.0 && m.dest_chain_id.0 == msg.dest_chain_id.0
            && crate::util::str_eq(m.label.as_str(), msg.label.as_str())
            && crate::overrides::address_eq(&m.sender, &msg.sender)
            && crate::overrides::address_eq(&m.receiver, &msg.receiver) {
            return true;
        }
        i = i + 1;
    }
    false
}

// ---------------------------------------------------------------------------
// Session ids on the wire: 32 big-endian bytes.
// ---------------------------------------------------------------------------

/// Length of a session id on the wire.
pub const SESSION_ID_BYTES: usize = 32;

/// A session id as its 32 big-endian bytes.
pub fn encode_session_id(session_id: U256) -> (b: Vec<u8>)
    ensures
        b@ == session_id@,
{
    crate::util::copy_bytes(session_id.as_slice())
}

/// Session ids travel as their 32 big-endian bytes: the bytes encoding gives
/// have the length decoding accepts, and the id decoded from them is the
/// one encoded.
pub proof fn lemma_session_id_round_trip(id: U256, bytes: Seq<u8>, decoded: U256)
    requires
        bytes == id@,
        decoded@ == bytes,
    ensures
        bytes.len() == SESSION_ID_BYTES,
        decoded == id,
{
    assert(decoded =~= id);
}

/// A session id from exactly 32 big-endian bytes.
pub fn decode_session_id(bytes: &[u8]) -> (r: Option<U256>)
    ensures
        bytes@.len() != 32 ==> r is None,
        bytes@.len() == 32 ==> (r matches Some(v) && v@ == bytes@),
{
    if bytes.len() != SESSION_ID_BYTES {
        return None;
    }
    let mut out: U256 = [0u8; 32];
    let mut i: usize = 0;
    while i < 32
        invariant
            bytes@.len() == 32,
            0 <= i <= 32,
            forall|j: int| 0 <= j < i ==> out@[j] == bytes@[j],
        decreases 32 - i,
    {
        out[i] = bytes[i];
        i = i + 1;
    }
    proof {
        assert(out@ =~= bytes@);
    }
    Some(out)
}

// ---------------------------------------------------------------------------
// In-memory queue of inbound messages.
// ---------------------------------------------------------------------------

/// The messages recorded for one raw instance id.
#[derive(Debug)]
pub struct QueueBucket {
    pub instance_id: Vec<u8>,
    pub messages: Vec<MailboxMessage>,
}

/// In-memory mailbox queue: messages by raw instance id, in arrival order.
#[derive(Debug)]
pub struct InMemoryQueue {
    buckets: Vec<QueueBucket>,
}

/// The key of a queue bucket.
pub open spec fn bucket_key(b: QueueBucket) -> Seq<u8> {
    b.instance_id@
}

impl InMemoryQueue {
    /// Buckets carry distinct raw ids.
    #[verifier::type_invariant]
    spec fn wf(&self) -> bool {
        crate::keyed::keys_distinct(self.buckets@, |b: QueueBucket| bucket_key(b))
    }

    /// The messages recorded under raw id `id`, in arrival order.
    pub closed spec fn recorded(&self, id: Seq<u8>) -> Seq<MailboxMessage> {
        let m = crate::keyed::keyed_map(self.buckets@, |b: QueueBucket| bucket_key(b));
        if m.dom().contains(id) {
            m[id].messages@
        } else {
            Seq::empty()
        }
    }

    /// An empty queue.
    pub fn new() -> (q: InMemoryQueue)
        ensures
            forall|id: Seq<u8>| #[trigger] q.recorded(id).len() == 0,
    {
        proof {
            crate::keyed::lemma_keyed_empty(|b: QueueBucket| bucket_key(b));
        }
        InMemoryQueue { buckets: Vec::new() }
    }

    fn find(&self, id: &[u8]) -> (r: Option<usize>)
        ensures
            r matches Some(i) ==> i < self.buckets@.len() && self.buckets@[i as int].instance_id@ == id@
                && self.recorded(id@) == self.buckets@[i as int].messages@,
            r is None ==> self.recorded(id@).len() == 0 && !crate::keyed::keyed_map(
                self.buckets@,
                |b: QueueBucket| bucket_key(b),
            ).dom().contains(id@),
    {
        proof {
            use_type_invariant(self);
        }
        let mut i: usize = 0;
        while i < self.buckets.len()
            invariant
                0 <= i <= self.buckets@.len(),
                crate::keyed::keys_distinct(self.buckets@, |b: QueueBucket| bucket_key(b)),
                forall|j: int| 0 <= j < i ==> (#[trigger] self.buckets@[j]).instance_id@ != id@,
            decreases self.buckets@.len() - i,
        {
            if bytes_eq(self.buckets[i].instance_id.as_slice(), id) {
                proof {
                    crate::keyed::lemma_keyed_at(self.buckets@, |b: QueueBucket| bucket_key(b), i as int);
                }
                return Some(i);
            }
            i = i + 1;
        }
        proof {
            crate::keyed::lemma_keyed_absent(self.buckets@, |b: QueueBucket| bucket_key(b), id@);
        }
        None
    }

    /// Records an inbound message under its raw instance id.
    pub fn record(&mut self, msg: &MailboxMessage) -> (r: Result<(), MailboxError>)
        ensures
            r is Ok,
            final(self).recorded(msg.instance_id@).len() == old(self).recorded(msg.instance_id@).len() + 1,
            final(self).recorded(msg.instance_id@).drop_last() == old(self).recorded(msg.instance_id@),
            final(self).recorded(msg.instance_id@).last().same_as(msg),
            forall|id: Seq<u8>|
                id != msg.instance_id@ ==> #[trigger] final(self).recorded(id) == old(self).recorded(id),
    {
        proof {
            use_type_invariant(&*self);
        }
        let copy = msg.duplicate();
        let found = self.find(msg.instance_id.as_slice());
        let mut bs: Vec<QueueBucket> = Vec::new();
        std::mem::swap(&mut bs, &mut self.buckets);
        let ghost before = bs@;
        match found {
            Some(i) => {
                let mut bucket = bs.remove(i);
                bucket.messages.push(copy);
                proof {
                    assert(bucket_key(bucket) == bucket_key(before[i as int]));
                    crate::keyed::lemma_keyed_update(before, |b: QueueBucket| bucket_key(b), i as int, bucket);
                }
                bs.insert(i, bucket);
                proof {
                    assert(bs@ =~= before.update(i as int, bucket));
                }
            },
            None => {
                let mut messages: Vec<MailboxMessage> = Vec::new();
                messages.push(copy);
                let b = QueueBucket { instance_id: crate::util::copy_bytes(msg.instance_id.as_slice()), messages };
                proof {
                    crate::keyed::lemma_keyed_push(before, |b: QueueBucket| bucket_key(b), b);
                }
                bs.push(b);
            },
        }
        self.buckets = bs;
        Ok(())
    }

    /// The messages recorded under raw id `instance_id`, in arrival order.
    pub fn pending(&self, instance_id: &[u8]) -> (r: Result<Vec<MailboxMessage>, MailboxError>)
        ensures
            r matches Ok(v) && v@.len() == self.recorded(instance_id@).len() && forall|i: int|
                0 <= i < v@.len() ==> (#[trigger] v@[i]).same_as(&self.recorded(instance_id@)[i]),
    {
        let mut out: Vec<MailboxMessage> = Vec::new();
        match self.find(instance_id) {
            Some(b) => {
                let msgs = &self.buckets[b].messages;
                let mut i: usize = 0;
                while i < msgs.len()
                    invariant
                        0 <= i <= msgs@.len(),
                        out@.len() == i,
                        forall|j: int| 0 <= j < i ==> (#[trigger] out@[j]).same_as(&msgs@[j]),
                    decreases msgs@.len() - i,
                {
                    out.push(msgs[i].duplicate());
                    i = i + 1;
                }
            },
            None => {},
        }
        Ok(out)
    }
}

} // verus!
