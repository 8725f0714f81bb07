//! Storage layout of the mailbox contract: inbox keys, mapping slots and
//! Solidity `bytes` values, used to seed fulfilled messages into a simulation
//! as a state override.

use vstd::prelude::*;

use crate::keyed::{keys_distinct, lemma_keyed_at, lemma_keyed_empty};
use crate::mailbox::be_value;
use crate::overrides::{put_slot, slot_key, slot_map, AccountOverride, SlotValue, StateOverride};
use crate::types::{Address, ChainId, CrossRollupDependency};

verus! {

broadcast use vstd::seq::group_seq_axioms;

/// Base slot of the mailbox's inbox mapping.
pub const INBOX_MAPPING_SLOT: u64 = 5;

/// Base slot of the mailbox's created-keys mapping.
pub const CREATED_KEYS_MAPPING_SLOT: u64 = 7;

/// The `k` low-order bytes of `n`, big-endian.
pub open spec fn be_bytes(n: nat, k: nat) -> Seq<u8>
    decreases k,
{
    if k == 0 {
        Seq::empty()
    } else {
        be_bytes(n / 256, (k - 1) as nat).push((n % 256) as u8)
    }
}

/// `n` modulo 2^256 as a big-endian 256-bit word.
pub open spec fn u256_word(n: nat) -> Seq<u8> {
    be_bytes(n, 32)
}

/// The 32-byte array holding `s`.
pub open spec fn word_array(s: Seq<u8>) -> [u8; 32] {
    choose|a: [u8; 32]| a@ == s
}

/// The Keccak-256 digest of `data`.
pub uninterp spec fn spec_keccak256(data: Seq<u8>) -> Seq<u8>;

/// `alloy::primitives::keccak256`: the Keccak-256 digest of `data`, which
/// depends on `data` alone and is left unstated.
#[verifier::external_body]
pub(crate) fn keccak256(data: &[u8]) -> (h: [u8; 32])
    ensures
        h@ == spec_keccak256(data@),
{
    alloy::primitives::keccak256(data).0
}

/// `U256::from(n).to_be_bytes::<32>()`: `n` as a big-endian 256-bit word.
#[verifier::external_body]
fn u256_from_u128(n: u128) -> (w: [u8; 32])
    ensures
        w@ == u256_word(n as nat),
{
    alloy::primitives::U256::from(n).to_be_bytes::<32>()
}

/// `U256::wrapping_add`: the word `a` plus `n`, modulo 2^256, big-endian.
#[verifier::external_body]
fn u256_wrapping_add(a: &[u8; 32], n: u64) -> (w: [u8; 32])
    ensures
        w@ == u256_word(be_value(a@) + n as nat),
{
    let sum = alloy::primitives::U256::from_be_bytes(*a).wrapping_add(
        alloy::primitives::U256::from(n),
    );
    sum.to_be_bytes::<32>()
}

/// Storage slot of `mapping[key]` declared at base slot `slot`:
/// `keccak256(key ++ uint256(slot))`.
pub open spec fn spec_mapping_slot(key: Seq<u8>, slot: u64) -> Seq<u8> {
    spec_keccak256(key + u256_word(slot as nat))
}

/// The session id word of a dependency; zero when it carries none.
pub open spec fn session_word(dep: CrossRollupDependency) -> Seq<u8> {
    match dep.session_id {
        Some(s) => s@,
        None => u256_word(0),
    }
}

/// Preimage of a dependency's inbox key on chain `chain_id`: source chain,
/// destination chain (each a 256-bit word), sender, receiver, session id
/// word, then the label bytes.
pub open spec fn mailbox_preimage(chain_id: ChainId, dep: CrossRollupDependency) -> Seq<u8> {
    u256_word(dep.source_chain_id.0 as nat) + u256_word(chain_id.0 as nat) + dep.sender@
        + dep.receiver@ + session_word(dep) + dep.label@
}

/// The inbox key of a dependency on chain `chain_id`.
pub open spec fn spec_mailbox_key(chain_id: ChainId, dep: CrossRollupDependency) -> Seq<u8> {
    spec_keccak256(mailbox_preimage(chain_id, dep))
}

/// Solidity's short-`bytes` slot: the first (at most 31) bytes left-aligned,
/// twice their count in the lowest byte.
pub open spec fn short_bytes_word(data: Seq<u8>) -> Seq<u8> {
    let n = if data.len() <= 31 {
        data.len()
    } else {
        31
    };
    Seq::new(
        32,
        |i: int|
            if i < n {
                data[i]
            } else if i == 31 {
                (2 * n) as u8
            } else {
                0u8
            },
    )
}

/// Number of 32-byte chunks that `len` bytes occupy.
pub open spec fn chunk_count(len: nat) -> nat {
    (len + 31) / 32
}

/// Chunk `i` of `data`, zero-padded to 32 bytes.
pub open spec fn chunk_word(data: Seq<u8>, i: int) -> Seq<u8> {
    Seq::new(
        32,
        |b: int|
            if i * 32 + b < data.len() {
                data[i * 32 + b]
            } else {
                0u8
            },
    )
}

/// The slot writes that store the Solidity `bytes` value `data` at `slot`,
/// in order: up to 31 bytes go inline; longer values store `2 * len + 1` at
/// `slot` and their chunks at `keccak256(slot) + i`.
pub open spec fn bytes_writes(slot: Seq<u8>, data: Seq<u8>) -> Seq<(Seq<u8>, Seq<u8>)> {
    if data.len() <= 31 {
        seq![(slot, short_bytes_word(data))]
    } else {
        let base = be_value(spec_keccak256(slot));
        seq![(slot, u256_word(2 * data.len() + 1))] + Seq::new(
            chunk_count(data.len()),
            |i: int| (u256_word((base + i) as nat), chunk_word(data, i)),
        )
    }
}

/// Whether a dependency is seeded on chain `chain_id`: it is addressed to
/// that chain and carries data.
pub open spec fn seeded(chain_id: ChainId, dep: CrossRollupDependency) -> bool {
    dep.dest_chain_id == chain_id && dep.data is Some
}

/// The writes that seed one dependency: its data in the inbox mapping, then
/// the created-keys flag set to one.
pub open spec fn dep_writes(chain_id: ChainId, dep: CrossRollupDependency) -> Seq<
    (Seq<u8>, Seq<u8>),
> {
    let key = spec_mailbox_key(chain_id, dep);
    bytes_writes(spec_mapping_slot(key, INBOX_MAPPING_SLOT), dep.data.unwrap()@).push(
        (spec_mapping_slot(key, CREATED_KEYS_MAPPING_SLOT), u256_word(1)),
    )
}

/// The writes that seed every seeded dependency of `deps`, in order.
pub open spec fn all_writes(chain_id: ChainId, deps: Seq<CrossRollupDependency>) -> Seq<
    (Seq<u8>, Seq<u8>),
>
    decreases deps.len(),
{
    if deps.len() == 0 {
        Seq::empty()
    } else {
        all_writes(chain_id, deps.drop_last()) + if seeded(chain_id, deps.last()) {
            dep_writes(chain_id, deps.last())
        } else {
            Seq::empty()
        }
    }
}

/// `m` after the slot writes `w`, in order; a later write to a slot wins.
pub open spec fn apply_writes(m: Map<[u8; 32], [u8; 32]>, w: Seq<(Seq<u8>, Seq<u8>)>) -> Map<
    [u8; 32],
    [u8; 32],
>
    decreases w.len(),
{
    if w.len() == 0 {
        m
    } else {
        apply_writes(m, w.drop_last()).insert(word_array(w.last().0), word_array(w.last().1))
    }
}

proof fn lemma_word_array(a: [u8; 32])
    ensures
        word_array(a@) == a,
{
    let c = word_array(a@);
    assert(exists|b: [u8; 32]| b@ == a@);
    assert(c@ == a@);
    assert(c =~= a);
}

proof fn lemma_apply_writes_append(
    m: Map<[u8; 32], [u8; 32]>,
    a: Seq<(Seq<u8>, Seq<u8>)>,
    b: Seq<(Seq<u8>, Seq<u8>)>,
)
    ensures
        apply_writes(m, a + b) == apply_writes(apply_writes(m, a), b),
    decreases b.len(),
{
    if b.len() == 0 {
        assert(a + b =~= a);
    } else {
        assert((a + b).drop_last() =~= a + b.drop_last());
        lemma_apply_writes_append(m, a, b.drop_last());
    }
}

proof fn lemma_all_writes_empty(chain_id: ChainId, deps: Seq<CrossRollupDependency>)
    ensures
        all_writes(chain_id, deps).len() == 0 <==> forall|k: int|
            0 <= k < deps.len() ==> !seeded(chain_id, #[trigger] deps[k]),
    decreases deps.len(),
{
    if deps.len() > 0 {
        lemma_all_writes_empty(chain_id, deps.drop_last());
        if !seeded(chain_id, deps.last()) {
            assert forall|k: int| 0 <= k < deps.len() && !seeded(chain_id, deps.drop_last()[k]) implies !seeded(chain_id, #[trigger] deps[k]) by {
                if k < deps.len() - 1 {
                    assert(deps[k] == deps.drop_last()[k]);
                }
            }
        }
    }
}

/// Appends `b` to `v`.
fn append_bytes(v: &mut Vec<u8>, b: &[u8])
    ensures
        final(v)@ == old(v)@ + b@,
{
    let mut i: usize = 0;
    while i < b.len()
        invariant
            0 <= i <= b@.len(),
            v@ == old(v)@ + b@.take(i as int),
        decreases b@.len() - i,
    {
        v.push(b[i]);
        i = i + 1;
        assert(v@ =~= old(v)@ + b@.take(i as int));
    }
    assert(b@.take(b@.len() as int) =~= b@);
}

/// Storage slot of `mapping[key]` declared at base slot `slot`.
pub fn mapping_slot(key: &[u8; 32], slot: u64) -> (r: [u8; 32])
    ensures
        r@ == spec_mapping_slot(key@, slot),
{
    let mut pre: Vec<u8> = Vec::new();
    append_bytes(&mut pre, key.as_slice());
    let w = u256_from_u128(slot as u128);
    append_bytes(&mut pre, w.as_slice());
    keccak256(pre.as_slice())
}

/// The inbox key of a dependency on chain `chain_id`.
pub fn mailbox_key(chain_id: ChainId, dep: &CrossRollupDependency) -> (r: [u8; 32])
    ensures
        r@ == spec_mailbox_key(chain_id, *dep),
{
    let mut pre: Vec<u8> = Vec::new();
    let src = u256_from_u128(dep.source_chain_id.0 as u128);
    append_bytes(&mut pre, src.as_slice());
    let dst = u256_from_u128(chain_id.0 as u128);
    append_bytes(&mut pre, dst.as_slice());
    append_bytes(&mut pre, dep.sender.as_slice());
    append_bytes(&mut pre, dep.receiver.as_slice());
    match &dep.session_id {
        Some(s) => append_bytes(&mut pre, s.as_slice()),
        None => {
            let zero = u256_from_u128(0);
            append_bytes(&mut pre, zero.as_slice());
        },
    }
    append_bytes(&mut pre, dep.label.as_slice());
    proof {
        assert(pre@ =~= mailbox_preimage(chain_id, *dep));
    }
    keccak256(pre.as_slice())
}

/// Solidity's short-`bytes` slot for `data` (at most 31 bytes are kept).
pub fn encode_short_bytes(data: &[u8]) -> (r: [u8; 32])
    ensures
        r@ == short_bytes_word(data@),
{
    let mut word = [0u8; 32];
    let n: usize = if data.len() <= 31 {
        data.len()
    } else {
        31
    };
    let mut i: usize = 0;
    while i < n
        invariant
            n <= 31,
            n <= data@.len(),
            n == (if data@.len() <= 31 {
                data@.len()
            } else {
                31
            }),
            0 <= i <= n,
            forall|j: int| 0 <= j < i ==> word@[j] == data@[j],
            forall|j: int| i <= j < 32 ==> word@[j] == 0,
        decreases n - i,
    {
        word[i] = data[i];
        i = i + 1;
    }
    word[31] = (n as u8) * 2;
    proof {
        assert(word@ =~= short_bytes_word(data@));
    }
    word
}

/// Chunk `off / 32` of `data`, zero-padded to 32 bytes.
fn chunk_at(data: &[u8], off: usize) -> (r: [u8; 32])
    requires
        off < data@.len(),
        off % 32 == 0,
    ensures
        r@ == chunk_word(data@, off as int / 32),
{
    let mut word = [0u8; 32];
    let mut b: usize = 0;
    while b < 32
        invariant
            off < data@.len(),
            off % 32 == 0,
            0 <= b <= 32,
            forall|j: int| 0 <= j < b ==> word@[j] == chunk_word(data@, off as int / 32)[j],
            forall|j: int| b <= j < 32 ==> word@[j] == 0,
        decreases 32 - b,
    {
        if b < data.len() - off {
            word[b] = data[off + b];
        }
        b = b + 1;
    }
    proof {
        assert(word@ =~= chunk_word(data@, off as int / 32));
    }
    word
}

/// Writes the Solidity `bytes` value `data` at storage slot `slot` into
/// `state_diff`.
pub fn apply_bytes_to_state_diff(state_diff: &mut Vec<SlotValue>, slot: &[u8; 32], data: &[u8])
    requires
        keys_distinct(old(state_diff)@, |e: SlotValue| slot_key(e)),
    ensures
        keys_distinct(final(state_diff)@, |e: SlotValue| slot_key(e)),
        slot_map(final(state_diff)@) == apply_writes(
            slot_map(old(state_diff)@),
            bytes_writes(slot@, data@),
        ),
{
    let ghost m0 = slot_map(state_diff@);
    let ghost w = bytes_writes(slot@, data@);
    proof {
        lemma_word_array(*slot);
    }
    if data.len() <= 31 {
        let value = encode_short_bytes(data);
        put_slot(state_diff, SlotValue { slot: *slot, value });
        proof {
            lemma_word_array(value);
            assert(w.drop_last() =~= Seq::<(Seq<u8>, Seq<u8>)>::empty());
            assert(apply_writes(m0, w.drop_last()) == m0);
            assert(w.last() == (slot@, value@));
        }
        return;
    }
    let len_word = u256_from_u128((data.len() as u128) * 2 + 1);
    put_slot(state_diff, SlotValue { slot: *slot, value: len_word });
    proof {
        lemma_word_array(len_word);
        assert(w.take(1).drop_last() =~= Seq::<(Seq<u8>, Seq<u8>)>::empty());
        assert(apply_writes(m0, w.take(1).drop_last()) == m0);
        assert(w.take(1).last() == (slot@, len_word@));
        assert(slot_map(state_diff@) == apply_writes(m0, w.take(1)));
    }
    let base = keccak256(slot.as_slice());
    let mut off: usize = 0;
    let ghost mut i: int = 0;
    loop
        invariant_except_break
            slot_map(state_diff@) == apply_writes(m0, w.take(1 + i)),
        invariant
            data@.len() > 31,
            w == bytes_writes(slot@, data@),
            base@ == spec_keccak256(slot@),
            off == 32 * i,
            0 <= i,
            off < data@.len(),
            i < chunk_count(data@.len() as nat),
            w.len() == 1 + chunk_count(data@.len() as nat),
            keys_distinct(state_diff@, |e: SlotValue| slot_key(e)),
        ensures
            slot_map(state_diff@) == apply_writes(m0, w),
            keys_distinct(state_diff@, |e: SlotValue| slot_key(e)),
        decreases data@.len() - off,
    {
        assert(off % 32 == 0);
        let value = chunk_at(data, off);
        let at = u256_wrapping_add(&base, (off / 32) as u64);
        put_slot(state_diff, SlotValue { slot: at, value });
        proof {
            lemma_word_array(value);
            lemma_word_array(at);
            assert(off as int / 32 == i);
            assert(w.take(2 + i).drop_last() =~= w.take(1 + i));
            assert(w.take(2 + i).last() == w[1 + i]);
        }
        if data.len() - off <= 32 {
            proof {
                assert(chunk_count(data@.len() as nat) == i + 1);
                assert(w.take(2 + i) =~= w);
            }
            break;
        }
        off = off + 32;
        proof {
            i = i + 1;
        }
    }
}

/// Mailbox state overrides that seed every dependency of `deps` addressed to
/// `chain_id` and carrying data into the mailbox at `mailbox_address`; `None`
/// when there is no such dependency.
pub fn build_mailbox_state_overrides(
    chain_id: ChainId,
    mailbox_address: Address,
    deps: &[CrossRollupDependency],
) -> (r: Option<StateOverride>)
    ensures
        r is None <==> forall|k: int| 0 <= k < deps@.len() ==> !seeded(chain_id, #[trigger] deps@[k]),
        r matches Some(o) ==> {
            &&& o.wf()
            &&& o.accounts@.len() == 1
            &&& o.accounts@[0].address == mailbox_address
            &&& o.accounts@[0].balance is None
            &&& o.accounts@[0].nonce is None
            &&& o.accounts@[0].code is None
            &&& o.accounts@[0].state is None
            &&& o.accounts@[0].state_diff matches Some(d) && slot_map(d@) == apply_writes(
                Map::empty(),
                all_writes(chain_id, deps@),
            )
        },
{
    let mut diff: Vec<SlotValue> = Vec::new();
    proof {
        lemma_keyed_empty(|e: SlotValue| slot_key(e));
        assert(slot_map(diff@) =~= Map::<[u8; 32], [u8; 32]>::empty());
        assert(deps@.take(0) =~= Seq::<CrossRollupDependency>::empty());
    }
    let mut k: usize = 0;
    while k < deps.len()
        invariant
            0 <= k <= deps@.len(),
            keys_distinct(diff@, |e: SlotValue| slot_key(e)),
            slot_map(diff@) == apply_writes(Map::empty(), all_writes(chain_id, deps@.take(k as int))),
        decreases deps@.len() - k,
    {
        let ghost before = slot_map(diff@);
        let ghost prefix = all_writes(chain_id, deps@.take(k as int));
        proof {
            assert(deps@.take(k + 1).drop_last() =~= deps@.take(k as int));
            assert(deps@.take(k + 1).last() == deps@[k as int]);
        }
        let dep = &deps[k];
        if dep.dest_chain_id == chain_id {
            match &dep.data {
                Some(data) => {
                    let key = mailbox_key(chain_id, dep);
                    let inbox = mapping_slot(&key, INBOX_MAPPING_SLOT);
                    let created = mapping_slot(&key, CREATED_KEYS_MAPPING_SLOT);
                    apply_bytes_to_state_diff(&mut diff, &inbox, data.as_slice());
                    let one = u256_from_u128(1);
                    let ghost mid = slot_map(diff@);
                    put_slot(&mut diff, SlotValue { slot: created, value: one });
                    proof {
                        lemma_word_array(created);
                        lemma_word_array(one);
                        let bw = bytes_writes(inbox@, data@);
                        let dw = dep_writes(chain_id, *dep);
                        assert(dw.drop_last() =~= bw);
                        lemma_apply_writes_append(before, bw, seq![dw.last()]);
                        assert(bw + seq![dw.last()] =~= dw);
                        assert(seq![dw.last()].drop_last() =~= Seq::<(Seq<u8>, Seq<u8>)>::empty());
                        lemma_apply_writes_append(Map::empty(), prefix, dw);
                    }
                },
                None => {
                    proof {
                        assert(prefix + Seq::<(Seq<u8>, Seq<u8>)>::empty() =~= prefix);
                    }
                },
            }
        } else {
            proof {
                assert(prefix + Seq::<(Seq<u8>, Seq<u8>)>::empty() =~= prefix);
            }
        }
        k = k + 1;
    }
    proof {
        assert(deps@.take(deps@.len() as int) =~= deps@);
        lemma_all_writes_empty(chain_id, deps@);
    }
    if diff.len() == 0 {
        proof {
            let w = all_writes(chain_id, deps@);
            if w.len() > 0 {
                assert(apply_writes(Map::empty(), w).dom().contains(word_array(w.last().0)));
                assert(slot_map(diff@).dom().contains(word_array(w.last().0)));
                let kk = word_array(w.last().0);
                assert(crate::keyed::keyed_map(diff@, |e: SlotValue| slot_key(e)).dom().contains(kk));
                let j = crate::keyed::lemma_keyed_index(diff@, |e: SlotValue| slot_key(e), kk);
            }
        }
        return None;
    }
    proof {
        let w = all_writes(chain_id, deps@);
        lemma_keyed_at(diff@, |e: SlotValue| slot_key(e), 0);
        if w.len() == 0 {
            assert(slot_map(diff@).dom().contains(diff@[0].slot));
        }
    }
    let account = AccountOverride {
        address: mailbox_address,
        balance: None,
        nonce: None,
        code: None,
        state: None,
        state_diff: Some(diff),
    };
    let mut accounts: Vec<AccountOverride> = Vec::new();
    accounts.push(account);
    let o = StateOverride { accounts };
    proof {
        assert(keys_distinct(o.accounts@, |a: AccountOverride| crate::overrides::account_key(a)));
    }
    Some(o)
}

} // verus!
