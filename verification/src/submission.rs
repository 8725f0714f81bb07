//! XT requests: building them from per-chain transactions, their protobuf
//! encoding, and the fingerprint used to deduplicate submissions.

use vstd::prelude::*;

use crate::codec::{hex_encode, push_varint, sha256, spec_hex, spec_sha256, spec_varint};
use crate::keyed::{keyed_map, keys_distinct, lemma_keyed_absent, lemma_keyed_at};
use crate::types::{clone_byte_vecs, ChainId};
use crate::xt::{bytes_view, chain_key, ChainTxs};

verus! {

broadcast use vstd::seq::group_seq_axioms;

/// The transactions of one chain in an XT request.
#[derive(Debug)]
pub struct TransactionRequest {
    pub chain_id: u64,
    pub transaction: Vec<Vec<u8>>,
}

/// A cross-chain transaction request: per-chain transaction lists.
#[derive(Debug)]
pub struct XtRequest {
    pub transaction_requests: Vec<TransactionRequest>,
}

/// A transaction request viewed by contents.
pub open spec fn request_view(r: TransactionRequest) -> (u64, Seq<Seq<u8>>) {
    (r.chain_id, bytes_view(r.transaction@))
}

/// Transaction requests viewed by contents.
pub open spec fn requests_view(s: Seq<TransactionRequest>) -> Seq<(u64, Seq<Seq<u8>>)> {
    s.map_values(|r: TransactionRequest| request_view(r))
}

// ---------------------------------------------------------------------------
// Protobuf encoding: `XtRequest { repeated TransactionRequest = 1 }`,
// `TransactionRequest { uint64 chain_id = 1; repeated bytes transaction = 2 }`.
// ---------------------------------------------------------------------------

/// A length-delimited field: its tag byte, the body length as a varint, the body.
pub open spec fn spec_len_delimited(tag: u8, body: Seq<u8>) -> Seq<u8> {
    seq![tag] + spec_varint(body.len() as u64) + body
}

/// The `transaction` fields (field 2, bytes) of a request.
pub open spec fn spec_encode_txs(txs: Seq<Seq<u8>>) -> Seq<u8>
    decreases txs.len(),
{
    if txs.len() == 0 {
        Seq::empty()
    } else {
        spec_encode_txs(txs.drop_last()) + spec_len_delimited(0x12, txs.last())
    }
}

/// The body of a `TransactionRequest`; a zero chain id is omitted, as proto3
/// omits default scalars.
pub open spec fn spec_encode_tx_request(chain_id: u64, txs: Seq<Seq<u8>>) -> Seq<u8> {
    (if chain_id == 0 {
        Seq::empty()
    } else {
        seq![0x08u8] + spec_varint(chain_id)
    }) + spec_encode_txs(txs)
}

/// The encoding of an `XtRequest` with the given requests.
pub open spec fn spec_encode_xt_request(reqs: Seq<(u64, Seq<Seq<u8>>)>) -> Seq<u8>
    decreases reqs.len(),
{
    if reqs.len() == 0 {
        Seq::empty()
    } else {
        spec_encode_xt_request(reqs.drop_last()) + spec_len_delimited(
            0x0a,
            spec_encode_tx_request(reqs.last().0, reqs.last().1),
        )
    }
}

/// Appends a length-delimited field.
fn push_len_delimited(out: &mut Vec<u8>, tag: u8, body: Vec<u8>)
    ensures
        final(out)@ == old(out)@ + spec_len_delimited(tag, body@),
{
    let mut body = body;
    let ghost b = body@;
    out.push(tag);
    push_varint(out, body.len() as u64);
    out.append(&mut body);
    proof {
        assert(final(out)@ =~= old(out)@ + spec_len_delimited(tag, b));
    }
}

/// Encodes the body of a `TransactionRequest`.
fn encode_tx_request(r: &TransactionRequest) -> (out: Vec<u8>)
    ensures
        out@ == spec_encode_tx_request(r.chain_id, bytes_view(r.transaction@)),
{
    let mut out: Vec<u8> = Vec::new();
    if r.chain_id != 0 {
        out.push(0x08);
        push_varint(&mut out, r.chain_id);
    }
    let ghost head = out@;
    let mut i: usize = 0;
    while i < r.transaction.len()
        invariant
            0 <= i <= r.transaction@.len(),
            out@ == head + spec_encode_txs(bytes_view(r.transaction@).take(i as int)),
        decreases r.transaction@.len() - i,
    {
        proof {
            assert(bytes_view(r.transaction@).take(i + 1).drop_last() =~= bytes_view(
                r.transaction@,
            ).take(i as int));
        }
        let body = crate::util::copy_bytes(r.transaction[i].as_slice());
        push_len_delimited(&mut out, 0x12, body);
        proof {
            assert(out@ =~= head + spec_encode_txs(bytes_view(r.transaction@).take(i + 1)));
        }
        i = i + 1;
    }
    proof {
        assert(bytes_view(r.transaction@).take(r.transaction@.len() as int) =~= bytes_view(
            r.transaction@,
        ));
        assert(head =~= (if r.chain_id == 0 {
            Seq::empty()
        } else {
            seq![0x08u8] + spec_varint(r.chain_id)
        }));
    }
    out
}

/// The protobuf encoding of an XT request.
pub fn encode_xt_request(req: &XtRequest) -> (out: Vec<u8>)
    ensures
        out@ == spec_encode_xt_request(requests_view(req.transaction_requests@)),
{
    let reqs = &req.transaction_requests;
    let mut out: Vec<u8> = Vec::new();
    let mut i: usize = 0;
    while i < reqs.len()
        invariant
            0 <= i <= reqs@.len(),
            out@ == spec_encode_xt_request(requests_view(reqs@).take(i as int)),
        decreases reqs@.len() - i,
    {
        proof {
            assert(requests_view(reqs@).take(i + 1).drop_last() =~= requests_view(reqs@).take(
                i as int,
            ));
        }
        let body = encode_tx_request(&reqs[i]);
        push_len_delimited(&mut out, 0x0a, body);
        i = i + 1;
    }
    proof {
        assert(requests_view(reqs@).take(reqs@.len() as int) =~= requests_view(reqs@));
    }
    out
}

/// The fingerprint of an encoding: hex of the first 16 bytes of its SHA-256.
pub open spec fn spec_fingerprint(encoding: Seq<u8>) -> Seq<char> {
    spec_hex(spec_sha256(encoding).take(16))
}

/// Fingerprint of an XT request for deduplication: hex of the first 16 bytes
/// of the SHA-256 of its protobuf encoding.
pub fn xt_request_fingerprint(req: &XtRequest) -> (fp: String)
    ensures
        fp@ == spec_fingerprint(spec_encode_xt_request(requests_view(req.transaction_requests@))),
{
    let data = encode_xt_request(req);
    let hash = sha256(data.as_slice());
    let prefix = crate::util::copy_range(hash.as_slice(), 0, 16);
    proof {
        assert(prefix@ =~= spec_sha256(data@).take(16));
    }
    hex_encode(prefix.as_slice())
}

// ---------------------------------------------------------------------------
// Building a request from per-chain transactions.
// ---------------------------------------------------------------------------

/// Request chain ids strictly increase.
pub open spec fn chains_ascending(reqs: Seq<(u64, Seq<Seq<u8>>)>) -> bool {
    forall|i: int, j: int| 0 <= i < j < reqs.len() ==> reqs[i].0 < reqs[j].0
}

/// `reqs` holds exactly the chains of `txs` that carry transactions, each with
/// its transactions.
pub open spec fn requests_match(reqs: Seq<(u64, Seq<Seq<u8>>)>, txs: Seq<ChainTxs>) -> bool {
    &&& forall|i: int|
        0 <= i < reqs.len() ==> (#[trigger] reqs[i]).1.len() > 0 && exists|k: int|
            0 <= k < txs.len() && (#[trigger] txs[k]).chain_id.0 == reqs[i].0 && bytes_view(
                txs[k].txs@,
            ) == reqs[i].1
    &&& forall|k: int|
        0 <= k < txs.len() && (#[trigger] txs[k]).txs@.len() > 0 ==> exists|i: int|
            0 <= i < reqs.len() && (#[trigger] reqs[i]).0 == txs[k].chain_id.0
}

/// Every request comes from one of the first `k` chains of `txs` and carries
/// its transactions.
pub open spec fn built_from(reqs: Seq<(u64, Seq<Seq<u8>>)>, txs: Seq<ChainTxs>, k: int) -> bool {
    forall|i: int|
        0 <= i < reqs.len() ==> (#[trigger] reqs[i]).1.len() > 0 && exists|m: int|
            0 <= m < k && (#[trigger] txs[m]).chain_id.0 == reqs[i].0 && bytes_view(txs[m].txs@)
                == reqs[i].1
}

/// Every one of the first `k` chains of `txs` that carries transactions has a request.
pub open spec fn covers(reqs: Seq<(u64, Seq<Seq<u8>>)>, txs: Seq<ChainTxs>, k: int) -> bool {
    forall|m: int|
        0 <= m < k && (#[trigger] txs[m]).txs@.len() > 0 ==> exists|i: int|
            0 <= i < reqs.len() && (#[trigger] reqs[i]).0 == txs[m].chain_id.0
}

/// The insertion point for chain `c` splits the requests into smaller and
/// larger chain ids, since `c` is not yet among them.
proof fn lemma_insert_point(
    before: Seq<(u64, Seq<Seq<u8>>)>,
    txs: Seq<ChainTxs>,
    k: int,
    pos: int,
)
    requires
        keys_distinct(txs, |e: ChainTxs| chain_key(e)),
        0 <= k < txs.len(),
        chains_ascending(before),
        built_from(before, txs, k),
        0 <= pos <= before.len(),
        forall|j: int| 0 <= j < pos ==> before[j].0 < txs[k].chain_id.0,
        pos == before.len() || before[pos].0 >= txs[k].chain_id.0,
    ensures
        forall|j: int| pos <= j < before.len() ==> before[j].0 > txs[k].chain_id.0,
{
    let c = txs[k].chain_id.0;
    assert forall|j: int| pos <= j < before.len() implies before[j].0 > c by {
        assert(before[j].1.len() > 0);
        if before[j].0 == c {
            let m = choose|m: int|
                0 <= m < k && (#[trigger] txs[m]).chain_id.0 == before[j].0 && bytes_view(
                    txs[m].txs@,
                ) == before[j].1;
            crate::keyed::lemma_keyed_same(txs, |e: ChainTxs| chain_key(e), m, k);
        }
        if j > pos {
            assert(before[pos].0 < before[j].0);
        }
    }
}

/// Element `i` of `s.insert(pos, r)`.
proof fn lemma_insert_index<T>(s: Seq<T>, pos: int, r: T, i: int)
    requires
        0 <= pos <= s.len(),
        0 <= i <= s.len(),
    ensures
        s.insert(pos, r).len() == s.len() + 1,
        i < pos ==> s.insert(pos, r)[i] == s[i],
        i == pos ==> s.insert(pos, r)[i] == r,
        i > pos ==> s.insert(pos, r)[i] == s[i - 1],
{
}

/// Inserting the request of chain `k` at its insertion point keeps the
/// requests ascending, built from the first `k + 1` chains, and covering them.
proof fn lemma_insert_step(
    before: Seq<(u64, Seq<Seq<u8>>)>,
    txs: Seq<ChainTxs>,
    k: int,
    pos: int,
    r: (u64, Seq<Seq<u8>>),
)
    requires
        0 <= k < txs.len(),
        chains_ascending(before),
        built_from(before, txs, k),
        covers(before, txs, k),
        0 <= pos <= before.len(),
        forall|j: int| 0 <= j < pos ==> before[j].0 < txs[k].chain_id.0,
        forall|j: int| pos <= j < before.len() ==> before[j].0 > txs[k].chain_id.0,
        r.0 == txs[k].chain_id.0,
        r.1 == bytes_view(txs[k].txs@),
        r.1.len() > 0,
    ensures
        chains_ascending(before.insert(pos, r)),
        built_from(before.insert(pos, r), txs, k + 1),
        covers(before.insert(pos, r), txs, k + 1),
{
    let after = before.insert(pos, r);
    assert(built_from(after, txs, k + 1)) by {
        assert forall|i: int| 0 <= i < after.len() implies (#[trigger] after[i]).1.len() > 0
            && exists|m: int|
            0 <= m < k + 1 && (#[trigger] txs[m]).chain_id.0 == after[i].0 && bytes_view(
                txs[m].txs@,
            ) == after[i].1 by {
            lemma_insert_index(before, pos, r, i);
            if i == pos {
                assert(txs[k].chain_id.0 == after[i].0);
            } else {
                let j = if i < pos {
                    i
                } else {
                    i - 1
                };
                assert(after[i] == before[j]);
                let m = choose|m: int|
                    0 <= m < k && (#[trigger] txs[m]).chain_id.0 == before[j].0 && bytes_view(
                        txs[m].txs@,
                    ) == before[j].1;
            }
        }
    }
    assert(covers(after, txs, k + 1)) by {
        assert forall|m: int| 0 <= m < k + 1 && (#[trigger] txs[m]).txs@.len() > 0 implies exists|
            i: int,
        |
            0 <= i < after.len() && (#[trigger] after[i]).0 == txs[m].chain_id.0 by {
            if m == k {
                lemma_insert_index(before, pos, r, pos);
                assert(after[pos].0 == txs[m].chain_id.0);
            } else {
                let i = choose|i: int|
                    0 <= i < before.len() && (#[trigger] before[i]).0 == txs[m].chain_id.0;
                if i < pos {
                    lemma_insert_index(before, pos, r, i);
                    assert(after[i] == before[i]);
                } else {
                    lemma_insert_index(before, pos, r, i + 1);
                    assert(after[i + 1] == before[i]);
                }
            }
        }
    }
    assert(chains_ascending(after)) by {
        assert forall|i: int, j: int| 0 <= i < j < after.len() implies after[i].0 < after[j].0 by {
            lemma_insert_index(before, pos, r, i);
            lemma_insert_index(before, pos, r, j);
        }
    }
}

/// `x` is an element of `s`.
pub open spec fn occurs_in(x: (u64, Seq<Seq<u8>>), s: Seq<(u64, Seq<Seq<u8>>)>) -> bool {
    exists|j: int| 0 <= j < s.len() && s[j] == x
}

/// Every element of `a` occurs in `b` and every element of `b` occurs in `a`.
pub open spec fn same_elements(a: Seq<(u64, Seq<Seq<u8>>)>, b: Seq<(u64, Seq<Seq<u8>>)>) -> bool {
    &&& forall|i: int| 0 <= i < a.len() ==> occurs_in(#[trigger] a[i], b)
    &&& forall|j: int| 0 <= j < b.len() ==> occurs_in(#[trigger] b[j], a)
}

proof fn lemma_ascending_unique(a: Seq<(u64, Seq<Seq<u8>>)>, b: Seq<(u64, Seq<Seq<u8>>)>)
    requires
        chains_ascending(a),
        chains_ascending(b),
        same_elements(a, b),
    ensures
        a == b,
    decreases a.len(),
{
    if a.len() == 0 {
        if b.len() > 0 {
            assert(occurs_in(b[0], a));
        }
        assert(a =~= b);
    } else {
        assert(occurs_in(a[0], b));
        let j = choose|j: int| 0 <= j < b.len() && b[j] == a[0];
        assert(occurs_in(b[0], a));
        let i = choose|i: int| 0 <= i < a.len() && a[i] == b[0];
        assert(a[0] == b[0]) by {
            if i != 0 {
                assert(a[0].0 < a[i].0);
            }
            if j != 0 {
                assert(b[0].0 < b[j].0);
            }
        }
        let a2 = a.drop_first();
        let b2 = b.drop_first();
        assert forall|x: int| 0 <= x < a2.len() implies occurs_in(#[trigger] a2[x], b2) by {
            assert(a2[x] == a[x + 1]);
            assert(occurs_in(a[x + 1], b));
            let y = choose|y: int| 0 <= y < b.len() && b[y] == a[x + 1];
            assert(a[0].0 < a[x + 1].0);
            assert(y != 0);
            assert(b2[y - 1] == b[y]);
        }
        assert forall|y: int| 0 <= y < b2.len() implies occurs_in(#[trigger] b2[y], a2) by {
            assert(b2[y] == b[y + 1]);
            assert(occurs_in(b[y + 1], a));
            let x = choose|x: int| 0 <= x < a.len() && a[x] == b[y + 1];
            assert(b[0].0 < b[y + 1].0);
            assert(x != 0);
            assert(a2[x - 1] == a[x]);
        }
        lemma_ascending_unique(a2, b2);
        assert(a =~= b) by {
            assert forall|x: int| 0 <= x < a.len() implies a[x] == b[x] by {
                if x > 0 {
                    assert(a[x] == a2[x - 1] && b[x] == b2[x - 1]);
                }
            }
        }
    }
}

/// The request is determined by the per-chain transactions: any two requests
/// in ascending chain order that match the same chains are equal. Building a
/// request therefore does not depend on the order in which chains are listed.
pub proof fn lemma_request_unique(
    a: Seq<(u64, Seq<Seq<u8>>)>,
    b: Seq<(u64, Seq<Seq<u8>>)>,
    txs: Seq<ChainTxs>,
)
    requires
        keys_distinct(txs, |e: ChainTxs| chain_key(e)),
        chains_ascending(a),
        requests_match(a, txs),
        chains_ascending(b),
        requests_match(b, txs),
    ensures
        a == b,
{
    assert forall|i: int| 0 <= i < a.len() implies occurs_in(#[trigger] a[i], b) by {
        let k = choose|k: int|
            0 <= k < txs.len() && (#[trigger] txs[k]).chain_id.0 == a[i].0 && bytes_view(txs[k].txs@)
                == a[i].1;
        assert(bytes_view(txs[k].txs@).len() == txs[k].txs@.len());
        let j = choose|j: int| 0 <= j < b.len() && (#[trigger] b[j]).0 == txs[k].chain_id.0;
        let k2 = choose|k2: int|
            0 <= k2 < txs.len() && (#[trigger] txs[k2]).chain_id.0 == b[j].0 && bytes_view(
                txs[k2].txs@,
            ) == b[j].1;
        crate::keyed::lemma_keyed_same(txs, |e: ChainTxs| chain_key(e), k, k2);
        assert(b[j] == a[i]);
    }
    assert forall|j: int| 0 <= j < b.len() implies occurs_in(#[trigger] b[j], a) by {
        let k = choose|k: int|
            0 <= k < txs.len() && (#[trigger] txs[k]).chain_id.0 == b[j].0 && bytes_view(txs[k].txs@)
                == b[j].1;
        assert(bytes_view(txs[k].txs@).len() == txs[k].txs@.len());
        let i = choose|i: int| 0 <= i < a.len() && (#[trigger] a[i]).0 == txs[k].chain_id.0;
        let k2 = choose|k2: int|
            0 <= k2 < txs.len() && (#[trigger] txs[k2]).chain_id.0 == a[i].0 && bytes_view(
                txs[k2].txs@,
            ) == a[i].1;
        crate::keyed::lemma_keyed_same(txs, |e: ChainTxs| chain_key(e), k, k2);
        assert(a[i] == b[j]);
    }
    lemma_ascending_unique(a, b);
}

/// The request built from per-chain transactions: the chains that carry
/// transactions, in ascending chain order.
pub open spec fn spec_build_request(txs: Seq<ChainTxs>) -> Seq<(u64, Seq<Seq<u8>>)> {
    choose|r: Seq<(u64, Seq<Seq<u8>>)>| chains_ascending(r) && requests_match(r, txs)
}

/// The index of the first request whose chain id is not below `c`.
fn insert_position(out: &Vec<TransactionRequest>, c: u64) -> (pos: usize)
    ensures
        pos <= out@.len(),
        forall|j: int| 0 <= j < pos ==> requests_view(out@)[j].0 < c,
        pos == out@.len() || requests_view(out@)[pos as int].0 >= c,
{
    let mut pos: usize = 0;
    while pos < out.len() && out[pos].chain_id < c
        invariant
            0 <= pos <= out@.len(),
            forall|j: int| 0 <= j < pos ==> requests_view(out@)[j].0 < c,
        decreases out@.len() - pos,
    {
        pos = pos + 1;
    }
    pos
}

/// Builds an XT request from per-chain transactions: chains in ascending id
/// order, chains without transactions left out.
pub fn build_xt_request(txs: &Vec<ChainTxs>) -> (req: XtRequest)
    requires
        keys_distinct(txs@, |e: ChainTxs| chain_key(e)),
    ensures
        chains_ascending(requests_view(req.transaction_requests@)),
        requests_match(requests_view(req.transaction_requests@), txs@),
        requests_view(req.transaction_requests@) == spec_build_request(txs@),
{
    let mut out: Vec<TransactionRequest> = Vec::new();
    let mut k: usize = 0;
    while k < txs.len()
        invariant
            0 <= k <= txs@.len(),
            keys_distinct(txs@, |e: ChainTxs| chain_key(e)),
            chains_ascending(requests_view(out@)),
            built_from(requests_view(out@), txs@, k as int),
            covers(requests_view(out@), txs@, k as int),
        decreases txs@.len() - k,
    {
        if txs[k].txs.len() > 0 {
            let c = txs[k].chain_id.0;
            let ghost before = requests_view(out@);
            let pos = insert_position(&out, c);
            proof {
                lemma_insert_point(before, txs@, k as int, pos as int);
            }
            let r = TransactionRequest { chain_id: c, transaction: clone_byte_vecs(&txs[k].txs) };
            proof {
                assert(bytes_view(r.transaction@) =~= bytes_view(txs@[k as int].txs@));
                lemma_insert_step(before, txs@, k as int, pos as int, request_view(r));
            }
            out.insert(pos, r);
            proof {
                assert(requests_view(out@) =~= before.insert(pos as int, request_view(r)));
            }
        } else {
            proof {
                assert(covers(requests_view(out@), txs@, k + 1));
                assert(built_from(requests_view(out@), txs@, k + 1)) by {
                    assert forall|i: int| 0 <= i < requests_view(out@).len() implies (
                    #[trigger] requests_view(out@)[i]).1.len() > 0 && exists|m: int|
                        0 <= m < k + 1 && (#[trigger] txs@[m]).chain_id.0 == requests_view(
                            out@,
                        )[i].0 && bytes_view(txs@[m].txs@) == requests_view(out@)[i].1 by {
                        let m = choose|m: int|
                            0 <= m < k && (#[trigger] txs@[m]).chain_id.0 == requests_view(
                                out@,
                            )[i].0 && bytes_view(txs@[m].txs@) == requests_view(out@)[i].1;
                    }
                }
            }
        }
        k = k + 1;
    }
    proof {
        let r = requests_view(out@);
        let c = spec_build_request(txs@);
        assert(chains_ascending(c) && requests_match(c, txs@));
        lemma_request_unique(r, c, txs@);
    }
    XtRequest { transaction_requests: out }
}

} // verus!
