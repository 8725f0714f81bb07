//! HTTP-facing request and response values and the mapping of coordinator
//! errors to HTTP errors.

use vstd::prelude::*;
use vstd::string::StrSliceExecFns;

use crate::codec::{hex_bytes, hex_decode, hex_decodes, spec_hex_error_text, strip_0x, trim_0x};
use crate::error::CoordinatorError;
use crate::types::ChainId;
use crate::xt::{bytes_view, ChainTxs};

verus! {

broadcast use vstd::seq::group_seq_axioms;

/// An HTTP error with its status class.
#[derive(Debug)]
pub enum ServerError {
    /// 400.
    BadRequest(String),
    /// 404.
    NotFound(String),
    /// 500.
    Internal(String),
}

impl ServerError {
    /// The message text of each error.
    pub open spec fn spec_message(&self) -> Seq<char> {
        match self {
            ServerError::BadRequest(m) => "bad request: "@ + m@,
            ServerError::NotFound(m) => "not found: "@ + m@,
            ServerError::Internal(m) => "internal error: "@ + m@,
        }
    }

    /// The error's message text.
    pub fn message(&self) -> (s: String)
        ensures
            s@ == self.spec_message(),
    {
        let (prefix, m) = match self {
            ServerError::BadRequest(m) => ("bad request: ", m),
            ServerError::NotFound(m) => ("not found: ", m),
            ServerError::Internal(m) => ("internal error: ", m),
        };
        let mut s = String::from_str(prefix);
        s.append(m.as_str());
        s
    }
}

/// `out` is the HTTP error for `err`: unknown instances are 404, an empty
/// submission is 400, everything else is 500 with the coordinator's message.
pub open spec fn is_server_error_for(err: CoordinatorError, out: ServerError) -> bool {
    match err {
        CoordinatorError::InstanceNotFound(id) => out matches ServerError::NotFound(m) && m@
            == "XT not found: "@ + id@,
        CoordinatorError::NoTransactions => out matches ServerError::BadRequest(m) && m@
            == "no transactions provided"@,
        CoordinatorError::PublisherNotConnected => out matches ServerError::Internal(m) && m@
            == "publisher not connected"@,
        other => out matches ServerError::Internal(m) && m@ == other.spec_message(),
    }
}

impl ServerError {
    /// Maps a coordinator error to its HTTP error.
    pub fn from(err: CoordinatorError) -> (out: ServerError)
        ensures
            is_server_error_for(err, out),
    {
        match err {
            CoordinatorError::InstanceNotFound(id) => {
                let mut m = String::from_str("XT not found: ");
                m.append(id.as_str());
                ServerError::NotFound(m)
            },
            CoordinatorError::NoTransactions => ServerError::BadRequest(
                String::from_str("no transactions provided"),
            ),
            CoordinatorError::PublisherNotConnected => ServerError::Internal(
                String::from_str("publisher not connected"),
            ),
            other => ServerError::Internal(other.message()),
        }
    }
}

/// Body of `POST /ethera/confirm`.
#[derive(Debug)]
pub struct ConfirmIncludedRequest {
    pub instance_ids: Vec<String>,
}

/// Body of `POST /permissions/check-tx`.
#[derive(Debug)]
pub struct CheckTxRequest {
    /// Recovered transaction signer.
    pub from: String,
    /// Whether the transaction creates a contract (`to == null`).
    pub is_create: bool,
    /// Whether the transaction carries native value (`value > 0`).
    pub has_value: bool,
}

/// Answer of `POST /permissions/check-tx`.
#[derive(Debug)]
pub struct CheckTxResponse {
    pub allowed: bool,
    pub reason: Option<String>,
    pub config_version: Option<u64>,
}

/// Body of `POST /xt`: per chain id, hex-encoded RLP transactions.
#[derive(Debug)]
pub struct XtSubmitRequest {
    pub transactions: Vec<(u64, Vec<String>)>,
}

/// Answer of `POST /xt`.
#[derive(Debug)]
pub struct XtSubmitResponse {
    pub instance_id: String,
    pub status: String,
}

/// The bytes of each text, with leading `0x` removed, as hex.
pub open spec fn decoded_texts(texts: Seq<String>) -> Seq<Seq<u8>> {
    texts.map_values(|t: String| hex_bytes(strip_0x(t@)))
}

/// The error text for the first text of `texts` that is not valid hex.
pub open spec fn first_hex_error(texts: Seq<String>) -> Option<Seq<char>>
    decreases texts.len(),
{
    if texts.len() == 0 {
        None
    } else {
        match first_hex_error(texts.drop_last()) {
            Some(e) => Some(e),
            None => if hex_decodes(strip_0x(texts.last()@)) {
                None
            } else {
                Some(spec_hex_error_text(strip_0x(texts.last()@)))
            },
        }
    }
}

/// The error text for the first invalid text of the first chain that has one.
pub open spec fn first_submit_error(entries: Seq<(u64, Vec<String>)>) -> Option<Seq<char>>
    decreases entries.len(),
{
    if entries.len() == 0 {
        None
    } else {
        match first_submit_error(entries.drop_last()) {
            Some(e) => Some(e),
            None => first_hex_error(entries.last().1@),
        }
    }
}

/// The decoded chains, in request order, without those that carry no text.
pub open spec fn decoded_submit(entries: Seq<(u64, Vec<String>)>) -> Seq<(ChainId, Seq<Seq<u8>>)>
    decreases entries.len(),
{
    if entries.len() == 0 {
        Seq::empty()
    } else {
        let rest = decoded_submit(entries.drop_last());
        if entries.last().1@.len() == 0 {
            rest
        } else {
            rest.push((ChainId(entries.last().0), decoded_texts(entries.last().1@)))
        }
    }
}

/// A chain table viewed by contents.
pub open spec fn chain_table_view(t: Seq<ChainTxs>) -> Seq<(ChainId, Seq<Seq<u8>>)> {
    t.map_values(|c: ChainTxs| (c.chain_id, bytes_view(c.txs@)))
}

/// Decodes the hex texts of one chain; the first invalid one fails with its
/// error text.
fn decode_texts(texts: &Vec<String>) -> (r: Result<Vec<Vec<u8>>, String>)
    ensures
        first_hex_error(texts@) is None ==> (r matches Ok(v) && bytes_view(v@) == decoded_texts(
            texts@,
        )),
        first_hex_error(texts@) matches Some(e) ==> (r matches Err(m) && m@ == e),
{
    let mut out: Vec<Vec<u8>> = Vec::new();
    let mut i: usize = 0;
    while i < texts.len()
        invariant
            0 <= i <= texts@.len(),
            first_hex_error(texts@.take(i as int)) is None,
            bytes_view(out@) == decoded_texts(texts@.take(i as int)),
        decreases texts@.len() - i,
    {
        proof {
            assert(texts@.take(i + 1).drop_last() =~= texts@.take(i as int));
        }
        let text = trim_0x(texts[i].as_str());
        match hex_decode(text) {
            Ok(b) => {
                let ghost prev = out@;
                let ghost bv = b@;
                assert(bv == hex_bytes(strip_0x(texts@[i as int]@)));
                out.push(b);
                proof {
                    let want = decoded_texts(texts@.take(i + 1));
                    assert(want.len() == i + 1);
                    assert(bytes_view(prev).len() == prev.len());
                    assert(decoded_texts(texts@.take(i as int)).len() == i);
                    assert(out@.len() == i + 1);
                    assert forall|j: int| 0 <= j < i + 1 implies bytes_view(out@)[j] == want[j] by {
                        assert(texts@.take(i + 1)[j] == texts@[j]);
                        assert(bytes_view(out@)[j] == out@[j]@);
                        if j == i {
                            assert(out@[j]@ == bv);
                        }
                        if j < i {
                            assert(texts@.take(i as int)[j] == texts@[j]);
                            assert(bytes_view(prev)[j] == decoded_texts(texts@.take(i as int))[j]);
                        }
                    }
                    assert(bytes_view(out@) =~= want);
                }
            },
            Err(e) => {
                proof {
                    lemma_first_error_prefix(texts@, i as int + 1);
                }
                return Err(e);
            },
        }
        i = i + 1;
    }
    proof {
        assert(texts@.take(texts@.len() as int) =~= texts@);
    }
    Ok(out)
}

/// An error found in a prefix is the error of the whole sequence.
proof fn lemma_first_error_prefix(texts: Seq<String>, k: int)
    requires
        0 <= k <= texts.len(),
        first_hex_error(texts.take(k)) is Some,
    ensures
        first_hex_error(texts) == first_hex_error(texts.take(k)),
    decreases texts.len() - k,
{
    if k < texts.len() {
        assert(texts.take(k + 1).drop_last() =~= texts.take(k));
        lemma_first_error_prefix(texts, k + 1);
    } else {
        assert(texts.take(k) =~= texts);
    }
}

/// An error found in a prefix is the error of the whole request.
proof fn lemma_submit_error_prefix(entries: Seq<(u64, Vec<String>)>, k: int)
    requires
        0 <= k <= entries.len(),
        first_submit_error(entries.take(k)) is Some,
    ensures
        first_submit_error(entries) == first_submit_error(entries.take(k)),
    decreases entries.len() - k,
{
    if k < entries.len() {
        assert(entries.take(k + 1).drop_last() =~= entries.take(k));
        lemma_submit_error_prefix(entries, k + 1);
    } else {
        assert(entries.take(k) =~= entries);
    }
}

/// Decodes a submission: in each chain's texts every leading `0x` is removed
/// and the rest hex-decoded; chains with no text are left out. The first
/// invalid text fails with 400 `invalid hex: <error>`; a request with no
/// transaction left fails with 400 `no transactions`.
pub fn decode_submit_transactions(req: &XtSubmitRequest) -> (r: Result<Vec<ChainTxs>, ServerError>)
    ensures
        first_submit_error(req.transactions@) matches Some(e) ==> (r matches Err(
            ServerError::BadRequest(m),
        ) && m@ == "invalid hex: "@ + e),
        first_submit_error(req.transactions@) is None && decoded_submit(req.transactions@).len()
            == 0 ==> (r matches Err(ServerError::BadRequest(m)) && m@ == "no transactions"@),
        first_submit_error(req.transactions@) is None && decoded_submit(req.transactions@).len()
            > 0 ==> (r matches Ok(t) && chain_table_view(t@) == decoded_submit(
            req.transactions@,
        )),
{
    let entries = &req.transactions;
    let mut out: Vec<ChainTxs> = Vec::new();
    let mut k: usize = 0;
    while k < entries.len()
        invariant
            entries@ == req.transactions@,
            0 <= k <= entries@.len(),
            first_submit_error(entries@.take(k as int)) is None,
            chain_table_view(out@) == decoded_submit(entries@.take(k as int)),
        decreases entries@.len() - k,
    {
        proof {
            assert(entries@.take(k + 1).drop_last() =~= entries@.take(k as int));
        }
        let chain = entries[k].0;
        match decode_texts(&entries[k].1) {
            Ok(txs) => {
                if txs.len() > 0 {
                    let ghost prev = out@;
                    let ghost tv = bytes_view(txs@);
                    assert(tv.len() == txs@.len());
                    assert(decoded_texts(entries@[k as int].1@).len() == entries@[k as int].1@.len());
                    out.push(ChainTxs { chain_id: ChainId(chain), txs });
                    proof {
                        let want = decoded_submit(entries@.take(k + 1));
                        assert(entries@.take(k + 1).last() == entries@[k as int]);
                        assert(entries@[k as int].1@.len() > 0);
                        assert(want == decoded_submit(entries@.take(k as int)).push(
                            (ChainId(chain), decoded_texts(entries@[k as int].1@)),
                        ));
                        assert forall|j: int| 0 <= j < out@.len() implies chain_table_view(out@)[j]
                            == want[j] by {
                            if j < prev.len() {
                                assert(chain_table_view(prev)[j] == decoded_submit(
                                    entries@.take(k as int),
                                )[j]);
                            }
                        }
                        assert(chain_table_view(out@) =~= want);
                    }
                } else {
                    proof {
                        assert(bytes_view(txs@).len() == txs@.len());
                        assert(decoded_texts(entries@[k as int].1@).len()
                            == entries@[k as int].1@.len());
                        assert(entries@.take(k + 1).last() == entries@[k as int]);
                        assert(chain_table_view(out@) =~= decoded_submit(entries@.take(k + 1)));
                    }
                }
            },
            Err(e) => {
                proof {
                    assert(entries@.take(k + 1).last() == entries@[k as int]);
                    assert(first_hex_error(entries@[k as int].1@) is Some);
                    assert(first_submit_error(entries@.take(k + 1)) == first_hex_error(
                        entries@[k as int].1@,
                    ));
                    lemma_submit_error_prefix(entries@, k as int + 1);
                }
                let mut m = String::from_str("invalid hex: ");
                m.append(e.as_str());
                return Err(ServerError::BadRequest(m));
            },
        }
        k = k + 1;
    }
    proof {
        assert(entries@.take(entries@.len() as int) =~= entries@);
    }
    if out.len() == 0 {
        return Err(ServerError::BadRequest(String::from_str("no transactions")));
    }
    Ok(out)
}

} // verus!
