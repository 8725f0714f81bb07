//! Sidecar configuration values and the `CHAIN_ID=URL` peer syntax.
//!
//! Command-line and environment parsing live with the binary; this module
//! holds the parsed values and the rules applied to them.

use vstd::prelude::*;
use vstd::string::StrSliceExecFns;

use crate::types::ChainId;

verus! {

broadcast use vstd::seq::group_seq_axioms;

/// HTTP server settings.
#[derive(Debug, Clone)]
pub struct ServerArgs {
    /// HTTP listen address.
    pub listen_addr: String,
    /// HTTP read timeout in seconds.
    pub read_timeout_secs: u64,
    /// HTTP write timeout in seconds.
    pub write_timeout_secs: u64,
}

/// Publisher (SP) connection settings.
#[derive(Debug, Clone)]
pub struct PublisherArgs {
    /// Enable publisher connection.
    pub enabled: bool,
    /// Publisher QUIC address.
    pub addr: String,
    /// Reconnect delay in seconds.
    pub reconnect_delay_secs: u64,
    /// Maximum reconnection attempts.
    pub max_retries: u32,
}

/// Single-chain configuration (one chain per sidecar container).
#[derive(Debug, Clone)]
pub struct ChainArgs {
    /// Chain ID this sidecar manages.
    pub id: u64,
    /// Chain name.
    pub name: String,
    /// Chain RPC endpoint.
    pub rpc: String,
    /// Builder RPC endpoint used for XT lifecycle control; falls back to `rpc`
    /// when empty.
    pub builder_rpc: String,
    /// Mailbox contract address.
    pub mailbox_address: String,
    /// Private key for signing local `putInbox` transactions.
    pub coordinator_key: String,
}

/// The builder endpoint: `builder_rpc`, or `rpc` when `builder_rpc` is empty.
pub open spec fn spec_builder_rpc_url(builder_rpc: Seq<char>, rpc: Seq<char>) -> Seq<char> {
    if builder_rpc.len() == 0 {
        rpc
    } else {
        builder_rpc
    }
}

impl ChainArgs {
    /// The chain ID as a [`ChainId`].
    pub fn chain_id(&self) -> (c: ChainId)
        ensures
            c == ChainId(self.id),
    {
        ChainId(self.id)
    }

    /// The builder RPC endpoint, falling back to the chain RPC when unset.
    pub fn builder_rpc_url(&self) -> (url: &str)
        ensures
            url@ == spec_builder_rpc_url(self.builder_rpc@, self.rpc@),
    {
        if self.builder_rpc.as_str().unicode_len() == 0 {
            self.rpc.as_str()
        } else {
            self.builder_rpc.as_str()
        }
    }
}

/// A configured peer sidecar.
#[derive(Debug, Clone, PartialEq, Eq)]
pub struct PeerEntry {
    pub chain_id: ChainId,
    pub addr: String,
}

/// Invalid peer configuration.
#[derive(Debug, Clone, PartialEq, Eq)]
pub enum PeerConfigError {
    /// The entry has no `=` between chain id and URL.
    MissingSeparator,
    /// The chain id part is empty.
    EmptyChainId,
    /// The chain id part is not a `u64`; carries the trimmed text.
    InvalidChainId(String),
    /// The URL part is empty.
    EmptyAddress,
    /// Two peers name the same chain id.
    DuplicateChainId(ChainId),
}

impl PeerConfigError {
    /// The error's message text.
    pub fn message(&self) -> (s: String)
        ensures
            s@ == self.spec_message(),
    {
        match self {
            PeerConfigError::MissingSeparator => String::from_str("peer must use CHAIN_ID=URL"),
            PeerConfigError::EmptyChainId => String::from_str("peer chain id is empty"),
            PeerConfigError::InvalidChainId(text) => {
                let mut s = String::from_str("invalid peer chain id: ");
                s.append(text.as_str());
                s
            },
            PeerConfigError::EmptyAddress => String::from_str("peer address is empty"),
            PeerConfigError::DuplicateChainId(c) => {
                let mut s = String::from_str("duplicate peer chain id: ");
                let n = crate::codec::decimal(c.0);
                s.append(n.as_str());
                s
            },
        }
    }

    /// The message text of each error.
    pub open spec fn spec_message(&self) -> Seq<char> {
        match self {
            PeerConfigError::MissingSeparator => "peer must use CHAIN_ID=URL"@,
            PeerConfigError::EmptyChainId => "peer chain id is empty"@,
            PeerConfigError::InvalidChainId(text) => "invalid peer chain id: "@ + text@,
            PeerConfigError::EmptyAddress => "peer address is empty"@,
            PeerConfigError::DuplicateChainId(c) => "duplicate peer chain id: "@
                + crate::codec::spec_decimal(c.0),
        }
    }
}

// ---------------------------------------------------------------------------
// `CHAIN_ID=URL` parsing.
// ---------------------------------------------------------------------------

/// Whether `c` has the Unicode `White_Space` property.
pub open spec fn spec_is_whitespace(c: char) -> bool {
    let u = c as u32;
    ||| 0x09 <= u <= 0x0d
    ||| u == 0x20
    ||| u == 0x85
    ||| u == 0xa0
    ||| u == 0x1680
    ||| 0x2000 <= u <= 0x200a
    ||| u == 0x2028
    ||| u == 0x2029
    ||| u == 0x202f
    ||| u == 0x205f
    ||| u == 0x3000
}

/// Whether `c` has the Unicode `White_Space` property (what
/// `char::is_whitespace` answers), by its code point.
fn is_whitespace(c: char) -> (b: bool)
    ensures
        b == spec_is_whitespace(c),
{
    let u = c as u32;
    (0x09 <= u && u <= 0x0d) || u == 0x20 || u == 0x85 || u == 0xa0 || u == 0x1680 || (0x2000 <= u
        && u <= 0x200a) || u == 0x2028 || u == 0x2029 || u == 0x202f || u == 0x205f || u == 0x3000
}

/// `s` without leading whitespace.
pub open spec fn trim_start(s: Seq<char>) -> Seq<char>
    decreases s.len(),
{
    if s.len() > 0 && spec_is_whitespace(s[0]) {
        trim_start(s.drop_first())
    } else {
        s
    }
}

/// `s` without trailing whitespace.
pub open spec fn trim_end(s: Seq<char>) -> Seq<char>
    decreases s.len(),
{
    if s.len() > 0 && spec_is_whitespace(s.last()) {
        trim_end(s.drop_last())
    } else {
        s
    }
}

/// `s` without leading and trailing whitespace (the `str::trim` rule).
pub open spec fn spec_trim(s: Seq<char>) -> Seq<char> {
    trim_end(trim_start(s))
}

proof fn lemma_trim_start(s: Seq<char>, i: int)
    requires
        0 <= i <= s.len(),
        forall|k: int| 0 <= k < i ==> spec_is_whitespace(#[trigger] s[k]),
        i == s.len() || !spec_is_whitespace(s[i]),
    ensures
        trim_start(s) == s.skip(i),
    decreases i,
{
    if i == 0 {
        assert(s.skip(0) =~= s);
    } else {
        assert(spec_is_whitespace(s[0]));
        lemma_trim_start(s.drop_first(), i - 1);
        assert(s.drop_first().skip(i - 1) =~= s.skip(i));
    }
}

proof fn lemma_trim_end(s: Seq<char>, j: int)
    requires
        0 <= j <= s.len(),
        forall|k: int| j <= k < s.len() ==> spec_is_whitespace(#[trigger] s[k]),
        j == 0 || !spec_is_whitespace(s[j - 1]),
    ensures
        trim_end(s) == s.take(j),
    decreases s.len() - j,
{
    if j == s.len() {
        assert(s.take(j) =~= s);
    } else {
        assert(spec_is_whitespace(s.last()));
        lemma_trim_end(s.drop_last(), j);
        assert(s.drop_last().take(j) =~= s.take(j));
    }
}

/// `str::trim`, computed on characters.
fn trim(s: &str) -> (t: &str)
    ensures
        t@ == spec_trim(s@),
{
    let n = s.unicode_len();
    let mut i: usize = 0;
    while i < n && is_whitespace(s.get_char(i))
        invariant
            n == s@.len(),
            0 <= i <= n,
            forall|k: int| 0 <= k < i ==> spec_is_whitespace(#[trigger] s@[k]),
        decreases n - i,
    {
        i = i + 1;
    }
    let mut j: usize = n;
    while j > i && is_whitespace(s.get_char(j - 1))
        invariant
            n == s@.len(),
            0 <= i <= j <= n,
            forall|k: int| j <= k < n ==> spec_is_whitespace(#[trigger] s@[k]),
        decreases j - i,
    {
        j = j - 1;
    }
    proof {
        lemma_trim_start(s@, i as int);
        let rest = s@.skip(i as int);
        assert forall|k: int| j - i <= k < rest.len() implies spec_is_whitespace(
            #[trigger] rest[k],
        ) by {
            assert(rest[k] == s@[k + i]);
        }
        if j > i {
            assert(rest[j - i - 1] == s@[j - 1]);
        }
        lemma_trim_end(rest, j - i);
        assert(rest.take(j - i) =~= s@.subrange(i as int, j as int));
    }
    s.substring_char(i, j)
}

/// The index of the first `=` in `s`, if any.
pub open spec fn first_eq(s: Seq<char>) -> Option<int> {
    if exists|i: int| 0 <= i < s.len() && s[i] == '=' {
        Some(
            choose|i: int|
                0 <= i < s.len() && s[i] == '=' && forall|j: int| 0 <= j < i ==> s[j] != '=',
        )
    } else {
        None
    }
}

/// The value of a run of ASCII decimal digits.
pub open spec fn digits_value(d: Seq<char>) -> nat
    decreases d.len(),
{
    if d.len() == 0 {
        0
    } else {
        digits_value(d.drop_last()) * 10 + ((d.last() as nat) - ('0' as nat)) as nat
    }
}

/// Every character of `d` is an ASCII decimal digit.
pub open spec fn all_digits(d: Seq<char>) -> bool {
    forall|i: int| 0 <= i < d.len() ==> '0' <= #[trigger] d[i] <= '9'
}

/// `u64::from_str`: an optional `+`, then one or more ASCII digits whose value
/// fits in a `u64`.
pub open spec fn spec_parse_u64(s: Seq<char>) -> Option<u64> {
    let d = if s.len() > 0 && s[0] == '+' {
        s.drop_first()
    } else {
        s
    };
    if d.len() > 0 && all_digits(d) && digits_value(d) <= u64::MAX {
        Some(digits_value(d) as u64)
    } else {
        None
    }
}

proof fn lemma_digits_grow(d: Seq<char>, i: int, j: int)
    requires
        0 <= i <= j <= d.len(),
        all_digits(d),
    ensures
        digits_value(d.take(i)) <= digits_value(d.take(j)),
    decreases j - i,
{
    if i < j {
        lemma_digits_grow(d, i, j - 1);
        assert(d.take(j).drop_last() =~= d.take(j - 1));
        assert('0' <= d[j - 1] <= '9');
    }
}

/// Parses a `u64` the way `u64::from_str` does.
pub fn parse_u64(s: &str) -> (r: Option<u64>)
    ensures
        r == spec_parse_u64(s@),
{
    let n = s.unicode_len();
    let mut start: usize = 0;
    if n > 0 && s.get_char(0) == '+' {
        start = 1;
    }
    let ghost d = if s@.len() > 0 && s@[0] == '+' {
        s@.drop_first()
    } else {
        s@
    };
    assert(d =~= s@.skip(start as int));
    if start == n {
        return None;
    }
    let mut value: u64 = 0;
    let mut i: usize = start;
    while i < n
        invariant
            n == s@.len(),
            start < n,
            start <= i <= n,
            d =~= s@.skip(start as int),
            d == (if s@.len() > 0 && s@[0] == '+' {
                s@.drop_first()
            } else {
                s@
            }),
            all_digits(d.take(i - start)),
            value == digits_value(d.take(i - start)),
        decreases n - i,
    {
        let c = s.get_char(i);
        proof {
            assert(d.take(i - start + 1).drop_last() =~= d.take(i - start));
            assert(d[i - start] == c);
        }
        if c < '0' || c > '9' {
            proof {
                assert(!all_digits(d));
            }
            return None;
        }
        let digit = (c as u32 - '0' as u32) as u64;
        let next = match value.checked_mul(10) {
            Some(v) => v.checked_add(digit),
            None => None,
        };
        match next {
            Some(v) => {
                value = v;
            },
            None => {
                proof {
                    assert(all_digits(d.take(i - start + 1)));
                    if all_digits(d) {
                        lemma_digits_grow(d, i - start + 1, d.len() as int);
                        assert(d.take(d.len() as int) =~= d);
                    }
                }
                return None;
            },
        }
        i = i + 1;
    }
    proof {
        assert(d.take(d.len() as int) =~= d);
    }
    Some(value)
}

/// What parsing `CHAIN_ID=URL` from `value` gives: `MissingSeparator`
/// without `=`; else, with the text around the first `=` trimmed,
/// `EmptyChainId`, `InvalidChainId`, `EmptyAddress`, or the entry.
pub open spec fn peer_entry_parsed(value: Seq<char>, r: Result<PeerEntry, PeerConfigError>) -> bool {
    match first_eq(value) {
        None => r == Err::<PeerEntry, PeerConfigError>(PeerConfigError::MissingSeparator),
        Some(p) => {
            let id_text = spec_trim(value.take(p));
            let addr = spec_trim(value.skip(p + 1));
            if id_text.len() == 0 {
                r == Err::<PeerEntry, PeerConfigError>(PeerConfigError::EmptyChainId)
            } else if spec_parse_u64(id_text) is None {
                r matches Err(PeerConfigError::InvalidChainId(t)) && t@ == id_text
            } else if addr.len() == 0 {
                r == Err::<PeerEntry, PeerConfigError>(PeerConfigError::EmptyAddress)
            } else {
                r matches Ok(e) && e.chain_id == ChainId(spec_parse_u64(id_text).unwrap())
                    && e.addr@ == addr
            }
        },
    }
}

impl PeerEntry {
    /// Parses `CHAIN_ID=URL`.
    pub fn parse(value: &str) -> (r: Result<PeerEntry, PeerConfigError>)
        ensures
            peer_entry_parsed(value@, r),
    {
        let n = value.unicode_len();
        let mut p: usize = 0;
        while p < n && value.get_char(p) != '='
            invariant
                n == value@.len(),
                0 <= p <= n,
                forall|j: int| 0 <= j < p ==> value@[j] != '=',
            decreases n - p,
        {
            p = p + 1;
        }
        if p == n {
            return Err(PeerConfigError::MissingSeparator);
        }
        proof {
            let q = choose|i: int|
                0 <= i < value@.len() && value@[i] == '=' && forall|j: int|
                    0 <= j < i ==> value@[j] != '=';
            assert(value@[p as int] == '=');
            assert(first_eq(value@) is Some);
            if q < p {
                assert(value@[q] != '=');
            }
            if p < q {
                assert(value@[p as int] != '=');
            }
            assert(first_eq(value@) == Some(p as int));
        }
        let left = value.substring_char(0, p);
        let right = value.substring_char(p + 1, n);
        proof {
            assert(left@ =~= value@.take(p as int));
            assert(right@ =~= value@.skip(p + 1));
        }
        let id_text = trim(left);
        if id_text.unicode_len() == 0 {
            return Err(PeerConfigError::EmptyChainId);
        }
        let chain_id = match parse_u64(id_text) {
            Some(c) => c,
            None => {
                return Err(PeerConfigError::InvalidChainId(id_text.to_owned()));
            },
        };
        let addr = trim(right);
        if addr.unicode_len() == 0 {
            return Err(PeerConfigError::EmptyAddress);
        }
        Ok(PeerEntry { chain_id: ChainId(chain_id), addr: addr.to_owned() })
    }
}

impl std::str::FromStr for PeerEntry {
    type Err = PeerConfigError;

    fn from_str(value: &str) -> (r: Result<PeerEntry, PeerConfigError>)
        ensures
            peer_entry_parsed(value@, r),
    {
        PeerEntry::parse(value)
    }
}

/// Peer sidecar addresses for CIRC message delivery, keyed by destination chain.
#[derive(Debug, Clone)]
pub struct PeerArgs {
    peers: Vec<PeerEntry>,
}

/// Peer `j` repeats an earlier chain id, and no earlier peer does.
pub open spec fn first_repeat_at(peers: Seq<PeerEntry>, j: int) -> bool {
    &&& 0 <= j < peers.len()
    &&& exists|i: int| 0 <= i < j && #[trigger] peers[i].chain_id == peers[j].chain_id
    &&& forall|k: int, i: int|
        0 <= i < k < j ==> #[trigger] peers[i].chain_id != #[trigger] peers[k].chain_id
}

/// The index of the first peer whose chain id already appeared earlier.
pub open spec fn first_duplicate(peers: Seq<PeerEntry>) -> Option<int> {
    if exists|j: int| first_repeat_at(peers, j) {
        Some(choose|j: int| first_repeat_at(peers, j))
    } else {
        None
    }
}

impl PeerArgs {
    /// Peers in the order they were configured.
    pub fn new(peers: Vec<PeerEntry>) -> (a: PeerArgs)
        ensures
            a.spec_peers() == peers@,
    {
        PeerArgs { peers }
    }

    /// The configured peers.
    pub closed spec fn spec_peers(&self) -> Seq<PeerEntry> {
        self.peers@
    }

    /// The configured peers, unchecked.
    pub fn configured(&self) -> (s: &[PeerEntry])
        ensures
            s@ == self.spec_peers(),
    {
        self.peers.as_slice()
    }

    /// Configured peers after checking that chain ids are unique; the error
    /// names the first chain id seen twice.
    pub fn entries(&self) -> (r: Result<&[PeerEntry], PeerConfigError>)
        ensures
            first_duplicate(self.spec_peers()) is None ==> (r matches Ok(s) && s@
                == self.spec_peers()),
            first_duplicate(self.spec_peers()) matches Some(j) ==> r == Err::<
                &[PeerEntry],
                PeerConfigError,
            >(PeerConfigError::DuplicateChainId(self.spec_peers()[j].chain_id)),
    {
        let ghost p = self.peers@;
        let mut j: usize = 0;
        while j < self.peers.len()
            invariant
                p == self.peers@,
                0 <= j <= p.len(),
                forall|k: int, i: int| 0 <= i < k < j ==> p[i].chain_id != p[k].chain_id,
            decreases p.len() - j,
        {
            let mut i: usize = 0;
            while i < j
                invariant
                    p == self.peers@,
                    0 <= i <= j < p.len(),
                    forall|k: int| 0 <= k < i ==> p[k].chain_id != p[j as int].chain_id,
                    forall|k: int, i: int| 0 <= i < k < j ==> p[i].chain_id != p[k].chain_id,
                decreases j - i,
            {
                if self.peers[i].chain_id.0 == self.peers[j].chain_id.0 {
                    proof {
                        assert(p[i as int].chain_id == p[j as int].chain_id);
                        assert(first_repeat_at(p, j as int));
                        let q = choose|q: int| first_repeat_at(p, q);
                        if q < j {
                            let i2 = choose|i2: int| 0 <= i2 < q && p[i2].chain_id == p[q].chain_id;
                            assert(p[i2].chain_id != p[q].chain_id);
                        }
                        if j < q {
                            assert(p[i as int].chain_id != p[j as int].chain_id);
                        }
                    }
                    return Err(PeerConfigError::DuplicateChainId(self.peers[j].chain_id));
                }
                i = i + 1;
            }
            j = j + 1;
        }
        Ok(self.peers.as_slice())
    }
}

/// Logging settings.
#[derive(Debug, Clone)]
pub struct LogArgs {
    /// Log level: debug, info, warn, error.
    pub level: String,
    /// Log format: json or pretty.
    pub format: String,
}

/// Inbound verification hook (per-destination rollup).
#[derive(Debug, Clone)]
pub struct VerificationArgs {
    /// Enable the external verification hook before voting commit.
    pub enabled: bool,
    /// Verification HTTP endpoint to call on inbound XTs.
    pub url: String,
    /// Request timeout in milliseconds.
    pub timeout_ms: u64,
}

/// All sidecar settings.
#[derive(Debug, Clone)]
pub struct SidecarArgs {
    pub server: ServerArgs,
    pub publisher: PublisherArgs,
    pub chain: ChainArgs,
    pub peers: PeerArgs,
    pub log: LogArgs,
    pub verification: VerificationArgs,
}

} // verus!
