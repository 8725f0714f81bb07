//! Mailbox calls found in a call trace.
//!
//! The trace is a tree of calls (caller, callee, input). Calls to the mailbox
//! contract whose input starts with one of four selectors are decoded as
//! mailbox reads or writes, in pre-order.

use vstd::prelude::*;
use vstd::string::StringSliceAdditionalSpecFns;

use crate::codec::{all_hex, hex_bytes, hex_decode, hex_decodes};
use crate::mailbox::{be_value, MailboxCall, MailboxCallType, SimulationState};
use crate::codec::{strip_0x, trim_0x};
use crate::types::{Address, ChainId, U256};

verus! {

broadcast use vstd::seq::group_seq_axioms;

/// One call of a call trace.
#[derive(Debug)]
pub struct TraceNode {
    pub from: String,
    pub to: String,
    pub input: String,
    pub calls: Vec<TraceNode>,
}

/// Selector of legacy `write(uint256,address,uint256,bytes,bytes)`.
pub open spec fn legacy_write_selector() -> Seq<u8> {
    seq![0x30u8, 0x78, 0x63, 0x66, 0x38, 0x30, 0x63, 0x61, 0x39, 0x61]
}

/// Selector of legacy `read(uint256,address,uint256,bytes)`.
pub open spec fn legacy_read_selector() -> Seq<u8> {
    seq![0x30u8, 0x78, 0x65, 0x38, 0x63, 0x37, 0x65, 0x31, 0x35, 0x66]
}

/// Selector of `writeMessage(((uint256,uint256,address,address,uint256,string),bytes))`.
pub open spec fn write_message_selector() -> Seq<u8> {
    seq![0x30u8, 0x78, 0x38, 0x35, 0x66, 0x31, 0x37, 0x38, 0x64, 0x30]
}

/// Selector of `readMessage((uint256,uint256,address,address,uint256,string))`.
pub open spec fn read_message_selector() -> Seq<u8> {
    seq![0x30u8, 0x78, 0x33, 0x62, 0x36, 0x62, 0x31, 0x61, 0x35, 0x36]
}

// ---------------------------------------------------------------------------
// Outside conversions.
// ---------------------------------------------------------------------------

/// `Address::from_str`: an optional `0x` or `0X` prefix, then exactly 40 hex
/// digits (either case); the address is their bytes.
pub open spec fn spec_parse_address(s: Seq<char>) -> Option<Seq<u8>> {
    let t = if s.len() >= 2 && s[0] == '0' && (s[1] == 'x' || s[1] == 'X') {
        s.skip(2)
    } else {
        s
    };
    if t.len() == 40 && crate::codec::all_hex(t) {
        Some(hex_bytes(t))
    } else {
        None
    }
}

/// The name for the message text of the error `Address::from_str` reports on `s`.
pub uninterp spec fn spec_address_error(s: Seq<char>) -> Seq<char>;

/// `alloy::primitives::Address::from_str`: the address spelled by `s` (see
/// [`spec_parse_address`]), or the text of the error it reports.
#[verifier::external_body]
pub(crate) fn parse_address(s: &str) -> (r: Result<Address, String>)
    ensures
        r is Ok <==> spec_parse_address(s@) is Some,
        r matches Ok(a) ==> a@ == spec_parse_address(s@).unwrap(),
        r matches Err(e) ==> e@ == spec_address_error(s@),
{
    match s.parse::<alloy::primitives::Address>() {
        Ok(a) => Ok(a.into_array()),
        Err(e) => Err(e.to_string()),
    }
}

/// The name for what `String::from_utf8_lossy` makes of bytes.
pub uninterp spec fn spec_utf8_lossy(b: Seq<u8>) -> Seq<char>;

/// `String::from_utf8_lossy`: the text of the bytes, invalid sequences
/// replaced; valid UTF-8 is decoded unchanged.
#[verifier::external_body]
pub(crate) fn utf8_lossy(b: &[u8]) -> (s: String)
    ensures
        s@ == spec_utf8_lossy(b@),
        vstd::utf8::valid_utf8(b@) ==> s@ == vstd::utf8::decode_utf8(b@),
{
    String::from_utf8_lossy(b).to_string()
}

/// The 4-byte selector at the start of hex calldata: after an optional `0x`,
/// the first eight characters must be hex digits.
pub open spec fn spec_calldata_selector(input: Seq<char>) -> Option<Seq<u8>> {
    let t = if input.len() >= 2 && input[0] == '0' && input[1] == 'x' {
        input.skip(2)
    } else {
        input
    };
    if t.len() >= 8 && all_hex(t.take(8)) {
        Some(hex_bytes(t.take(8)))
    } else {
        None
    }
}

/// The 4-byte selector at the start of hex calldata.
pub fn calldata_selector(input: &str) -> (r: Option<[u8; 4]>)
    ensures
        match r {
            Some(sel) => spec_calldata_selector(input@) == Some(sel@),
            None => spec_calldata_selector(input@) is None,
        },
{
    let n = input.unicode_len();
    let body = if n >= 2 && input.get_char(0) == '0' && input.get_char(1) == 'x' {
        input.substring_char(2, n)
    } else {
        input
    };
    proof {
        if n >= 2 && input@[0] == '0' && input@[1] == 'x' {
            assert(body@ =~= input@.skip(2));
        }
    }
    if body.unicode_len() < 8 {
        return None;
    }
    let head = body.substring_char(0, 8);
    proof {
        assert(head@ =~= body@.take(8));
    }
    match hex_decode(head) {
        Ok(b) => {
            proof {
                lemma_hex_bytes_len(head@);
            }
            let sel: [u8; 4] = [b[0], b[1], b[2], b[3]];
            proof {
                assert(sel@ =~= b@);
            }
            Some(sel)
        },
        Err(_) => None,
    }
}

proof fn lemma_hex_bytes_len(t: Seq<char>)
    ensures
        hex_bytes(t).len() == t.len() / 2,
    decreases t.len(),
{
    if t.len() >= 2 {
        lemma_hex_bytes_len(t.take(t.len() - 2));
    }
}

// ---------------------------------------------------------------------------
// ABI words.
// ---------------------------------------------------------------------------

/// The 32-byte word at `offset`, if the data holds one.
pub open spec fn word_at(params: Seq<u8>, offset: int) -> Option<Seq<u8>> {
    if offset + 32 > params.len() {
        None
    } else {
        Some(params.subrange(offset, offset + 32))
    }
}

/// A word as `usize`, when its value fits.
pub open spec fn word_usize(w: Seq<u8>) -> Option<int> {
    if be_value(w) <= usize::MAX {
        Some(be_value(w) as int)
    } else {
        None
    }
}

/// A word as `u64`, zero when its value does not fit.
pub open spec fn word_u64_or_zero(w: Seq<u8>) -> u64 {
    if be_value(w) <= u64::MAX {
        be_value(w) as u64
    } else {
        0
    }
}

/// `decode_usize_word`: the word at `offset` as `usize`.
pub open spec fn spec_usize_word(params: Seq<u8>, offset: int) -> Option<int> {
    match word_at(params, offset) {
        Some(w) => word_usize(w),
        None => None,
    }
}

/// `decode_bytes_param`: the dynamic `bytes` value whose length word is at
/// `offset`.
pub open spec fn spec_bytes_param(params: Seq<u8>, offset: int) -> Option<Seq<u8>> {
    match spec_usize_word(params, offset) {
        None => None,
        Some(len) => if offset + 32 + len > params.len() {
            None
        } else {
            Some(params.subrange(offset + 32, offset + 32 + len))
        },
    }
}

/// The value of the word at `offset`, when it fits in 64 bits.
fn word_value_fits(params: &[u8], offset: usize) -> (r: Option<u64>)
    requires
        offset + 32 <= params@.len(),
    ensures
        r matches Some(v) ==> v == be_value(params@.subrange(offset as int, offset + 32)),
        r is None ==> be_value(params@.subrange(offset as int, offset + 32)) > u64::MAX,
{
    let n = params.len();
    let mut w: U256 = [0u8; 32];
    let mut i: usize = 0;
    while i < 32
        invariant
            n == params@.len(),
            offset + 32 <= params@.len(),
            0 <= i <= 32,
            forall|j: int| 0 <= j < i ==> w@[j] == params@[offset + j],
        decreases 32 - i,
    {
        w[i] = params[offset + i];
        i = i + 1;
    }
    proof {
        assert(w@ =~= params@.subrange(offset as int, offset + 32));
    }
    crate::mailbox::u256_to_u64(&w)
}

/// The word at `offset` as `usize`.
fn usize_word(params: &[u8], offset: usize) -> (r: Option<usize>)
    ensures
        r matches Some(v) ==> spec_usize_word(params@, offset as int) == Some(v as int),
        r is None ==> spec_usize_word(params@, offset as int) is None,
{
    if offset > params.len() || params.len() - offset < 32 {
        return None;
    }
    match word_value_fits(params, offset) {
        Some(v) => {
            if v as u128 > usize::MAX as u128 {
                None
            } else {
                Some(v as usize)
            }
        },
        None => None,
    }
}

/// The word at `offset` as `u64`, zero when it does not fit.
fn u64_word_or_zero(params: &[u8], offset: usize) -> (r: u64)
    requires
        offset + 32 <= params@.len(),
    ensures
        r == word_u64_or_zero(params@.subrange(offset as int, offset + 32)),
{
    match word_value_fits(params, offset) {
        Some(v) => v,
        None => 0,
    }
}

/// The word at `offset` as `usize`, zero when it does not fit.
fn usize_word_or_zero(params: &[u8], offset: usize) -> (r: usize)
    requires
        offset + 32 <= params@.len(),
    ensures
        r == (match word_usize(params@.subrange(offset as int, offset + 32)) {
            Some(v) => v,
            None => 0,
        }),
{
    match usize_word(params, offset) {
        Some(v) => v,
        None => 0,
    }
}

/// The dynamic `bytes` value whose length word is at `offset`.
fn bytes_param(params: &[u8], offset: usize) -> (r: Option<Vec<u8>>)
    ensures
        r is Some <==> spec_bytes_param(params@, offset as int) is Some,
        r matches Some(v) ==> v@ == spec_bytes_param(params@, offset as int).unwrap(),
{
    let n = params.len();
    let len = match usize_word(params, offset) {
        Some(l) => l,
        None => {
            return None;
        },
    };
    let start = offset + 32;
    if len > params.len() - start {
        return None;
    }
    Some(crate::util::copy_range(params, start, start + len))
}

/// The 32-byte word at `offset` (in bounds).
fn word(params: &[u8], offset: usize) -> (w: U256)
    requires
        offset + 32 <= params@.len(),
    ensures
        w@ == params@.subrange(offset as int, offset + 32),
{
    let n = params.len();
    let mut w: U256 = [0u8; 32];
    let mut i: usize = 0;
    while i < 32
        invariant
            n == params@.len(),
            offset + 32 <= params@.len(),
            0 <= i <= 32,
            forall|j: int| 0 <= j < i ==> w@[j] == params@[offset + j],
        decreases 32 - i,
    {
        w[i] = params[offset + i];
        i = i + 1;
    }
    proof {
        assert(w@ =~= params@.subrange(offset as int, offset + 32));
    }
    w
}

/// The 20-byte address at `offset` (in bounds).
fn address_at(params: &[u8], offset: usize) -> (a: Address)
    requires
        offset + 20 <= params@.len(),
    ensures
        a@ == params@.subrange(offset as int, offset + 20),
{
    let n = params.len();
    let mut a: Address = [0u8; 20];
    let mut i: usize = 0;
    while i < 20
        invariant
            n == params@.len(),
            offset + 20 <= params@.len(),
            0 <= i <= 20,
            forall|j: int| 0 <= j < i ==> a@[j] == params@[offset + j],
        decreases 20 - i,
    {
        a[i] = params[offset + i];
        i = i + 1;
    }
    proof {
        assert(a@ =~= params@.subrange(offset as int, offset + 20));
    }
    a
}

// ---------------------------------------------------------------------------
// Decoding mailbox calls.
// ---------------------------------------------------------------------------

/// A mailbox call viewed by contents: kind, source and destination chains,
/// sender, receiver, label, data, session id.
pub type CallView = (MailboxCallType, ChainId, ChainId, Seq<u8>, Seq<u8>, Seq<char>, Seq<u8>, Option<Seq<u8>>);

/// A mailbox call viewed by contents.
pub open spec fn call_view(c: MailboxCall) -> CallView {
    (
        c.call_type,
        c.source_chain,
        c.dest_chain,
        c.sender@,
        c.receiver@,
        c.label@,
        c.data@,
        match c.session_id {
            Some(s) => Some(s@),
            None => None,
        },
    )
}

/// Mailbox calls viewed by contents.
pub open spec fn calls_view(s: Seq<MailboxCall>) -> Seq<CallView> {
    s.map_values(|c: MailboxCall| call_view(c))
}

/// The call data of a call input: hex text after any leading `0x`.
pub open spec fn input_data(input: Seq<char>) -> Option<Seq<u8>> {
    if hex_decodes(strip_0x(input)) {
        Some(hex_bytes(strip_0x(input)))
    } else {
        None
    }
}

/// A word as `usize`, zero when it does not fit.
pub open spec fn usize_or_zero(w: Seq<u8>) -> int {
    match word_usize(w) {
        Some(v) => v,
        None => 0,
    }
}

/// Legacy `write(uint256 dest, address receiver, uint256 session, bytes label, bytes data)`.
pub open spec fn spec_decode_legacy_write(input: Seq<char>, caller: Seq<u8>, local: ChainId) -> Option<CallView> {
    match input_data(input) {
        None => None,
        Some(data) => if data.len() < 4 + 5 * 32 {
            None
        } else {
            let p = data.skip(4);
            match spec_bytes_param(p, usize_or_zero(p.subrange(96, 128))) {
                None => None,
                Some(label) => match spec_bytes_param(p, usize_or_zero(p.subrange(128, 160))) {
                    None => None,
                    Some(cd) => Some(
                        (
                            MailboxCallType::Write,
                            local,
                            ChainId(word_u64_or_zero(p.subrange(0, 32))),
                            caller,
                            p.subrange(44, 64),
                            spec_utf8_lossy(label),
                            cd,
                            Some(p.subrange(64, 96)),
                        ),
                    ),
                },
            }
        },
    }
}

/// Legacy `read(uint256 source, address sender, uint256 session, bytes label)`.
pub open spec fn spec_decode_legacy_read(input: Seq<char>, caller: Seq<u8>, local: ChainId) -> Option<CallView> {
    match input_data(input) {
        None => None,
        Some(data) => if data.len() < 4 + 4 * 32 {
            None
        } else {
            let p = data.skip(4);
            match spec_bytes_param(p, usize_or_zero(p.subrange(96, 128))) {
                None => None,
                Some(label) => Some(
                    (
                        MailboxCallType::Read,
                        ChainId(word_u64_or_zero(p.subrange(0, 32))),
                        local,
                        p.subrange(44, 64),
                        caller,
                        spec_utf8_lossy(label),
                        Seq::empty(),
                        Some(p.subrange(64, 96)),
                    ),
                ),
            }
        },
    }
}

/// A message header at `base`: source and destination chains, sender,
/// receiver, session id, label.
pub open spec fn spec_decode_header(p: Seq<u8>, base: int) -> Option<(u64, u64, Seq<u8>, Seq<u8>, Seq<u8>, Seq<char>)> {
    if base + 6 * 32 > p.len() {
        None
    } else {
        match spec_usize_word(p, base + 160) {
            None => None,
            Some(lo) => match spec_bytes_param(p, base + lo) {
                None => None,
                Some(label) => Some(
                    (
                        word_u64_or_zero(p.subrange(base, base + 32)),
                        word_u64_or_zero(p.subrange(base + 32, base + 64)),
                        p.subrange(base + 76, base + 96),
                        p.subrange(base + 108, base + 128),
                        p.subrange(base + 128, base + 160),
                        spec_utf8_lossy(label),
                    ),
                ),
            },
        }
    }
}

/// `writeMessage(Message)` with `Message { MessageHeader header; bytes payload }`.
pub open spec fn spec_decode_write_message(input: Seq<char>, caller: Seq<u8>, local: ChainId) -> Option<CallView> {
    match input_data(input) {
        None => None,
        Some(data) => if data.len() < 4 + 32 {
            None
        } else {
            let p = data.skip(4);
            match spec_usize_word(p, 0) {
                None => None,
                Some(mo) => if mo + 64 > p.len() {
                    None
                } else {
                    match (spec_usize_word(p, mo), spec_usize_word(p, mo + 32)) {
                        (Some(ho), Some(po)) => match spec_decode_header(p, mo + ho) {
                            None => None,
                            Some(h) => match spec_bytes_param(p, mo + po) {
                                None => None,
                                Some(cd) => Some(
                                    (MailboxCallType::Write, local, ChainId(h.1), caller, h.3, h.5, cd, Some(h.4)),
                                ),
                            },
                        },
                        _ => None,
                    }
                },
            }
        },
    }
}

/// `readMessage(MessageHeader)`.
pub open spec fn spec_decode_read_message(input: Seq<char>) -> Option<CallView> {
    match input_data(input) {
        None => None,
        Some(data) => if data.len() < 4 + 32 {
            None
        } else {
            let p = data.skip(4);
            match spec_usize_word(p, 0) {
                None => None,
                Some(ho) => match spec_decode_header(p, ho) {
                    None => None,
                    Some(h) => Some(
                        (
                            MailboxCallType::Read,
                            ChainId(h.0),
                            ChainId(h.1),
                            h.2,
                            h.3,
                            h.5,
                            Seq::empty(),
                            Some(h.4),
                        ),
                    ),
                },
            }
        },
    }
}

/// Legacy mailbox calls take the peer's address from their own arguments:
/// the address word after the chain word, bytes 48..68 of the call data
/// (selector included). For `write` that address is the receiver and the
/// caller is the sender; for `read` it is the sender and the caller is the
/// receiver. The session is the next word. Whether a call decodes, and every
/// field but the caller's, is the same whoever the caller is.
pub proof fn lemma_legacy_calls_read_addresses_from_arguments(
    input: Seq<char>,
    caller: Seq<u8>,
    other: Seq<u8>,
    local: ChainId,
)
    ensures
        spec_decode_legacy_write(input, caller, local) is Some
            <==> spec_decode_legacy_write(input, other, local) is Some,
        spec_decode_legacy_write(input, caller, local) matches Some(v) ==> {
            let w = spec_decode_legacy_write(input, other, local).unwrap();
            let data = input_data(input).unwrap();
            &&& v.0 == MailboxCallType::Write
            &&& v.1 == local
            &&& v.3 == caller
            &&& v.4 == data.subrange(48, 68)
            &&& v.7 == Some(data.subrange(68, 100))
            &&& v.2 == w.2 && v.4 == w.4 && v.5 == w.5 && v.6 == w.6 && v.7 == w.7
        },
        spec_decode_legacy_read(input, caller, local) is Some
            <==> spec_decode_legacy_read(input, other, local) is Some,
        spec_decode_legacy_read(input, caller, local) matches Some(v) ==> {
            let w = spec_decode_legacy_read(input, other, local).unwrap();
            let data = input_data(input).unwrap();
            &&& v.0 == MailboxCallType::Read
            &&& v.2 == local
            &&& v.4 == caller
            &&& v.3 == data.subrange(48, 68)
            &&& v.7 == Some(data.subrange(68, 100))
            &&& v.1 == w.1 && v.3 == w.3 && v.5 == w.5 && v.6 == w.6 && v.7 == w.7
        },
{
    if let Some(data) = input_data(input) {
        if data.len() >= 4 + 4 * 32 {
            let p = data.skip(4);
            assert(p.subrange(44, 64) =~= data.subrange(48, 68));
            assert(p.subrange(64, 96) =~= data.subrange(68, 100));
        }
    }
}

/// A `writeMessage` call is sent by its caller from the local chain; every
/// other field comes from the message it carries, so whether it decodes and
/// those fields are the same whoever the caller is. The header's words are,
/// in order, the source chain, the destination chain, the sender, the
/// receiver (addresses in the low 20 bytes of their words) and the session.
pub proof fn lemma_message_calls_read_header(
    input: Seq<char>,
    caller: Seq<u8>,
    other: Seq<u8>,
    local: ChainId,
    p: Seq<u8>,
    base: int,
)
    ensures
        spec_decode_write_message(input, caller, local) is Some
            <==> spec_decode_write_message(input, other, local) is Some,
        spec_decode_write_message(input, caller, local) matches Some(v) ==> {
            let w = spec_decode_write_message(input, other, local).unwrap();
            &&& v.0 == MailboxCallType::Write
            &&& v.1 == local
            &&& v.3 == caller
            &&& v.2 == w.2 && v.4 == w.4 && v.5 == w.5 && v.6 == w.6 && v.7 == w.7
        },
        spec_decode_read_message(input) matches Some(v) ==> v.0 == MailboxCallType::Read,
        spec_decode_header(p, base) matches Some(h) ==> {
            &&& base + 192 <= p.len()
            &&& h.2 == p.subrange(base + 76, base + 96)
            &&& h.3 == p.subrange(base + 108, base + 128)
            &&& h.4 == p.subrange(base + 128, base + 160)
        },
{
}

/// The call data of an input, decoded.
fn decode_input(input: &str) -> (r: Option<Vec<u8>>)
    ensures
        r is Some <==> input_data(input@) is Some,
        r matches Some(d) ==> d@ == input_data(input@).unwrap(),
{
    match hex_decode(trim_0x(input)) {
        Ok(d) => Some(d),
        Err(_) => None,
    }
}

/// The call data after the selector.
fn params_of(data: &Vec<u8>) -> (p: Vec<u8>)
    requires
        data@.len() >= 4,
    ensures
        p@ == data@.skip(4),
{
    let p = crate::util::copy_range(data.as_slice(), 4, data.len());
    proof {
        assert(p@ =~= data@.skip(4));
    }
    p
}

/// Decodes a legacy `write` call.
fn decode_legacy_write(input: &str, caller: Address, local: ChainId) -> (r: Option<MailboxCall>)
    ensures
        r is Some <==> spec_decode_legacy_write(input@, caller@, local) is Some,
        r matches Some(c) ==> call_view(c) == spec_decode_legacy_write(input@, caller@, local).unwrap(),
{
    let data = decode_input(input)?;
    if data.len() < 4 + 5 * 32 {
        return None;
    }
    let p = params_of(&data);
    let ps = p.as_slice();
    let label = bytes_param(ps, usize_word_or_zero(ps, 96))?;
    let call_data = bytes_param(ps, usize_word_or_zero(ps, 128))?;
    let dest = u64_word_or_zero(ps, 0);
    let receiver = address_at(ps, 44);
    let session = word(ps, 64);
    Some(
        MailboxCall {
            call_type: MailboxCallType::Write,
            source_chain: local,
            dest_chain: ChainId(dest),
            sender: caller,
            receiver,
            label: utf8_lossy(label.as_slice()),
            data: call_data,
            session_id: Some(session),
        },
    )
}

/// Decodes a legacy `read` call.
fn decode_legacy_read(input: &str, caller: Address, local: ChainId) -> (r: Option<MailboxCall>)
    ensures
        r is Some <==> spec_decode_legacy_read(input@, caller@, local) is Some,
        r matches Some(c) ==> call_view(c) == spec_decode_legacy_read(input@, caller@, local).unwrap(),
{
    let data = decode_input(input)?;
    if data.len() < 4 + 4 * 32 {
        return None;
    }
    let p = params_of(&data);
    let ps = p.as_slice();
    let label = bytes_param(ps, usize_word_or_zero(ps, 96))?;
    let source = u64_word_or_zero(ps, 0);
    let sender = address_at(ps, 44);
    let session = word(ps, 64);
    let r = MailboxCall {
        call_type: MailboxCallType::Read,
        source_chain: ChainId(source),
        dest_chain: local,
        sender,
        receiver: caller,
        label: utf8_lossy(label.as_slice()),
        data: Vec::new(),
        session_id: Some(session),
    };
    proof {
        assert(r.data@ =~= Seq::<u8>::empty());
    }
    Some(r)
}

/// Decodes a message header at `base`.
fn decode_message_header(p: &[u8], base: usize) -> (r: Option<(u64, u64, Address, Address, U256, String)>)
    ensures
        r is Some <==> spec_decode_header(p@, base as int) is Some,
        r matches Some(h) ==> (h.0, h.1, h.2@, h.3@, h.4@, h.5@) == spec_decode_header(p@, base as int).unwrap(),
{
    let n = p.len();
    if base > n || n - base < 6 * 32 {
        return None;
    }
    let lo = usize_word(p, base + 160)?;
    let label_at = base.checked_add(lo)?;
    let label = bytes_param(p, label_at)?;
    Some(
        (
            u64_word_or_zero(p, base),
            u64_word_or_zero(p, base + 32),
            address_at(p, base + 76),
            address_at(p, base + 108),
            word(p, base + 128),
            utf8_lossy(label.as_slice()),
        ),
    )
}

/// Decodes a `writeMessage` call.
fn decode_write_message(input: &str, caller: Address, local: ChainId) -> (r: Option<MailboxCall>)
    ensures
        r is Some <==> spec_decode_write_message(input@, caller@, local) is Some,
        r matches Some(c) ==> call_view(c) == spec_decode_write_message(input@, caller@, local).unwrap(),
{
    let data = decode_input(input)?;
    if data.len() < 4 + 32 {
        return None;
    }
    let p = params_of(&data);
    let ps = p.as_slice();
    let mo = usize_word(ps, 0)?;
    if mo > ps.len() || ps.len() - mo < 64 {
        return None;
    }
    let ho = usize_word(ps, mo);
    let po = usize_word(ps, mo + 32);
    let (ho, po) = match (ho, po) {
        (Some(a), Some(b)) => (a, b),
        _ => {
            return None;
        },
    };
    let hb = mo.checked_add(ho)?;
    let h = decode_message_header(ps, hb)?;
    let pb = mo.checked_add(po)?;
    let call_data = bytes_param(ps, pb)?;
    Some(
        MailboxCall {
            call_type: MailboxCallType::Write,
            source_chain: local,
            dest_chain: ChainId(h.1),
            sender: caller,
            receiver: h.3,
            label: h.5,
            data: call_data,
            session_id: Some(h.4),
        },
    )
}

/// Decodes a `readMessage` call.
fn decode_read_message(input: &str) -> (r: Option<MailboxCall>)
    ensures
        r is Some <==> spec_decode_read_message(input@) is Some,
        r matches Some(c) ==> call_view(c) == spec_decode_read_message(input@).unwrap(),
{
    let data = decode_input(input)?;
    if data.len() < 4 + 32 {
        return None;
    }
    let p = params_of(&data);
    let ps = p.as_slice();
    let ho = usize_word(ps, 0)?;
    let h = decode_message_header(ps, ho)?;
    let r = MailboxCall {
        call_type: MailboxCallType::Read,
        source_chain: ChainId(h.0),
        dest_chain: ChainId(h.1),
        sender: h.2,
        receiver: h.3,
        label: h.5,
        data: Vec::new(),
        session_id: Some(h.4),
    };
    proof {
        assert(r.data@ =~= Seq::<u8>::empty());
    }
    Some(r)
}

// ---------------------------------------------------------------------------
// Walking the trace.
// ---------------------------------------------------------------------------

/// The mailbox call a trace node makes, if any: the callee must be the
/// mailbox, the input at least ten bytes, and its first ten bytes one of the
/// four selectors; writes and legacy reads also need a parsable caller.
pub open spec fn own_call(node: TraceNode, mailbox: Address, local: ChainId) -> Option<CallView> {
    let from = spec_parse_address(node.from@);
    let to = spec_parse_address(node.to@);
    let bytes = vstd::utf8::encode_utf8(node.input@);
    if to == Some(mailbox@) && bytes.len() >= 10 {
        let sel = bytes.take(10);
        if sel == legacy_write_selector() {
            match from {
                Some(c) => spec_decode_legacy_write(node.input@, c, local),
                None => None,
            }
        } else if sel == write_message_selector() {
            match from {
                Some(c) => spec_decode_write_message(node.input@, c, local),
                None => None,
            }
        } else if sel == legacy_read_selector() {
            match from {
                Some(c) => spec_decode_legacy_read(node.input@, c, local),
                None => None,
            }
        } else if sel == read_message_selector() {
            spec_decode_read_message(node.input@)
        } else {
            None
        }
    } else {
        None
    }
}

/// The mailbox calls of kind `kind` in a trace, in pre-order.
pub open spec fn trace_calls(node: TraceNode, mailbox: Address, local: ChainId, kind: MailboxCallType) -> Seq<CallView>
    decreases node, 1int,
{
    let own = match own_call(node, mailbox, local) {
        Some(c) => if c.0 == kind {
            seq![c]
        } else {
            Seq::empty()
        },
        None => Seq::empty(),
    };
    own + trace_calls_list(node.calls@, mailbox, local, kind)
}

/// The mailbox calls of kind `kind` in a list of traces, in order.
pub open spec fn trace_calls_list(
    nodes: Seq<TraceNode>,
    mailbox: Address,
    local: ChainId,
    kind: MailboxCallType,
) -> Seq<CallView>
    decreases nodes, 0int,
{
    if nodes.len() == 0 {
        Seq::empty()
    } else {
        trace_calls_list(nodes.drop_last(), mailbox, local, kind) + trace_calls(
            nodes.last(),
            mailbox,
            local,
            kind,
        )
    }
}

/// Input slicing at ten bytes is defined on every node whose callee is the
/// mailbox and whose input is at least ten bytes: the tenth byte ends a
/// character.
pub open spec fn selectors_sliceable(node: TraceNode, mailbox: Address) -> bool
    decreases node,
{
    &&& (spec_parse_address(node.to@) == Some(mailbox@) && vstd::utf8::encode_utf8(node.input@).len() >= 10
        ==> vstd::utf8::is_char_boundary(vstd::utf8::encode_utf8(node.input@), 10))
    &&& forall|i: int| 0 <= i < node.calls@.len() ==> selectors_sliceable(#[trigger] node.calls@[i], mailbox)
}

/// Every child of a sliceable trace is sliceable.
proof fn lemma_child_sliceable(node: TraceNode, mailbox: Address, i: int)
    requires
        selectors_sliceable(node, mailbox),
        0 <= i < node.calls@.len(),
    ensures
        selectors_sliceable(node.calls@[i], mailbox),
{
}

/// Whether the first ten bytes of `input` are `sel`.
fn starts_with(input: &[u8], sel: &[u8]) -> (r: bool)
    requires
        input@.len() >= 10,
        sel@.len() == 10,
    ensures
        r == (input@.take(10) == sel@),
{
    let mut i: usize = 0;
    while i < 10
        invariant
            input@.len() >= 10,
            sel@.len() == 10,
            0 <= i <= 10,
            forall|j: int| 0 <= j < i ==> input@[j] == sel@[j],
        decreases 10 - i,
    {
        if input[i] != sel[i] {
            return false;
        }
        i = i + 1;
    }
    assert(input@.take(10) =~= sel@);
    true
}

/// The mailbox call a trace node makes, if any.
fn node_call(node: &TraceNode, mailbox: &Address, local: ChainId) -> (r: Option<MailboxCall>)
    ensures
        r is Some <==> own_call(*node, *mailbox, local) is Some,
        r matches Some(c) ==> call_view(c) == own_call(*node, *mailbox, local).unwrap(),
{
    let to = match parse_address(node.to.as_str()) {
        Ok(a) => a,
        Err(_) => {
            return None;
        },
    };
    if !crate::overrides::address_eq(&to, mailbox) {
        proof {
            assert(to@ != mailbox@) by {
                if to@ == mailbox@ {
                    assert(to =~= *mailbox);
                }
            }
        }
        return None;
    }
    let bytes = node.input.as_str().as_bytes();
    if bytes.len() < 10 {
        return None;
    }
    let from = match parse_address(node.from.as_str()) {
        Ok(a) => Some(a),
        Err(_) => None,
    };
    let lw: [u8; 10] = [0x30, 0x78, 0x63, 0x66, 0x38, 0x30, 0x63, 0x61, 0x39, 0x61];
    let wm: [u8; 10] = [0x30, 0x78, 0x38, 0x35, 0x66, 0x31, 0x37, 0x38, 0x64, 0x30];
    let lr: [u8; 10] = [0x30, 0x78, 0x65, 0x38, 0x63, 0x37, 0x65, 0x31, 0x35, 0x66];
    let rm: [u8; 10] = [0x30, 0x78, 0x33, 0x62, 0x36, 0x62, 0x31, 0x61, 0x35, 0x36];
    proof {
        assert(lw@ =~= legacy_write_selector());
        assert(wm@ =~= write_message_selector());
        assert(lr@ =~= legacy_read_selector());
        assert(rm@ =~= read_message_selector());
    }
    let input = node.input.as_str();
    if starts_with(bytes, lw.as_slice()) {
        match from {
            Some(c) => decode_legacy_write(input, c, local),
            None => None,
        }
    } else if starts_with(bytes, wm.as_slice()) {
        match from {
            Some(c) => decode_write_message(input, c, local),
            None => None,
        }
    } else if starts_with(bytes, lr.as_slice()) {
        match from {
            Some(c) => decode_legacy_read(input, c, local),
            None => None,
        }
    } else if starts_with(bytes, rm.as_slice()) {
        decode_read_message(input)
    } else {
        None
    }
}

/// Adds to `state` the mailbox calls of a trace, in pre-order.
fn walk_trace(node: &TraceNode, mailbox: &Address, local: ChainId, state: &mut SimulationState)
    requires
        selectors_sliceable(*node, *mailbox),
    ensures
        calls_view(final(state).reads@) == calls_view(old(state).reads@) + trace_calls(
            *node,
            *mailbox,
            local,
            MailboxCallType::Read,
        ),
        calls_view(final(state).writes@) == calls_view(old(state).writes@) + trace_calls(
            *node,
            *mailbox,
            local,
            MailboxCallType::Write,
        ),
    decreases node,
{
    let ghost r0 = calls_view(state.reads@);
    let ghost w0 = calls_view(state.writes@);
    match node_call(node, mailbox, local) {
        Some(c) => {
            let ghost cv = call_view(c);
            match c.call_type {
                MailboxCallType::Read => {
                    state.reads.push(c);
                    proof {
                        assert(calls_view(state.reads@) =~= r0.push(cv));
                    }
                },
                MailboxCallType::Write => {
                    state.writes.push(c);
                    proof {
                        assert(calls_view(state.writes@) =~= w0.push(cv));
                    }
                },
            }
        },
        None => {},
    }
    let ghost own_r = calls_view(state.reads@).skip(r0.len() as int);
    let ghost own_w = calls_view(state.writes@).skip(w0.len() as int);
    let mut k: usize = 0;
    while k < node.calls.len()
        invariant
            0 <= k <= node.calls@.len(),
            selectors_sliceable(*node, *mailbox),
            calls_view(state.reads@) == r0 + own_r + trace_calls_list(node.calls@.take(k as int), *mailbox, local, MailboxCallType::Read),
            calls_view(state.writes@) == w0 + own_w + trace_calls_list(node.calls@.take(k as int), *mailbox, local, MailboxCallType::Write),
        decreases node.calls@.len() - k,
    {
        proof {
            assert(node.calls@.take(k + 1).drop_last() =~= node.calls@.take(k as int));
            lemma_child_sliceable(*node, *mailbox, k as int);
            assert(decreases_to!(*node => node.calls@[k as int]));
        }
        walk_trace(&node.calls[k], mailbox, local, state);
        proof {
            assert(calls_view(state.reads@) =~= r0 + own_r + trace_calls_list(node.calls@.take(k + 1), *mailbox, local, MailboxCallType::Read));
            assert(calls_view(state.writes@) =~= w0 + own_w + trace_calls_list(node.calls@.take(k + 1), *mailbox, local, MailboxCallType::Write));
        }
        k = k + 1;
    }
    proof {
        assert(node.calls@.take(node.calls@.len() as int) =~= node.calls@);
    }
}

/// The mailbox reads and writes of a call trace, each in pre-order.
pub fn parse_call_trace(trace: &TraceNode, mailbox_address: Address, local_chain_id: ChainId) -> (s: SimulationState)
    requires
        selectors_sliceable(*trace, mailbox_address),
    ensures
        calls_view(s.reads@) == trace_calls(*trace, mailbox_address, local_chain_id, MailboxCallType::Read),
        calls_view(s.writes@) == trace_calls(*trace, mailbox_address, local_chain_id, MailboxCallType::Write),
{
    let mut state = SimulationState { reads: Vec::new(), writes: Vec::new() };
    proof {
        assert(calls_view(state.reads@) =~= Seq::<CallView>::empty());
        assert(calls_view(state.writes@) =~= Seq::<CallView>::empty());
    }
    walk_trace(trace, &mailbox_address, local_chain_id, &mut state);
    proof {
        assert(Seq::<CallView>::empty() + trace_calls(*trace, mailbox_address, local_chain_id, MailboxCallType::Read) =~= trace_calls(*trace, mailbox_address, local_chain_id, MailboxCallType::Read));
        assert(Seq::<CallView>::empty() + trace_calls(*trace, mailbox_address, local_chain_id, MailboxCallType::Write) =~= trace_calls(*trace, mailbox_address, local_chain_id, MailboxCallType::Write));
    }
    state
}

} // verus!
