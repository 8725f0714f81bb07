//! Text and byte encodings: decimal and hex text, protobuf varints, and the
//! SHA-256 digest used for submission fingerprints.

use sha2::Digest;
use vstd::prelude::*;
use vstd::string::StrSliceExecFns;

verus! {

broadcast use vstd::seq::group_seq_axioms;

// ---------------------------------------------------------------------------
// Hex text (the `hex` crate).
// ---------------------------------------------------------------------------

/// The lower-case hex digit for `d < 16`.
pub open spec fn hex_digit(d: u8) -> char {
    if d < 10 {
        (('0' as u8) + d) as char
    } else {
        (('a' as u8) + (d - 10)) as char
    }
}

/// Lower-case hex text of `bytes`, two digits per byte, high nibble first.
pub open spec fn spec_hex(bytes: Seq<u8>) -> Seq<char>
    decreases bytes.len(),
{
    if bytes.len() == 0 {
        Seq::empty()
    } else {
        spec_hex(bytes.drop_last()) + seq![hex_digit(bytes.last() / 16), hex_digit(bytes.last() % 16)]
    }
}

/// `hex::encode`: lower-case hex text of `data`.
#[verifier::external_body]
pub(crate) fn hex_encode(data: &[u8]) -> (s: String)
    ensures
        s@ == spec_hex(data@),
{
    hex::encode(data)
}

/// The value of an ASCII hex digit (either case), if `c` is one.
pub open spec fn hex_value(c: char) -> Option<u8> {
    if '0' <= c <= '9' {
        Some(((c as u32) - 48) as u8)
    } else if 'a' <= c <= 'f' {
        Some(((c as u32) - 87) as u8)
    } else if 'A' <= c <= 'F' {
        Some(((c as u32) - 55) as u8)
    } else {
        None
    }
}

/// Every character of `text` is an ASCII hex digit.
pub open spec fn all_hex(text: Seq<char>) -> bool {
    forall|i: int| 0 <= i < text.len() ==> (#[trigger] hex_value(text[i])) is Some
}

/// The bytes spelled by hex text: each pair of digits, high nibble first,
/// gives one byte.
pub open spec fn hex_bytes(text: Seq<char>) -> Seq<u8>
    decreases text.len(),
{
    if text.len() < 2 {
        Seq::empty()
    } else {
        hex_bytes(text.take(text.len() - 2)).push(
            (hex_value(text[text.len() - 2]).unwrap() * 16 + hex_value(
                text[text.len() - 1],
            ).unwrap()) as u8,
        )
    }
}

/// Whether `hex::decode` accepts `text`: every character is a hex digit (of
/// either case) and their number is even.
pub open spec fn hex_decodes(text: Seq<char>) -> bool {
    all_hex(text) && text.len() % 2 == 0
}

/// The name for the message text of the error `hex::decode` returns on `text`.
pub uninterp spec fn spec_hex_error_text(text: Seq<char>) -> Seq<char>;

/// `hex::decode`: the bytes of even-length hex text (either case); otherwise the
/// text of the error it reports.
#[verifier::external_body]
pub(crate) fn hex_decode(text: &str) -> (r: Result<Vec<u8>, String>)
    ensures
        r is Ok <==> hex_decodes(text@),
        r matches Ok(b) ==> b@ == hex_bytes(text@),
        r matches Err(e) ==> e@ == spec_hex_error_text(text@),
{
    match hex::decode(text) {
        Ok(b) => Ok(b),
        Err(e) => Err(e.to_string()),
    }
}

/// `s` with every leading `0x` removed (the `trim_start_matches("0x")` rule).
pub open spec fn strip_0x(s: Seq<char>) -> Seq<char>
    decreases s.len(),
{
    if s.len() >= 2 && s[0] == '0' && s[1] == 'x' {
        strip_0x(s.skip(2))
    } else {
        s
    }
}

/// Removes every leading `0x`.
pub fn trim_0x(s: &str) -> (t: &str)
    ensures
        t@ == strip_0x(s@),
    decreases s@.len(),
{
    let n = s.unicode_len();
    if n >= 2 && s.get_char(0) == '0' && s.get_char(1) == 'x' {
        let rest = s.substring_char(2, n);
        proof {
            assert(rest@ =~= s@.skip(2));
        }
        trim_0x(rest)
    } else {
        s
    }
}

// ---------------------------------------------------------------------------
// Decimal text.
// ---------------------------------------------------------------------------

/// The decimal digit for `d < 10`.
pub open spec fn dec_digit(d: u64) -> char {
    (('0' as u64) + d) as char
}

/// Decimal text of `n` without leading zeros.
pub open spec fn spec_decimal(n: u64) -> Seq<char>
    decreases n,
{
    if n < 10 {
        seq![dec_digit(n)]
    } else {
        spec_decimal(n / 10) + seq![dec_digit(n % 10)]
    }
}

/// Decimal text of the natural number `n` without leading zeros.
pub open spec fn spec_decimal_nat(n: nat) -> Seq<char>
    decreases n,
{
    if n < 10 {
        seq![(('0' as nat) + n) as char]
    } else {
        spec_decimal_nat(n / 10) + seq![(('0' as nat) + n % 10) as char]
    }
}

fn digit_str(d: u64) -> (s: &'static str)
    requires
        d < 10,
    ensures
        s@ == seq![dec_digit(d)],
{
    proof {
        reveal_strlit("0");
        reveal_strlit("1");
        reveal_strlit("2");
        reveal_strlit("3");
        reveal_strlit("4");
        reveal_strlit("5");
        reveal_strlit("6");
        reveal_strlit("7");
        reveal_strlit("8");
        reveal_strlit("9");
    }
    if d == 0 {
        "0"
    } else if d == 1 {
        "1"
    } else if d == 2 {
        "2"
    } else if d == 3 {
        "3"
    } else if d == 4 {
        "4"
    } else if d == 5 {
        "5"
    } else if d == 6 {
        "6"
    } else if d == 7 {
        "7"
    } else if d == 8 {
        "8"
    } else {
        "9"
    }
}

/// Appends the decimal text of `n` to `out`.
pub fn push_decimal(out: &mut String, n: u64)
    ensures
        final(out)@ == old(out)@ + spec_decimal(n),
    decreases n,
{
    if n >= 10 {
        push_decimal(out, n / 10);
    }
    let d = digit_str(n % 10);
    out.append(d);
    proof {
        if n >= 10 {
            assert(final(out)@ =~= old(out)@ + spec_decimal(n));
        } else {
            assert(n % 10 == n);
        }
    }
}

/// Decimal text of `n`.
pub fn decimal(n: u64) -> (s: String)
    ensures
        s@ == spec_decimal(n),
{
    let mut s = String::new();
    push_decimal(&mut s, n);
    proof {
        assert(s@ =~= spec_decimal(n));
    }
    s
}

// ---------------------------------------------------------------------------
// Protobuf varints.
// ---------------------------------------------------------------------------

/// Base-128 varint of `n`, least significant group first.
pub open spec fn spec_varint(n: u64) -> Seq<u8>
    decreases n,
{
    if n < 128 {
        seq![n as u8]
    } else {
        seq![((n % 128) + 128) as u8] + spec_varint(n / 128)
    }
}

/// Appends the varint of `n` to `out`.
pub fn push_varint(out: &mut Vec<u8>, n: u64)
    ensures
        final(out)@ == old(out)@ + spec_varint(n),
    decreases n,
{
    if n < 128 {
        out.push(n as u8);
        proof {
            assert(final(out)@ =~= old(out)@ + spec_varint(n));
        }
    } else {
        out.push(((n % 128) + 128) as u8);
        let ghost mid = out@;
        push_varint(out, n / 128);
        proof {
            assert(final(out)@ =~= old(out)@ + spec_varint(n));
        }
    }
}

// ---------------------------------------------------------------------------
// SHA-256 (the `sha2` crate).
// ---------------------------------------------------------------------------

/// The SHA-256 digest of `data`.
pub uninterp spec fn spec_sha256(data: Seq<u8>) -> Seq<u8>;

/// `sha2::Sha256::digest`: the 32-byte SHA-256 digest of `data`.
#[verifier::external_body]
pub(crate) fn sha256(data: &[u8]) -> (d: [u8; 32])
    ensures
        d@ == spec_sha256(data@),
{
    let out: [u8; 32] = sha2::Sha256::digest(data).into();
    out
}

} // verus!
