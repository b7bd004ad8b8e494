//! Lowercase hexadecimal text of byte strings.

use vstd::prelude::*;
use vstd::utf8::encode_utf8;
use crate::fmt::{hex2, push_hex2};
use crate::errors::text;

verus! {

/// Two lowercase hex digits per byte.
pub open spec fn hex_text(b: Seq<u8>) -> Seq<char>
    decreases b.len(),
{
    if b.len() == 0 {
        Seq::empty()
    } else {
        hex_text(b.drop_last()) + hex2(b.last())
    }
}

/// The value of one hex digit byte, in either case.
pub open spec fn hex_val(c: u8) -> Option<u8> {
    if 48 <= c <= 57 {
        Some((c - 48) as u8)
    } else if 97 <= c <= 102 {
        Some((c - 87) as u8)
    } else if 65 <= c <= 70 {
        Some((c - 55) as u8)
    } else {
        None
    }
}

/// What `decode_bytes` gives for the bytes of its input.
pub open spec fn spec_decode_hex(b: Seq<u8>) -> Result<Seq<u8>, Seq<char>> {
    if b.len() % 2 != 0 {
        Err("odd hex length"@)
    } else if exists|i: int| 0 <= i < b.len() && #[trigger] hex_val(b[i]) is None {
        Err("bad hex"@)
    } else {
        Ok(Seq::new((b.len() / 2) as nat, |k: int| (hex_val(b[2 * k])->Some_0 * 16 + hex_val(b[2 * k + 1])->Some_0) as u8))
    }
}

/// Hex text of `b`.
pub fn encode_bytes(b: &[u8]) -> (s: String)
    ensures
        s@ == hex_text(b@),
{
    let mut s = String::new();
    let mut i: usize = 0;
    while i < b.len()
        invariant
            i <= b@.len(),
            s@ == hex_text(b@.take(i as int)),
        decreases b@.len() - i,
    {
        push_hex2(&mut s, b[i]);
        assert(b@.take(i + 1).drop_last() =~= b@.take(i as int));
        i = i + 1;
    }
    assert(b@.take(i as int) =~= b@);
    s
}

fn from_hex(c: u8) -> (r: Option<u8>)
    ensures
        r == hex_val(c),
{
    if 48 <= c && c <= 57 {
        Some(c - 48)
    } else if 97 <= c && c <= 102 {
        Some(c - 87)
    } else if 65 <= c && c <= 70 {
        Some(c - 55)
    } else {
        None
    }
}

/// The bytes a hex string stands for.
pub fn decode_bytes(s: &str) -> (r: Result<Vec<u8>, String>)
    ensures
        match spec_decode_hex(encode_utf8(s@)) {
            Ok(b) => r matches Ok(v) && v@ == b,
            Err(e) => r matches Err(m) && m@ == e,
        },
{
    let bytes = s.as_bytes();
    let ghost bs = encode_utf8(s@);
    assert(bytes@ == bs);
    if bytes.len() % 2 != 0 {
        return Err(text("odd hex length"));
    }
    let mut out: Vec<u8> = Vec::new();
    let mut i: usize = 0;
    while i < bytes.len()
        invariant
            i <= bytes@.len(),
            i % 2 == 0,
            bytes@.len() % 2 == 0,
            bytes@ == bs,
            bs == encode_utf8(s@),
            out@.len() == i / 2,
            forall|q: int| 0 <= q < i ==> #[trigger] hex_val(bs[q]) is Some,
            forall|k: int|
                0 <= k < i / 2 ==> #[trigger] out@[k] == (hex_val(bs[2 * k])->Some_0 * 16 + hex_val(
                    bs[2 * k + 1],
                )->Some_0) as u8,
        decreases bytes@.len() - i,
    {
        let hi = match from_hex(bytes[i]) {
            Some(h) => h,
            None => {
                assert(hex_val(bs[i as int]) is None);
                return Err(text("bad hex"));
            },
        };
        let lo = match from_hex(bytes[i + 1]) {
            Some(l) => l,
            None => {
                assert(hex_val(bs[i + 1]) is None);
                return Err(text("bad hex"));
            },
        };
        assert((hi * 16 + lo) < 256);
        let byte: u8 = hi * 16 + lo;
        out.push(byte);
        assert(out@[(i / 2) as int] == byte);
        assert((i + 2) / 2 == i / 2 + 1);
        assert(2 * ((i / 2) as int) == i);
        i = i + 2;
    }
    assert(!(exists|q: int| 0 <= q < bs.len() && #[trigger] hex_val(bs[q]) is None));
    assert(out@ =~= Seq::new((bs.len() / 2) as nat, |k: int| (hex_val(bs[2 * k])->Some_0 * 16 + hex_val(bs[2 * k + 1])->Some_0) as u8));
    Ok(out)
}

} // verus!
