//! Hexadecimal decoding of trace payloads and SHA-256 digests.
use vstd::prelude::*;
use vstd::string::*;

verus! {

/// The value of an ASCII hexadecimal digit (either case).
pub open spec fn hex_value(b: u8) -> Option<u8> {
    if 0x30 <= b <= 0x39 {
        Some((b - 0x30) as u8)
    } else if 0x61 <= b <= 0x66 {
        Some((b - 0x61 + 10) as u8)
    } else if 0x41 <= b <= 0x46 {
        Some((b - 0x41 + 10) as u8)
    } else {
        None
    }
}

/// Every byte is a hexadecimal digit.
pub open spec fn all_hex(s: Seq<u8>) -> bool {
    forall|i: int| 0 <= i < s.len() ==> (#[trigger] hex_value(s[i])) is Some
}

/// The bytes denoted by a hexadecimal text: an even number of digits,
/// each pair giving one byte, high digit first.
pub open spec fn decode_hex_bytes(s: Seq<u8>) -> Option<Seq<u8>> {
    if s.len() % 2 != 0 || !all_hex(s) {
        None
    } else {
        Some(
            Seq::new(
                s.len() / 2,
                |i: int| (hex_value(s[2 * i])->Some_0 * 16 + hex_value(s[2 * i + 1])->Some_0) as u8,
            ),
        )
    }
}

/// The value of one hexadecimal digit.
pub fn hex_digit(value: u8) -> (r: Option<u8>)
    ensures
        r == hex_value(value),
{
    if 0x30 <= value && value <= 0x39 {
        Some(value - 0x30)
    } else if 0x61 <= value && value <= 0x66 {
        Some(value - 0x61 + 10)
    } else if 0x41 <= value && value <= 0x46 {
        Some(value - 0x41 + 10)
    } else {
        None
    }
}

/// Decodes a hexadecimal text into bytes.
pub fn decode_hex(value: &str) -> (r: Option<Vec<u8>>)
    ensures
        match decode_hex_bytes(value.spec_bytes()) {
            Some(b) => r matches Some(v) && v@ == b,
            None => r is None,
        },
{
    let bytes = value.as_bytes();
    if bytes.len() % 2 != 0 {
        return None;
    }
    let mut output: Vec<u8> = Vec::new();
    let mut i: usize = 0;
    while i < bytes.len() / 2
        invariant
            0 <= i <= bytes@.len() / 2,
            bytes@ == value.spec_bytes(),
            bytes@.len() % 2 == 0,
            output@.len() == i,
            forall|j: int| 0 <= j < 2 * i ==> (#[trigger] hex_value(bytes@[j])) is Some,
            forall|j: int| 0 <= j < i ==> #[trigger] output@[j] == (hex_value(bytes@[2 * j])->Some_0 * 16
                + hex_value(bytes@[2 * j + 1])->Some_0) as u8,
        decreases bytes@.len() / 2 - i,
    {
        let high = match hex_digit(bytes[2 * i]) {
            Some(h) => h,
            None => {
                return None;
            },
        };
        let low = match hex_digit(bytes[2 * i + 1]) {
            Some(l) => l,
            None => {
                return None;
            },
        };
        output.push(high * 16 + low);
        i = i + 1;
    }
    assert(all_hex(bytes@)) by {
        assert forall|j: int| 0 <= j < bytes@.len() implies (#[trigger] hex_value(bytes@[j])) is Some by {
            assert(j < 2 * i);
        }
    }
    assert(output@ =~= decode_hex_bytes(value.spec_bytes())->Some_0);
    Some(output)
}

/// Decodes a hexadecimal SHA-256 digest: exactly 32 bytes.
pub fn decode_hex_digest(value: &str) -> (r: Option<[u8; 32]>)
    ensures
        match decode_hex_bytes(value.spec_bytes()) {
            Some(b) => if b.len() == 32 {
                r matches Some(d) && d@ == b
            } else {
                r is None
            },
            None => r is None,
        },
{
    let b = match decode_hex(value) {
        Some(b) => b,
        None => {
            return None;
        },
    };
    if b.len() != 32 {
        return None;
    }
    let d: [u8; 32] = [
        b[0], b[1], b[2], b[3], b[4], b[5], b[6], b[7], b[8], b[9], b[10], b[11], b[12], b[13],
        b[14], b[15], b[16], b[17], b[18], b[19], b[20], b[21], b[22], b[23], b[24], b[25],
        b[26], b[27], b[28], b[29], b[30], b[31],
    ];
    assert(d@ =~= b@);
    Some(d)
}

/// The ASCII digit for a value below sixteen, in upper or lower case.
pub open spec fn hex_char(d: u8, upper: bool) -> u8 {
    if d < 10 {
        (0x30 + d) as u8
    } else if upper {
        (0x41 + d - 10) as u8
    } else {
        (0x61 + d - 10) as u8
    }
}

/// The hexadecimal text of bytes: two digits per byte, high digit first.
pub open spec fn hex_encode(b: Seq<u8>, upper: bool) -> Seq<u8> {
    Seq::new(
        2 * b.len(),
        |i: int| if i % 2 == 0 { hex_char(b[i / 2] / 16, upper) } else { hex_char(b[i / 2] % 16, upper) },
    )
}

proof fn lemma_hex_char(d: u8, upper: bool)
    requires
        d < 16,
    ensures
        hex_value(hex_char(d, upper)) == Some(d),
{
}

/// Decoding inverts encoding: the hexadecimal text of any bytes, in either
/// case, decodes to those bytes.
pub proof fn lemma_decode_hex_roundtrip(b: Seq<u8>, upper: bool)
    ensures
        decode_hex_bytes(hex_encode(b, upper)) == Some(b),
{
    let s = hex_encode(b, upper);
    assert(s.len() % 2 == 0);
    assert forall|i: int| 0 <= i < s.len() implies (#[trigger] hex_value(s[i])) is Some by {
        let k = i / 2;
        assert(0 <= k < b.len());
        assert(b[k] / 16 < 16 && b[k] % 16 < 16) by (nonlinear_arith);
        lemma_hex_char(b[k] / 16, upper);
        lemma_hex_char(b[k] % 16, upper);
    }
    let d = decode_hex_bytes(s)->Some_0;
    assert(d.len() == b.len());
    assert forall|i: int| 0 <= i < b.len() implies d[i] == b[i] by {
        let x = b[i];
        assert((2 * i) % 2 == 0 && (2 * i) / 2 == i);
        assert((2 * i + 1) % 2 == 1 && (2 * i + 1) / 2 == i);
        assert(x / 16 < 16 && x % 16 < 16 && (x / 16) * 16 + x % 16 == x) by (nonlinear_arith);
        lemma_hex_char(x / 16, upper);
        lemma_hex_char(x % 16, upper);
        assert(s[2 * i] == hex_char(x / 16, upper));
        assert(s[2 * i + 1] == hex_char(x % 16, upper));
    }
    assert(d =~= b);
}

} // verus!
