//! The checksum engine: two classic CRC variants, both deliberately computed
//! over the textual binary representation of the fields being checked. The
//! message is the zero-padded binary rendering of the fields (most
//! significant bit first) and each ASCII '0'/'1' character code is fed
//! through the CRC update function in turn. This is a backward-compatibility
//! constraint inherited from an older implementation and must be preserved
//! bit for bit; it is deliberately not replaced by a byte-oriented CRC.

use vstd::prelude::*;
use vstd::arithmetic::power2::pow2;
use vstd::arithmetic::power2::lemma_pow2_pos;
use vstd::arithmetic::power2::lemma_pow2_unfold;
use vstd::arithmetic::power2::lemma2_to64;

verus! {

/// The ASCII '0'/'1' characters of the binary rendering of `x`, zero-padded
/// to `width` digits, most significant bit first.
pub open spec fn binary_text(x: int, width: nat) -> Seq<u8> {
    Seq::new(width, |i: int| (48 + (x / pow2((width - 1 - i) as nat) as int) % 2) as u8)
}

/// One shift-and-reduce round of the CRC-8 computation (polynomial 0x07,
/// most significant bit first).
pub open spec fn crc8_round(c: u8) -> u8 {
    if c & 0x80 == 0x80 {
        (c << 1) ^ 0x07
    } else {
        c << 1
    }
}

/// `k` rounds of the CRC-8 shift-and-reduce step.
pub open spec fn crc8_rounds(c: u8, k: nat) -> u8
    decreases k,
{
    if k == 0 {
        c
    } else {
        crc8_round(crc8_rounds(c, (k - 1) as nat))
    }
}

/// Feed one message byte through the CRC-8.
pub open spec fn crc8_update(crc: u8, byte: u8) -> u8 {
    crc8_rounds(crc ^ byte, 8)
}

/// Fold the CRC-8 update over a whole message, starting from `crc`.
pub open spec fn crc8_fold(crc: u8, msg: Seq<u8>) -> u8
    decreases msg.len(),
{
    if msg.len() == 0 {
        crc
    } else {
        crc8_fold(crc8_update(crc, msg[0]), msg.drop_first())
    }
}

/// The CRC-8 of the binary text rendering of `x` over `width` digits.
pub open spec fn spec_crc8(x: int, width: nat) -> u8 {
    crc8_fold(0, binary_text(x, width))
}

/// One shift-and-reduce round of the CRC-16/ARC computation (reflected
/// polynomial 0xA001, least significant bit first).
pub open spec fn crc16_round(c: u16) -> u16 {
    if c & 1 == 1 {
        (c >> 1) ^ 0xA001
    } else {
        c >> 1
    }
}

/// `k` rounds of the CRC-16 shift-and-reduce step.
pub open spec fn crc16_rounds(c: u16, k: nat) -> u16
    decreases k,
{
    if k == 0 {
        c
    } else {
        crc16_round(crc16_rounds(c, (k - 1) as nat))
    }
}

/// Feed one message byte through the CRC-16/ARC.
pub open spec fn crc16_update(crc: u16, byte: u8) -> u16 {
    crc16_rounds((crc ^ byte as u16) & 0xff, 8) ^ (crc >> 8)
}

/// Fold the CRC-16 update over a whole message, starting from `crc`.
pub open spec fn crc16_fold(crc: u16, msg: Seq<u8>) -> u16
    decreases msg.len(),
{
    if msg.len() == 0 {
        crc
    } else {
        crc16_fold(crc16_update(crc, msg[0]), msg.drop_first())
    }
}

/// The CRC-16/ARC of the binary text rendering of `x` over `width` digits.
pub open spec fn spec_crc16(x: int, width: nat) -> u16 {
    crc16_fold(0, binary_text(x, width))
}

/// Feed one byte through the CRC-8.
fn crc8_update_exec(crc: u8, byte: u8) -> (r: u8)
    ensures
        r == crc8_update(crc, byte),
{
    let mut c = crc ^ byte;
    let mut k: usize = 0;
    while k < 8
        invariant
            k <= 8,
            c == crc8_rounds(crc ^ byte, k as nat),
        decreases 8 - k,
    {
        c = if c & 0x80 == 0x80 {
            (c << 1u8) ^ 0x07
        } else {
            c << 1u8
        };
        k = k + 1;
    }
    c
}

/// Feed one byte through the CRC-16/ARC.
fn crc16_update_exec(crc: u16, byte: u8) -> (r: u16)
    ensures
        r == crc16_update(crc, byte),
{
    let mut c = (crc ^ byte as u16) & 0xff;
    let mut k: usize = 0;
    while k < 8
        invariant
            k <= 8,
            c == crc16_rounds((crc ^ byte as u16) & 0xff, k as nat),
        decreases 8 - k,
    {
        c = if c & 1 == 1 {
            (c >> 1u16) ^ 0xA001
        } else {
            c >> 1u16
        };
        k = k + 1;
    }
    c ^ (crc >> 8u16)
}

/// The CRC-8 of the 24-digit binary text rendering of `x`, as used for short
/// codes.
pub fn compute_crc8(x: u32) -> (r: u8)
    requires
        x < 0x1000000,
    ensures
        r == spec_crc8(x as int, 24),
{
    let ghost msg = binary_text(x as int, 24);
    let mut crc: u8 = 0;
    let mut divisor: u32 = 0x800000;
    let mut i: usize = 0;
    proof {
        lemma2_to64();
        assert(msg.skip(0) =~= msg);
    }
    while i < 24
        invariant
            i <= 24,
            x < 0x1000000,
            i < 24 ==> divisor == pow2((23 - i) as nat),
            msg == binary_text(x as int, 24),
            crc8_fold(crc, msg.skip(i as int)) == spec_crc8(x as int, 24),
        decreases 24 - i,
    {
        proof {
            lemma_pow2_pos((23 - i) as nat);
            vstd::arithmetic::div_mod::lemma_mod_bound((x as int) / (divisor as int), 2);
            vstd::arithmetic::div_mod::lemma_div_pos_is_pos(x as int, divisor as int);
            assert(msg.skip(i as int)[0] == msg[i as int]);
            assert(msg.skip(i as int).drop_first() =~= msg.skip(i + 1));
        }
        let byte = 48 + ((x / divisor) % 2) as u8;
        assert(byte == msg[i as int]);
        crc = crc8_update_exec(crc, byte);
        if i < 23 {
            proof {
                lemma_pow2_unfold((23 - i) as nat);
            }
            divisor = divisor / 2;
        }
        i = i + 1;
    }
    proof {
        assert(msg.skip(24) =~= Seq::<u8>::empty());
    }
    crc
}

/// The CRC-16/ARC of the 64-digit binary text rendering of `x`, as used for
/// long codes.
pub fn compute_crc16(x: u64) -> (r: u16)
    ensures
        r == spec_crc16(x as int, 64),
{
    let ghost msg = binary_text(x as int, 64);
    let mut crc: u16 = 0;
    let mut divisor: u64 = 0x8000000000000000;
    let mut i: usize = 0;
    proof {
        lemma2_to64();
        vstd::arithmetic::power2::lemma2_to64_rest();
        assert(msg.skip(0) =~= msg);
    }
    while i < 64
        invariant
            i <= 64,
            i < 64 ==> divisor == pow2((63 - i) as nat),
            msg == binary_text(x as int, 64),
            crc16_fold(crc, msg.skip(i as int)) == spec_crc16(x as int, 64),
        decreases 64 - i,
    {
        proof {
            lemma_pow2_pos((63 - i) as nat);
            vstd::arithmetic::div_mod::lemma_mod_bound((x as int) / (divisor as int), 2);
            vstd::arithmetic::div_mod::lemma_div_pos_is_pos(x as int, divisor as int);
            assert(msg.skip(i as int)[0] == msg[i as int]);
            assert(msg.skip(i as int).drop_first() =~= msg.skip(i + 1));
        }
        let byte = 48 + ((x / divisor) % 2) as u8;
        assert(byte == msg[i as int]);
        crc = crc16_update_exec(crc, byte);
        if i < 63 {
            proof {
                lemma_pow2_unfold((63 - i) as nat);
            }
            divisor = divisor / 2;
        }
        i = i + 1;
    }
    proof {
        assert(msg.skip(64) =~= Seq::<u8>::empty());
    }
    crc
}

} // verus!
