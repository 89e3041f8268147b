//! FNV-1a over UTF-16 code units: the checksum both sides of the worker
//! boundary compute over the same text.

use vstd::prelude::*;
use crate::text::{char_units, utf16_units};

verus! {

pub const FNV_OFFSET: u32 = 2166136261;
pub const FNV_PRIME: u32 = 16777619;

/// One FNV-1a step: xor in the unit, then multiply by the prime modulo 2^32.
pub open spec fn fnv_step(hash: u32, unit: u16) -> u32 {
    (((hash ^ (unit as u32)) as nat * FNV_PRIME as nat) % 0x1_0000_0000) as u32
}

/// FNV-1a, 32-bit, over a sequence of UTF-16 code units.
pub open spec fn fnv1a(units: Seq<u16>) -> u32
    decreases units.len(),
{
    if units.len() == 0 {
        FNV_OFFSET
    } else {
        fnv_step(fnv1a(units.drop_last()), units.last())
    }
}

fn step(hash: u32, unit: u16) -> (r: u32)
    ensures
        r == fnv_step(hash, unit),
{
    (hash ^ (unit as u32)).wrapping_mul(FNV_PRIME)
}

/// FNV-1a, 32-bit, over the text's UTF-16 code units.
pub fn checksum(text: &str) -> (hash: u32)
    ensures
        hash == fnv1a(utf16_units(text@)),
{
    let mut hash: u32 = FNV_OFFSET;
    for c in it: text.chars()
        invariant
            hash == fnv1a(utf16_units(text@.take(it.index() as int))),
            it.seq() == text@,
    {
        proof {
            assert(text@.take(it.index() + 1).drop_last() == text@.take(it.index() as int));
        }
        let ghost pre = utf16_units(text@.take(it.index() as int));
        proof {
            vstd::utf8::char_is_scalar(c);
            let next = text@.take(it.index() + 1);
            assert(next.last() == c);
            assert(utf16_units(next) == pre + char_units(c));
        }
        let v: u32 = c as u32;
        if v < 0x10000 {
            hash = step(hash, v as u16);
            proof {
                assert(char_units(c) == seq![v as u16]);
                assert((pre + seq![v as u16]).drop_last() == pre);
                assert(fnv1a(pre + seq![v as u16]) == hash);
            }
        } else {
            let hi: u16 = (0xD800 + (v - 0x10000) / 0x400) as u16;
            let lo: u16 = (0xDC00 + (v - 0x10000) % 0x400) as u16;
            hash = step(hash, hi);
            assert(pre.push(hi).drop_last() == pre);
            assert(fnv1a(pre.push(hi)) == hash);
            hash = step(hash, lo);
            proof {
                assert(pre + seq![hi, lo] == pre.push(hi).push(lo));
                assert(pre.push(hi).push(lo).drop_last() == pre.push(hi));
                assert((pre + seq![hi, lo]).drop_last() == pre.push(hi));
                assert(pre.push(hi).drop_last() == pre);
                assert(char_units(c) == seq![hi, lo]);
                assert(fnv1a(pre + seq![hi, lo]) == hash);
            }
        }
    }
    proof { assert(text@.take(text@.len() as int) == text@); }
    hash
}

} // verus!
