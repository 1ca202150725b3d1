//! The parameters of a payload, and the memory they call for.

use vstd::arithmetic::power2::{lemma2_to64, lemma_pow2_adds, lemma_pow2_pos, lemma_pow2_unfold, pow2};
use vstd::bits::lemma_u32_shl_is_mul;
use vstd::prelude::*;

use crate::decoder::{LzmaDecoder, Model};
use crate::engine::{known, SIZE_MAX};
use crate::error::Error;
use crate::lz::{preset_bytes, preset_tail, LzDecoder};

verus! {

/// The largest dictionary there is.
pub const DICT_SIZE_MAX: u32 = 0xFFFF_FFF0;

/// The smallest dictionary that is made.
pub const DICT_SIZE_MIN: u32 = 4096;

/// The largest properties byte: four position bits, four literal position bits
/// and eight literal context bits.
pub const PROPS_MAX: u8 = 224;

/// The literal context bits in a properties byte.
pub open spec fn props_lc(props: u8) -> u32 {
    (props as int % 9) as u32
}

/// The literal position bits in a properties byte.
pub open spec fn props_lp(props: u8) -> u32 {
    (props as int / 9 % 5) as u32
}

/// The position bits in a properties byte.
pub open spec fn props_pb(props: u8) -> u32 {
    (props as int / 45) as u32
}

/// The size that a dictionary is made with: at least the smallest, and a
/// multiple of sixteen.
pub open spec fn dict_rounded(dict_size: int) -> int {
    let d = if dict_size < DICT_SIZE_MIN {
        DICT_SIZE_MIN as int
    } else {
        dict_size
    };
    (d + 15) / 16 * 16
}

/// The memory that a decoder takes, in KiB.
pub open spec fn memory_usage(dict_size: u32, lc: u32, lp: u32) -> int {
    10 + dict_rounded(dict_size as int) / 1024 + 1536 * pow2((lc + lp) as nat) / 1024
}

/// The size of the dictionary for data of `uncomp_size` bytes behind a preset
/// dictionary: no larger than the data and what is kept of the preset.
pub open spec fn dict_for(uncomp_size: u64, dict_size: u32, preset: Seq<u8>) -> int {
    let d = dict_rounded(dict_size as int);
    let kept = preset_tail(preset, d as nat).len();
    if known(uncomp_size) && uncomp_size + kept < d {
        dict_rounded(uncomp_size + kept)
    } else {
        d
    }
}

/// The three parts of a properties byte: literal context, literal position and
/// position bits.
#[verifier::rlimit(50)]
pub fn split_props(props: u8) -> (r: Result<(u32, u32, u32), Error>)
    ensures
        r == (if props > PROPS_MAX {
            Err::<(u32, u32, u32), Error>(Error::InvalidPropsByte)
        } else {
            Ok((props_lc(props), props_lp(props), props_pb(props)))
        }),
        props <= PROPS_MAX ==> props_lc(props) <= 8 && props_lp(props) <= 4 && props_pb(props) <= 4,
        r matches Ok((lc, lp, pb)) ==> props == (pb * 5 + lp) * 9 + lc,
{
    if props > PROPS_MAX {
        return Err(Error::InvalidPropsByte);
    }
    let pb: u8 = props / 45;
    let rest: u8 = props % 45;
    let lp: u8 = rest / 9;
    let lc: u8 = rest % 9;
    Ok((lc as u32, lp as u32, pb as u32))
}

/// The memory in KiB that decompression takes with a dictionary of `dict_size`
/// bytes and the parameters of a properties byte.
pub fn get_memory_usage_by_props(dict_size: u32, props_byte: u8) -> (r: Result<u32, Error>)
    ensures
        match r {
            Ok(kb) => dict_size <= DICT_SIZE_MAX && props_byte <= PROPS_MAX && kb == memory_usage(
                dict_size,
                props_lc(props_byte),
                props_lp(props_byte),
            ),
            Err(e) => if dict_size > DICT_SIZE_MAX {
                e == Error::DictSizeTooLarge
            } else {
                props_byte > PROPS_MAX && e == Error::InvalidPropsByte
            },
        },
{
    if dict_size > DICT_SIZE_MAX {
        return Err(Error::DictSizeTooLarge);
    }
    match split_props(props_byte) {
        Ok((lc, lp, _)) => get_memory_usage(dict_size, lc, lp),
        Err(e) => Err(e),
    }
}

/// The memory in KiB that decompression takes.
pub fn get_memory_usage(dict_size: u32, lc: u32, lp: u32) -> (r: Result<u32, Error>)
    ensures
        match r {
            Ok(kb) => lc <= 8 && lp <= 4 && dict_size <= DICT_SIZE_MAX && kb == memory_usage(
                dict_size,
                lc,
                lp,
            ),
            Err(e) => if lc > 8 || lp > 4 {
                e == Error::InvalidLcLp
            } else {
                dict_size > DICT_SIZE_MAX && e == Error::DictSizeTooLarge
            },
        },
{
    if lc > 8 || lp > 4 {
        return Err(Error::InvalidLcLp);
    }
    match get_dict_size(dict_size) {
        Ok(size) => {
            proof {
                lemma2_to64();
                lemma_pow2_adds((lc + lp) as nat, (12 - lc - lp) as nat);
                lemma_pow2_pos((12 - lc - lp) as nat);
                let x = pow2((lc + lp) as nat) as int;
                let y = pow2((12 - lc - lp) as nat) as int;
                assert(x <= x * y) by (nonlinear_arith)
                    requires
                        x >= 0,
                        y >= 1,
                ;
                lemma_u32_shl_is_mul(1536, (lc + lp) as u32);
            }
            Ok(10 + size / 1024 + (1536u32 << (lc + lp)) / 1024)
        },
        Err(e) => Err(e),
    }
}

/// The size that a dictionary is made with.
pub fn get_dict_size(dict_size: u32) -> (r: Result<u32, Error>)
    ensures
        match r {
            Ok(size) => dict_size <= DICT_SIZE_MAX && size == dict_rounded(dict_size as int),
            Err(e) => dict_size > DICT_SIZE_MAX && e == Error::DictSizeTooLarge,
        },
{
    if dict_size > DICT_SIZE_MAX {
        return Err(Error::DictSizeTooLarge);
    }
    let size = if dict_size < DICT_SIZE_MIN { DICT_SIZE_MIN } else { dict_size };
    Ok((size + 15) / 16 * 16)
}

/// The dictionary and the decoder for a payload.
pub fn build_decoders(
    uncomp_size: u64,
    lc: u32,
    lp: u32,
    pb: u32,
    dict_size: u32,
    preset_dict: Option<&[u8]>,
) -> (r: Result<(LzDecoder, LzmaDecoder), Error>)
    ensures
        match r {
            Ok((lz, lzma)) => {
                let dict = dict_for(uncomp_size, dict_size, preset_bytes(preset_dict));
                &&& lc <= 8 && lp <= 4 && pb <= 4 && dict_size <= DICT_SIZE_MAX
                &&& lz.wf()
                &&& lz@.size == dict
                &&& lz@.hist == preset_tail(preset_bytes(preset_dict), dict as nat)
                &&& lz@.delivered == lz@.hist.len()
                &&& lz@.space == dict - lz@.hist.len()
                &&& lz@.pending == 0
                &&& lzma.wf()
                &&& lzma@ == Model::fresh(lc, lp, pb)
            },
            Err(e) => if lc > 8 || lp > 4 || pb > 4 {
                e == Error::InvalidLcLpPb
            } else {
                dict_size > DICT_SIZE_MAX && e == Error::DictSizeTooLarge
            },
        },
{
    if lc > 8 || lp > 4 || pb > 4 {
        return Err(Error::InvalidLcLpPb);
    }
    let size = match get_dict_size(dict_size) {
        Ok(size) => size,
        Err(e) => {
            return Err(e);
        },
    };
    let kept: u64 = match preset_dict {
        Some(dict) => {
            if dict.len() < size as usize {
                dict.len() as u64
            } else {
                size as u64
            }
        },
        None => 0,
    };
    let history = uncomp_size.saturating_add(kept);
    let size = if uncomp_size <= SIZE_MAX && history < size as u64 {
        match get_dict_size(history as u32) {
            Ok(size) => size,
            Err(e) => {
                return Err(e);
            },
        }
    } else {
        size
    };
    let lz = LzDecoder::new(size as usize, preset_dict);
    let lzma = LzmaDecoder::new(lc, lp, pb);
    Ok((lz, lzma))
}

/// A properties byte is its three parts, and there is one for all that they can
/// be.
pub proof fn lemma_props_byte(props: u8, lc: u32, lp: u32, pb: u32)
    ensures
        props <= PROPS_MAX ==> {
            &&& props_lc(props) <= 8 && props_lp(props) <= 4 && props_pb(props) <= 4
            &&& props == (props_pb(props) * 5 + props_lp(props)) * 9 + props_lc(props)
        },
        lc <= 8 && lp <= 4 && pb <= 4 && props == (pb * 5 + lp) * 9 + lc ==> {
            &&& props <= PROPS_MAX
            &&& props_lc(props) == lc
            &&& props_lp(props) == lp
            &&& props_pb(props) == pb
        },
{
}

/// The size that a dictionary is made with is the least multiple of sixteen that
/// has what was asked for and at least 4 KiB, and the largest size that can be
/// asked for is the largest for which that is a number of 32 bits.
pub proof fn lemma_dict_rounded(dict_size: int)
    requires
        0 <= dict_size,
    ensures
        dict_rounded(dict_size) % 16 == 0,
        dict_rounded(dict_size) >= dict_size,
        dict_rounded(dict_size) >= 4096,
        dict_rounded(dict_size) - 16 < dict_size || dict_rounded(dict_size) == 4096,
        dict_size <= DICT_SIZE_MAX <==> dict_rounded(dict_size) <= u32::MAX,
{
}

/// The memory that is named covers what is taken: the dictionary, and two bytes
/// for each of the `0x300` probabilities of every literal coder. Beyond that it is
/// 10 KiB, with each of the two parts rounded down to whole KiB.
pub proof fn lemma_memory_covers(dict_size: u32, lc: u32, lp: u32)
    requires
        lc <= 8,
        lp <= 4,
    ensures
        ({
            let kb = memory_usage(dict_size, lc, lp);
            let dict = dict_rounded(dict_size as int);
            let literals = 2 * 0x300 * pow2((lc + lp) as nat);
            &&& 1024 * kb >= dict + literals
            &&& 1024 * kb <= 10 * 1024 + dict + literals
            &&& 1024 * kb > 8 * 1024 + dict + literals
            &&& dict % 1024 == 0 ==> 1024 * kb > 9 * 1024 + dict + literals
        }),
{
}

/// A KiB more of dictionary is a KiB more of memory, and with one more bit of
/// context or position the literal coders take twice as much. More of the one or
/// the other never takes less, and how much more a dictionary takes does not depend
/// on the literal coders.
pub proof fn lemma_memory_grows(dict_size: u32, more: u32, lc: u32, lp: u32)
    requires
        lc + lp < 12,
    ensures
        4096 <= dict_size <= u32::MAX - 1024 ==> memory_usage(
            (dict_size + 1024) as u32,
            lc,
            lp,
        ) == memory_usage(dict_size, lc, lp) + 1,
        dict_size <= more ==> memory_usage(dict_size, lc, lp) <= memory_usage(more, lc, lp),
        memory_usage(more, lc, lp) - memory_usage(dict_size, lc, lp) == memory_usage(
            more,
            (lc + 1) as u32,
            lp,
        ) - memory_usage(dict_size, (lc + 1) as u32, lp),
        memory_usage(dict_size, lc, (lp + 1) as u32) == memory_usage(
            dict_size,
            (lc + 1) as u32,
            lp,
        ),
        lc + lp > 0 ==> memory_usage(dict_size, (lc + 1) as u32, lp) - memory_usage(
            dict_size,
            lc,
            lp,
        ) == 3 * pow2((lc + lp - 1) as nat),
{
    let k = (lc + lp) as nat;
    lemma_pow2_unfold(k + 1);
    if k > 0 {
        lemma_pow2_unfold(k);
    }
}

/// The dictionary that is made for data of a known size has all that can be
/// copied from, as far as it was asked for, and is no larger than that by sixteen
/// bytes or than the smallest one. It is never larger than what was asked for,
/// rounded.
pub proof fn lemma_dict_for(uncomp_size: u64, dict_size: u32, preset: Seq<u8>)
    ensures
        ({
            let d = dict_for(uncomp_size, dict_size, preset);
            let kept = if preset.len() < d {
                preset.len() as int
            } else {
                d
            };
            &&& d % 16 == 0
            &&& 4096 <= d <= dict_rounded(dict_size as int)
            &&& d == dict_rounded(dict_size as int) || uncomp_size < 0x8000_0000_0000_0000 && d
                >= uncomp_size + kept && kept == preset.len()
            &&& uncomp_size < 0x8000_0000_0000_0000 ==> d - 16 < uncomp_size + preset.len() || d
                == 4096
            &&& uncomp_size >= 0x8000_0000_0000_0000 ==> d == dict_rounded(dict_size as int)
        }),
{
}

/// Rounding a size that was rounded before changes nothing, so it does not
/// matter how often it is done.
pub proof fn lemma_dict_rounded_once(dict_size: int)
    requires
        0 <= dict_size,
    ensures
        dict_rounded(dict_rounded(dict_size)) == dict_rounded(dict_size),
        dict_rounded(dict_size) >= dict_size,
        dict_rounded(dict_size) >= DICT_SIZE_MIN,
        dict_rounded(dict_size) % 16 == 0,
{
}

} // verus!
