//! The decoders of the LZMA SDK, as far as they are compared with, and the
//! dictionary sizes of LZMA2.

use vstd::arithmetic::power2::{
    lemma2_to64, lemma_pow2_pos, lemma_pow2_strictly_increases, lemma_pow2_unfold, pow2,
};
use vstd::bits::lemma_u32_shl_is_mul;
use vstd::prelude::*;

verus! {

/// Which build of the SDK decodes.
#[derive(Clone, Copy, PartialEq, Eq, Structural, Debug)]
pub enum Sdk {
    /// The decoder in plain C.
    C,
    /// The decoder with its inner loop in assembly, which there is for aarch64.
    Asm,
}

impl Sdk {
    /// Every build that a target has.
    pub fn all(aarch64: bool) -> (v: Vec<Sdk>)
        ensures
            v@ == (if aarch64 {
                seq![Sdk::C, Sdk::Asm]
            } else {
                seq![Sdk::C]
            }),
    {
        let mut v: Vec<Sdk> = Vec::new();
        v.push(Sdk::C);
        if aarch64 {
            v.push(Sdk::Asm);
        }
        v
    }

    pub open spec fn spec_name(self) -> Seq<char> {
        match self {
            Sdk::C => "7-Zip (C)"@,
            Sdk::Asm => "7-Zip (asm)"@,
        }
    }

    /// The name that a benchmark reports it under.
    pub fn name(self) -> (s: &'static str)
        ensures
            s@ == self.spec_name(),
    {
        match self {
            Sdk::C => "7-Zip (C)",
            Sdk::Asm => "7-Zip (asm)",
        }
    }
}

/// The two builds go by one name, with what they are written in behind it.
pub proof fn lemma_names(sdk: Sdk)
    ensures
        sdk.spec_name().take(6) == "7-Zip "@,
        sdk.spec_name().skip(6) == (match sdk {
            Sdk::C => "(C)"@,
            Sdk::Asm => "(asm)"@,
        }),
{
    reveal_strlit("7-Zip ");
    reveal_strlit("(C)");
    reveal_strlit("(asm)");
    reveal_strlit("7-Zip (C)");
    reveal_strlit("7-Zip (asm)");
    assert(sdk.spec_name().take(6) =~= "7-Zip "@);
    if sdk == Sdk::C {
        assert("7-Zip (C)"@.skip(6) =~= "(C)"@);
    } else {
        assert("7-Zip (asm)"@.skip(6) =~= "(asm)"@);
    }
}

/// What a call of the SDK comes to. It returned `result`, and said that it
/// filled `filled` of the `wanted` bytes, which have to be all of them.
pub fn sdk_outcome(result: i32, filled: usize, wanted: usize) -> (r: Result<(), i32>)
    ensures
        match r {
            Ok(_) => result == 0 && filled == wanted,
            Err(e) => if result != 0 {
                e == result
            } else {
                filled != wanted && e == -1
            },
        },
{
    if result != 0 {
        return Err(result);
    }
    if filled != wanted {
        return Err(-1);
    }
    Ok(())
}

/// The property byte that names the largest dictionary.
pub const DICT_PROP_MAX: u8 = 40;

/// The dictionary size that a property byte names: two or three times a power
/// of two, and the largest there is.
pub open spec fn dict_named(prop: u8) -> int {
    if prop >= DICT_PROP_MAX {
        u32::MAX as int
    } else {
        (2 + prop as int % 2) * pow2((prop as int / 2 + 11) as nat)
    }
}

/// The dictionary size that an LZMA2 property byte names.
pub fn lzma2_dict_size(prop: u8) -> (size: u32)
    ensures
        size == dict_named(prop),
{
    if prop >= DICT_PROP_MAX {
        return u32::MAX;
    }
    let shift: u32 = prop as u32 / 2 + 11;
    let top: u32 = 2 + prop as u32 % 2;
    proof {
        lemma_named_bound(prop);
        lemma_u32_shl_is_mul(top, shift);
    }
    top << shift
}

proof fn lemma_named_bound(prop: u8)
    requires
        prop < DICT_PROP_MAX,
    ensures
        0 < dict_named(prop) < u32::MAX,
{
    let e = (prop as int / 2 + 11) as nat;
    lemma2_to64();
    lemma_pow2_pos(e);
    if e < 30 {
        lemma_pow2_strictly_increases(e, 30);
    }
    assert(prop as int % 2 == 0 || prop as int % 2 == 1);
}

/// The sizes grow with the property byte.
pub proof fn lemma_named_grows(a: u8, b: u8)
    requires
        a < b <= DICT_PROP_MAX,
    ensures
        dict_named(a) < dict_named(b),
    decreases b,
{
    let c = (b - 1) as u8;
    lemma_named_bound(c);
    if b < DICT_PROP_MAX {
        let e = (c as int / 2 + 11) as nat;
        let x = pow2(e) as int;
        lemma_pow2_pos(e);
        lemma_pow2_unfold(e + 1);
        if c as int % 2 == 0 {
            assert(b as int / 2 == c as int / 2);
            assert(dict_named(c) == 2 * x);
            assert(dict_named(b) == 3 * x);
        } else {
            assert(b as int / 2 + 11 == e + 1);
            assert(dict_named(c) == 3 * x);
            assert(dict_named(b) == 2 * pow2(e + 1));
        }
    }
    if a < c {
        lemma_named_grows(a, c);
    }
}

/// The sizes that are named start with four and six KiB, and every other one is
/// twice as large, up to all that 32 bits can say.
pub proof fn lemma_named_doubles(prop: u8)
    ensures
        dict_named(0) == 4096,
        dict_named(1) == 4096 + 2048,
        prop < 38 ==> dict_named((prop + 2) as u8) == 2 * dict_named(prop),
        prop >= 40 ==> dict_named(prop) == 0xFFFF_FFFF,
{
    lemma2_to64();
    assert(0u8 as int / 2 + 11 == 11 && 1u8 as int / 2 + 11 == 11);
    assert(dict_named(0) == 2 * pow2(11));
    assert(dict_named(1) == 3 * pow2(11));
    if prop < 38 {
        let next = (prop + 2) as u8;
        let e = (prop as int / 2 + 11) as nat;
        lemma_pow2_unfold(e + 1);
        assert((next as int / 2 + 11) as nat == e + 1);
        assert(next as int % 2 == prop as int % 2);
        if prop as int % 2 == 0 {
            assert(dict_named(prop) == 2 * pow2(e));
            assert(dict_named(next) == 2 * pow2(e + 1));
        } else {
            assert(dict_named(prop) == 3 * pow2(e));
            assert(dict_named(next) == 3 * pow2(e + 1));
        }
    }
}

/// The property byte of the smallest dictionary that has `dict_size` bytes.
pub open spec fn names_least(prop: u8, dict_size: int) -> bool {
    &&& prop <= DICT_PROP_MAX
    &&& dict_named(prop) >= dict_size
    &&& forall|q: u8| q < prop ==> #[trigger] dict_named(q) < dict_size
}

/// Every size that is named leads back to its property byte, and a larger size never
/// to a smaller one.
pub proof fn lemma_dict_prop_leads_back(prop: u8, other: u8, dict_size: int, larger: int)
    ensures
        prop <= 40 && names_least(other, dict_named(prop)) ==> other == prop,
        names_least(prop, dict_size) && names_least(other, larger) && dict_size <= larger ==> prop
            <= other,
{
    if prop <= 40 && names_least(other, dict_named(prop)) {
        if other < prop {
            lemma_named_grows(other, prop);
        }
        if prop < other {
            assert(dict_named(prop) < dict_named(prop));
        }
    }
    if names_least(prop, dict_size) && names_least(other, larger) && other < prop {
        assert(dict_named(other) < dict_size);
    }
}

/// The LZMA2 property byte for a dictionary of at least `dict_size` bytes: the
/// smallest size that the format can name and that is large enough.
pub fn lzma2_dict_prop(dict_size: u32) -> (prop: u8)
    ensures
        names_least(prop, dict_size as int),
{
    let mut prop: u8 = 0;
    while prop < DICT_PROP_MAX
        invariant
            prop <= DICT_PROP_MAX,
            forall|q: u8| q < prop ==> #[trigger] dict_named(q) < dict_size,
        decreases DICT_PROP_MAX - prop,
    {
        if lzma2_dict_size(prop) >= dict_size {
            return prop;
        }
        prop = prop + 1;
    }
    prop
}

/// There is one property byte for each size, and the size that it names leads
/// back to it.
pub proof fn lemma_dict_prop_is_exact(prop: u8, other: u8, dict_size: int)
    requires
        names_least(prop, dict_size),
    ensures
        names_least(other, dict_size) ==> other == prop,
        names_least(prop, dict_named(prop)),
        dict_named(prop) >= dict_size,
        other < prop ==> dict_named(other) < dict_size,
{
    if names_least(other, dict_size) && other < prop {
        assert(dict_named(other) < dict_size);
    }
    if names_least(other, dict_size) && prop < other {
        assert(dict_named(prop) < dict_size);
    }
    assert forall|q: u8| q < prop implies #[trigger] dict_named(q) < dict_named(prop) by {
        lemma_named_grows(q, prop);
    }
}

} // verus!
