//! The flags word of a sample in a fragment.
use vstd::arithmetic::div_mod::lemma_div_denominator;
use vstd::prelude::*;

verus! {

/// Clear in the flags word of a sample that decoding can start at.
pub const SAMPLE_IS_NON_SYNC: u32 = 0x0001_0000;

/// The flags of a sample in a fragment.
#[derive(Clone, Copy, Debug, Default, PartialEq, Eq)]
pub struct SampleFlags {
    pub is_leading: u8,
    pub sample_depends_on: u8,
    pub sample_is_depended_on: u8,
    pub sample_has_redundancy: u8,
    pub sample_padding_value: u8,
    pub sample_is_non_sync_sample: bool,
    pub sample_degradation_priority: u16,
}

impl SampleFlags {
    /// The flags that a word packs: behind four reserved bits come four fields of two bits, one of
    /// three bits, one bit and one field of sixteen bits.
    pub open spec fn of(raw: u32) -> SampleFlags {
        SampleFlags {
            is_leading: (raw / 0x400_0000 % 4) as u8,
            sample_depends_on: (raw / 0x100_0000 % 4) as u8,
            sample_is_depended_on: (raw / 0x40_0000 % 4) as u8,
            sample_has_redundancy: (raw / 0x10_0000 % 4) as u8,
            sample_padding_value: (raw / 0x2_0000 % 8) as u8,
            sample_is_non_sync_sample: raw / 0x1_0000 % 2 == 1,
            sample_degradation_priority: (raw % 0x1_0000) as u16,
        }
    }

    /// The word that packs the flags; of each field the low bits count.
    pub open spec fn word(self) -> u32 {
        (self.is_leading as int % 4 * 0x400_0000 + self.sample_depends_on as int % 4 * 0x100_0000
            + self.sample_is_depended_on as int % 4 * 0x40_0000 + self.sample_has_redundancy as int % 4 * 0x10_0000
            + self.sample_padding_value as int % 8 * 0x2_0000 + (if self.sample_is_non_sync_sample {
            0x1_0000int
        } else {
            0
        }) + self.sample_degradation_priority as int) as u32
    }

    /// The flags with each field cut to the bits that the word has for it.
    pub open spec fn masked(self) -> SampleFlags {
        SampleFlags {
            is_leading: self.is_leading % 4,
            sample_depends_on: self.sample_depends_on % 4,
            sample_is_depended_on: self.sample_is_depended_on % 4,
            sample_has_redundancy: self.sample_has_redundancy % 4,
            sample_padding_value: self.sample_padding_value % 8,
            ..self
        }
    }

    /// Whether every field is within the bits that the word has for it.
    pub open spec fn in_range(self) -> bool {
        &&& self.is_leading < 4
        &&& self.sample_depends_on < 4
        &&& self.sample_is_depended_on < 4
        &&& self.sample_has_redundancy < 4
        &&& self.sample_padding_value < 8
    }

    /// Unpacks a flags word.
    pub fn from_u32(raw: u32) -> (f: Self)
        ensures
            f == SampleFlags::of(raw),
    {
        SampleFlags {
            is_leading: (raw / 0x400_0000 % 4) as u8,
            sample_depends_on: (raw / 0x100_0000 % 4) as u8,
            sample_is_depended_on: (raw / 0x40_0000 % 4) as u8,
            sample_has_redundancy: (raw / 0x10_0000 % 4) as u8,
            sample_padding_value: (raw / 0x2_0000 % 8) as u8,
            sample_is_non_sync_sample: raw / 0x1_0000 % 2 == 1,
            sample_degradation_priority: (raw % 0x1_0000) as u16,
        }
    }

    /// Packs the flags into a word.
    pub fn to_u32(self) -> (raw: u32)
        ensures
            raw == self.word(),
    {
        let sync: u32 = if self.sample_is_non_sync_sample { SAMPLE_IS_NON_SYNC } else { 0 };
        (self.is_leading as u32) % 4 * 0x400_0000 + (self.sample_depends_on as u32) % 4 * 0x100_0000
            + (self.sample_is_depended_on as u32) % 4 * 0x40_0000 + (self.sample_has_redundancy as u32) % 4 * 0x10_0000
            + (self.sample_padding_value as u32) % 8 * 0x2_0000 + sync + self.sample_degradation_priority as u32
    }

    /// Whether decoding can start at the sample.
    pub fn is_sync_sample(self) -> (r: bool)
        ensures
            r == !self.sample_is_non_sync_sample,
    {
        !self.sample_is_non_sync_sample
    }
}

/// Unpacks a flags word.
pub fn parse_sample_flags(raw: u32) -> (f: SampleFlags)
    ensures
        f == SampleFlags::of(raw),
{
    SampleFlags::from_u32(raw)
}

/// Dividing in steps comes to the same as dividing at once.
proof fn lemma_steps(x: int)
    requires
        0 <= x,
    ensures
        x / 0x2_0000 == x / 0x1_0000 / 2,
        x / 0x10_0000 == x / 0x2_0000 / 8,
        x / 0x40_0000 == x / 0x10_0000 / 4,
        x / 0x100_0000 == x / 0x40_0000 / 4,
        x / 0x400_0000 == x / 0x100_0000 / 4,
        x / 0x1000_0000 == x / 0x400_0000 / 4,
{
    lemma_div_denominator(x, 0x1_0000, 2);
    lemma_div_denominator(x, 0x2_0000, 8);
    lemma_div_denominator(x, 0x10_0000, 4);
    lemma_div_denominator(x, 0x40_0000, 4);
    lemma_div_denominator(x, 0x100_0000, 4);
    lemma_div_denominator(x, 0x400_0000, 4);
}

/// Packing what was unpacked gives the word back, but for its four reserved bits.
pub proof fn law_word_of(raw: u32)
    ensures
        SampleFlags::of(raw).word() == raw % 0x1000_0000,
        SampleFlags::of(raw).in_range(),
{
    let x = raw as int;
    lemma_steps(x);
    let q0 = x / 0x1_0000;
    let q1 = x / 0x2_0000;
    let q2 = x / 0x10_0000;
    let q3 = x / 0x40_0000;
    let q4 = x / 0x100_0000;
    let q5 = x / 0x400_0000;
    let q6 = x / 0x1000_0000;
    assert(x == 0x1_0000 * q0 + x % 0x1_0000);
    assert(q0 == 2 * q1 + q0 % 2);
    assert(q1 == 8 * q2 + q1 % 8);
    assert(q2 == 4 * q3 + q2 % 4);
    assert(q3 == 4 * q4 + q3 % 4);
    assert(q4 == 4 * q5 + q4 % 4);
    assert(q5 == 4 * q6 + q5 % 4);
    assert(x % 0x1000_0000 == x - 0x1000_0000 * q6);
}

/// Unpacking what was packed gives each field back as far as the word has bits for it, so no field
/// reaches into another; where every field is in range it gives the flags back.
pub proof fn law_of_word(f: SampleFlags)
    ensures
        SampleFlags::of(f.word()) == f.masked(),
        f.in_range() ==> SampleFlags::of(f.word()) == f,
{
    let n5 = f.is_leading as int % 4;
    let n4 = f.sample_depends_on as int % 4 + 4 * n5;
    let n3 = f.sample_is_depended_on as int % 4 + 4 * n4;
    let n2 = f.sample_has_redundancy as int % 4 + 4 * n3;
    let n1 = f.sample_padding_value as int % 8 + 8 * n2;
    let n0 = (if f.sample_is_non_sync_sample { 1int } else { 0int }) + 2 * n1;
    let x = f.word() as int;
    assert(x == f.sample_degradation_priority + 0x1_0000 * n0);
    lemma_steps(x);
    assert(x / 0x1_0000 == n0);
    assert(x / 0x2_0000 == n1);
    assert(x / 0x10_0000 == n2);
    assert(x / 0x40_0000 == n3);
    assert(x / 0x100_0000 == n4);
    assert(x / 0x400_0000 == n5);
}

}
