//! The closed set of extension metadata block variants: payload layout,
//! level discriminants, canonical sort keys and byte lengths.

use vstd::prelude::*;

use crate::bits::{
    be_bits, be_val, bits_of_bytes, lemma_be_bits_len, lemma_be_bits_be_val, lemma_be_bits_zero,
    lemma_be_val_be_bits, lemma_be_val_bound, lemma_pow2_64, pow2, zero_bits, BitstreamReader,
    BitstreamWriter,
};
use crate::{spec_level_allowed, CmVersion, MetadataError};

verus! {

/// Level 1: scene brightness statistics, 12-bit perceptual-quantizer codes.
#[derive(Clone, Copy, Debug, PartialEq, Eq, Structural)]
pub struct ExtMetadataBlockLevel1 {
    pub min_pq: u16,
    pub max_pq: u16,
    pub avg_pq: u16,
}

/// Level 2: trim pass for one target display, 12-bit codes and a 13-bit
/// multi-segment weight code.
#[derive(Clone, Copy, Debug, PartialEq, Eq, Structural)]
pub struct ExtMetadataBlockLevel2 {
    pub target_max_pq: u16,
    pub trim_slope: u16,
    pub trim_offset: u16,
    pub trim_power: u16,
    pub trim_chroma_weight: u16,
    pub trim_saturation_gain: u16,
    pub ms_weight: u16,
}

/// Level 3: offsets to the level 1 statistics; legal only in version 4.0.
#[derive(Clone, Copy, Debug, PartialEq, Eq, Structural)]
pub struct ExtMetadataBlockLevel3 {
    pub min_pq_offset: u16,
    pub max_pq_offset: u16,
    pub avg_pq_offset: u16,
}

/// Level 5: active-area offsets, 13 bits each.
#[derive(Clone, Copy, Debug, PartialEq, Eq, Structural)]
pub struct ExtMetadataBlockLevel5 {
    pub active_area_left_offset: u16,
    pub active_area_right_offset: u16,
    pub active_area_top_offset: u16,
    pub active_area_bottom_offset: u16,
}

/// Level 6: static content light level and mastering display luminance.
#[derive(Clone, Copy, Debug, PartialEq, Eq, Structural)]
pub struct ExtMetadataBlockLevel6 {
    pub max_display_mastering_luminance: u16,
    pub min_display_mastering_luminance: u16,
    pub max_content_light_level: u16,
    pub max_frame_average_light_level: u16,
}

/// One extension metadata block, tagged by its wire level.
#[derive(Clone, Copy, Debug, PartialEq, Eq, Structural)]
pub enum ExtMetadataBlock {
    Level1(ExtMetadataBlockLevel1),
    Level2(ExtMetadataBlockLevel2),
    Level3(ExtMetadataBlockLevel3),
    Level5(ExtMetadataBlockLevel5),
    Level6(ExtMetadataBlockLevel6),
}

pub proof fn lemma_pow2_small()
    ensures
        pow2(4) == 16,
        pow2(8) == 256,
        pow2(12) == 4096,
        pow2(13) == 8192,
        pow2(16) == 65536,
        pow2(32) == 0x100000000,
{
    reveal_with_fuel(pow2, 33);
}

/// A value clamped into the 12-bit code range.
pub open spec fn clamp12(x: u16) -> u16 {
    if x > 4095 {
        4095
    } else {
        x
    }
}

impl ExtMetadataBlockLevel1 {
    /// A scene brightness block from quantized statistics, clamped into the
    /// 12-bit code range. The version names the averaging convention that
    /// produced `avg_pq`; the stored codes are the same for both versions.
    pub fn from_stats_cm_version(min_pq: u16, max_pq: u16, avg_pq: u16, _cm_version: crate::CmVersion) -> (r:
        Self)
        ensures
            r.min_pq == clamp12(min_pq),
            r.max_pq == clamp12(max_pq),
            r.avg_pq == clamp12(avg_pq),
            ExtMetadataBlock::Level1(r).valid(),
    {
        ExtMetadataBlockLevel1 {
            min_pq: if min_pq > 4095 {
                4095
            } else {
                min_pq
            },
            max_pq: if max_pq > 4095 {
                4095
            } else {
                max_pq
            },
            avg_pq: if avg_pq > 4095 {
                4095
            } else {
                avg_pq
            },
        }
    }
}

impl ExtMetadataBlock {
    /// The wire discriminant of the block.
    pub open spec fn spec_level(&self) -> u8 {
        match self {
            ExtMetadataBlock::Level1(_) => 1,
            ExtMetadataBlock::Level2(_) => 2,
            ExtMetadataBlock::Level3(_) => 3,
            ExtMetadataBlock::Level5(_) => 5,
            ExtMetadataBlock::Level6(_) => 6,
        }
    }

    /// The payload byte length used as the wire length prefix.
    pub open spec fn spec_length_bytes(&self) -> u16 {
        match self {
            ExtMetadataBlock::Level1(_) => 5,
            ExtMetadataBlock::Level2(_) => 11,
            ExtMetadataBlock::Level3(_) => 5,
            ExtMetadataBlock::Level5(_) => 7,
            ExtMetadataBlock::Level6(_) => 8,
        }
    }

    /// The canonical output rank of the block: a fixed total order over the
    /// level set, a function of the level alone.
    pub open spec fn spec_sort_key(&self) -> u8 {
        self.spec_level()
    }

    /// Every payload field fits its wire width.
    pub open spec fn valid(&self) -> bool {
        match self {
            ExtMetadataBlock::Level1(b) => b.min_pq < 4096 && b.max_pq < 4096 && b.avg_pq < 4096,
            ExtMetadataBlock::Level2(b) => b.target_max_pq < 4096 && b.trim_slope < 4096
                && b.trim_offset < 4096 && b.trim_power < 4096 && b.trim_chroma_weight < 4096
                && b.trim_saturation_gain < 4096 && b.ms_weight < 8192,
            ExtMetadataBlock::Level3(b) => b.min_pq_offset < 4096 && b.max_pq_offset < 4096
                && b.avg_pq_offset < 4096,
            ExtMetadataBlock::Level5(b) => b.active_area_left_offset < 8192
                && b.active_area_right_offset < 8192 && b.active_area_top_offset < 8192
                && b.active_area_bottom_offset < 8192,
            ExtMetadataBlock::Level6(_) => true,
        }
    }

    /// The payload bit string: the fields in wire order, then zero padding to
    /// a whole number of bytes.
    pub open spec fn payload_bits(&self) -> Seq<bool> {
        match self {
            ExtMetadataBlock::Level1(b) => be_bits(b.min_pq as nat, 12) + be_bits(
                b.max_pq as nat,
                12,
            ) + be_bits(b.avg_pq as nat, 12) + zero_bits(4),
            ExtMetadataBlock::Level2(b) => be_bits(b.target_max_pq as nat, 12) + be_bits(
                b.trim_slope as nat,
                12,
            ) + be_bits(b.trim_offset as nat, 12) + be_bits(b.trim_power as nat, 12) + be_bits(
                b.trim_chroma_weight as nat,
                12,
            ) + be_bits(b.trim_saturation_gain as nat, 12) + be_bits(b.ms_weight as nat, 13)
                + zero_bits(3),
            ExtMetadataBlock::Level3(b) => be_bits(b.min_pq_offset as nat, 12) + be_bits(
                b.max_pq_offset as nat,
                12,
            ) + be_bits(b.avg_pq_offset as nat, 12) + zero_bits(4),
            ExtMetadataBlock::Level5(b) => be_bits(b.active_area_left_offset as nat, 13) + be_bits(
                b.active_area_right_offset as nat,
                13,
            ) + be_bits(b.active_area_top_offset as nat, 13) + be_bits(
                b.active_area_bottom_offset as nat,
                13,
            ) + zero_bits(4),
            ExtMetadataBlock::Level6(b) => be_bits(b.max_display_mastering_luminance as nat, 16)
                + be_bits(b.min_display_mastering_luminance as nat, 16) + be_bits(
                b.max_content_light_level as nat,
                16,
            ) + be_bits(b.max_frame_average_light_level as nat, 16),
        }
    }

    pub fn level(&self) -> (r: u8)
        ensures
            r == self.spec_level(),
    {
        match self {
            ExtMetadataBlock::Level1(_) => 1,
            ExtMetadataBlock::Level2(_) => 2,
            ExtMetadataBlock::Level3(_) => 3,
            ExtMetadataBlock::Level5(_) => 5,
            ExtMetadataBlock::Level6(_) => 6,
        }
    }

    /// The payload byte length written into the 32-bit wire length prefix.
    pub fn length_bytes(&self) -> (r: u16)
        ensures
            r == self.spec_length_bytes(),
    {
        match self {
            ExtMetadataBlock::Level1(_) => 5,
            ExtMetadataBlock::Level2(_) => 11,
            ExtMetadataBlock::Level3(_) => 5,
            ExtMetadataBlock::Level5(_) => 7,
            ExtMetadataBlock::Level6(_) => 8,
        }
    }

    /// The canonical output rank; blocks are written sorted by this key.
    pub fn sort_key(&self) -> (r: u8)
        ensures
            r == self.spec_sort_key(),
    {
        self.level()
    }

    pub fn is_valid(&self) -> (r: bool)
        ensures
            r == self.valid(),
    {
        match self {
            ExtMetadataBlock::Level1(b) => b.min_pq < 4096 && b.max_pq < 4096 && b.avg_pq < 4096,
            ExtMetadataBlock::Level2(b) => b.target_max_pq < 4096 && b.trim_slope < 4096
                && b.trim_offset < 4096 && b.trim_power < 4096 && b.trim_chroma_weight < 4096
                && b.trim_saturation_gain < 4096 && b.ms_weight < 8192,
            ExtMetadataBlock::Level3(b) => b.min_pq_offset < 4096 && b.max_pq_offset < 4096
                && b.avg_pq_offset < 4096,
            ExtMetadataBlock::Level5(b) => b.active_area_left_offset < 8192
                && b.active_area_right_offset < 8192 && b.active_area_top_offset < 8192
                && b.active_area_bottom_offset < 8192,
            ExtMetadataBlock::Level6(_) => true,
        }
    }

    /// Write the payload bits, fields in wire order then zero padding.
    pub fn write(&self, w: &mut BitstreamWriter)
        requires
            self.valid(),
        ensures
            final(w).bits() == old(w).bits() + self.payload_bits(),
    {
        proof {
            lemma_pow2_small();
        }
        match self {
            ExtMetadataBlock::Level1(b) => {
                w.write_var64(b.min_pq as u64, 12);
                w.write_var64(b.max_pq as u64, 12);
                w.write_var64(b.avg_pq as u64, 12);
                w.write_var64(0, 4);
                proof {
                    lemma_be_bits_zero(4);
                    assert(w.bits() =~= old(w).bits() + self.payload_bits());
                }
            },
            ExtMetadataBlock::Level2(b) => {
                w.write_var64(b.target_max_pq as u64, 12);
                w.write_var64(b.trim_slope as u64, 12);
                w.write_var64(b.trim_offset as u64, 12);
                w.write_var64(b.trim_power as u64, 12);
                w.write_var64(b.trim_chroma_weight as u64, 12);
                w.write_var64(b.trim_saturation_gain as u64, 12);
                w.write_var64(b.ms_weight as u64, 13);
                w.write_var64(0, 3);
                proof {
                    lemma_be_bits_zero(3);
                    assert(w.bits() =~= old(w).bits() + self.payload_bits());
                }
            },
            ExtMetadataBlock::Level3(b) => {
                w.write_var64(b.min_pq_offset as u64, 12);
                w.write_var64(b.max_pq_offset as u64, 12);
                w.write_var64(b.avg_pq_offset as u64, 12);
                w.write_var64(0, 4);
                proof {
                    lemma_be_bits_zero(4);
                    assert(w.bits() =~= old(w).bits() + self.payload_bits());
                }
            },
            ExtMetadataBlock::Level5(b) => {
                w.write_var64(b.active_area_left_offset as u64, 13);
                w.write_var64(b.active_area_right_offset as u64, 13);
                w.write_var64(b.active_area_top_offset as u64, 13);
                w.write_var64(b.active_area_bottom_offset as u64, 13);
                w.write_var64(0, 4);
                proof {
                    lemma_be_bits_zero(4);
                    assert(w.bits() =~= old(w).bits() + self.payload_bits());
                }
            },
            ExtMetadataBlock::Level6(b) => {
                w.write_var64(b.max_display_mastering_luminance as u64, 16);
                w.write_var64(b.min_display_mastering_luminance as u64, 16);
                w.write_var64(b.max_content_light_level as u64, 16);
                w.write_var64(b.max_frame_average_light_level as u64, 16);
                proof {
                    assert(w.bits() =~= old(w).bits() + self.payload_bits());
                }
            },
        }
    }
}

/// The payload occupies exactly the advertised number of bytes.
pub proof fn lemma_payload_len(b: ExtMetadataBlock)
    ensures
        b.payload_bits().len() == 8 * b.spec_length_bytes(),
{
    match b {
        ExtMetadataBlock::Level1(x) => {
            lemma_be_bits_len(x.min_pq as nat, 12);
            lemma_be_bits_len(x.max_pq as nat, 12);
            lemma_be_bits_len(x.avg_pq as nat, 12);
        },
        ExtMetadataBlock::Level2(x) => {
            lemma_be_bits_len(x.target_max_pq as nat, 12);
            lemma_be_bits_len(x.trim_slope as nat, 12);
            lemma_be_bits_len(x.trim_offset as nat, 12);
            lemma_be_bits_len(x.trim_power as nat, 12);
            lemma_be_bits_len(x.trim_chroma_weight as nat, 12);
            lemma_be_bits_len(x.trim_saturation_gain as nat, 12);
            lemma_be_bits_len(x.ms_weight as nat, 13);
        },
        ExtMetadataBlock::Level3(x) => {
            lemma_be_bits_len(x.min_pq_offset as nat, 12);
            lemma_be_bits_len(x.max_pq_offset as nat, 12);
            lemma_be_bits_len(x.avg_pq_offset as nat, 12);
        },
        ExtMetadataBlock::Level5(x) => {
            lemma_be_bits_len(x.active_area_left_offset as nat, 13);
            lemma_be_bits_len(x.active_area_right_offset as nat, 13);
            lemma_be_bits_len(x.active_area_top_offset as nat, 13);
            lemma_be_bits_len(x.active_area_bottom_offset as nat, 13);
        },
        ExtMetadataBlock::Level6(x) => {
            lemma_be_bits_len(x.max_display_mastering_luminance as nat, 16);
            lemma_be_bits_len(x.min_display_mastering_luminance as nat, 16);
            lemma_be_bits_len(x.max_content_light_level as nat, 16);
            lemma_be_bits_len(x.max_frame_average_light_level as nat, 16);
        },
    }
}

/// A block as it stands on the wire: 32-bit length, 8-bit level, payload.
pub open spec fn block_bits(b: ExtMetadataBlock) -> Seq<bool> {
    be_bits(b.spec_length_bytes() as nat, 32) + be_bits(b.spec_level() as nat, 8)
        + b.payload_bits()
}

/// A block's wire form is its payload plus the five header bytes.
pub proof fn lemma_block_bits_len(b: ExtMetadataBlock)
    ensures
        block_bits(b).len() == 8 * (5 + b.spec_length_bytes() as nat),
{
    lemma_be_bits_len(b.spec_length_bytes() as nat, 32);
    lemma_be_bits_len(b.spec_level() as nat, 8);
    lemma_payload_len(b);
}

/// The value of the `n` bits at `pos`.
pub open spec fn bfield(bits: Seq<bool>, pos: nat, n: nat) -> nat {
    be_val(bits.subrange(pos as int, (pos + n) as int))
}

pub open spec fn spec_parse_l1(bits: Seq<bool>, p: nat, blen: nat) -> Option<
    (ExtMetadataBlock, nat),
> {
    if blen == 5 && p + 40 <= bits.len() && bits.subrange((p + 36) as int, (p + 40) as int)
        == zero_bits(4) {
        Some(
            (
                ExtMetadataBlock::Level1(
                    ExtMetadataBlockLevel1 {
                        min_pq: bfield(bits, p, 12) as u16,
                        max_pq: bfield(bits, (p + 12) as nat, 12) as u16,
                        avg_pq: bfield(bits, (p + 24) as nat, 12) as u16,
                    },
                ),
                (p + 40) as nat,
            ),
        )
    } else {
        None
    }
}

pub open spec fn spec_parse_l2(bits: Seq<bool>, p: nat, blen: nat) -> Option<
    (ExtMetadataBlock, nat),
> {
    if blen == 11 && p + 88 <= bits.len() && bits.subrange((p + 85) as int, (p + 88) as int)
        == zero_bits(3) {
        Some(
            (
                ExtMetadataBlock::Level2(
                    ExtMetadataBlockLevel2 {
                        target_max_pq: bfield(bits, p, 12) as u16,
                        trim_slope: bfield(bits, (p + 12) as nat, 12) as u16,
                        trim_offset: bfield(bits, (p + 24) as nat, 12) as u16,
                        trim_power: bfield(bits, (p + 36) as nat, 12) as u16,
                        trim_chroma_weight: bfield(bits, (p + 48) as nat, 12) as u16,
                        trim_saturation_gain: bfield(bits, (p + 60) as nat, 12) as u16,
                        ms_weight: bfield(bits, (p + 72) as nat, 13) as u16,
                    },
                ),
                (p + 88) as nat,
            ),
        )
    } else {
        None
    }
}

pub open spec fn spec_parse_l3(bits: Seq<bool>, p: nat, blen: nat) -> Option<
    (ExtMetadataBlock, nat),
> {
    if blen == 5 && p + 40 <= bits.len() && bits.subrange((p + 36) as int, (p + 40) as int)
        == zero_bits(4) {
        Some(
            (
                ExtMetadataBlock::Level3(
                    ExtMetadataBlockLevel3 {
                        min_pq_offset: bfield(bits, p, 12) as u16,
                        max_pq_offset: bfield(bits, (p + 12) as nat, 12) as u16,
                        avg_pq_offset: bfield(bits, (p + 24) as nat, 12) as u16,
                    },
                ),
                (p + 40) as nat,
            ),
        )
    } else {
        None
    }
}

pub open spec fn spec_parse_l5(bits: Seq<bool>, p: nat, blen: nat) -> Option<
    (ExtMetadataBlock, nat),
> {
    if blen == 7 && p + 56 <= bits.len() && bits.subrange((p + 52) as int, (p + 56) as int)
        == zero_bits(4) {
        Some(
            (
                ExtMetadataBlock::Level5(
                    ExtMetadataBlockLevel5 {
                        active_area_left_offset: bfield(bits, p, 13) as u16,
                        active_area_right_offset: bfield(bits, (p + 13) as nat, 13) as u16,
                        active_area_top_offset: bfield(bits, (p + 26) as nat, 13) as u16,
                        active_area_bottom_offset: bfield(bits, (p + 39) as nat, 13) as u16,
                    },
                ),
                (p + 56) as nat,
            ),
        )
    } else {
        None
    }
}

pub open spec fn spec_parse_l6(bits: Seq<bool>, p: nat, blen: nat) -> Option<
    (ExtMetadataBlock, nat),
> {
    if blen == 8 && p + 64 <= bits.len() {
        Some(
            (
                ExtMetadataBlock::Level6(
                    ExtMetadataBlockLevel6 {
                        max_display_mastering_luminance: bfield(bits, p, 16) as u16,
                        min_display_mastering_luminance: bfield(bits, (p + 16) as nat, 16) as u16,
                        max_content_light_level: bfield(bits, (p + 32) as nat, 16) as u16,
                        max_frame_average_light_level: bfield(bits, (p + 48) as nat, 16) as u16,
                    },
                ),
                (p + 64) as nat,
            ),
        )
    } else {
        None
    }
}

/// The block encoded at `pos`: a 32-bit length prefix that must equal the
/// level's payload size, an 8-bit level that must be legal for the version,
/// the payload fields, and zero padding bits.
pub open spec fn spec_parse_block(v: CmVersion, bits: Seq<bool>, pos: nat) -> Option<
    (ExtMetadataBlock, nat),
> {
    if pos + 40 > bits.len() {
        None
    } else {
        let blen = bfield(bits, pos, 32);
        let level = bfield(bits, (pos + 32) as nat, 8);
        let p = (pos + 40) as nat;
        if !spec_level_allowed(v, level as u8) {
            None
        } else if level == 1 {
            spec_parse_l1(bits, p, blen)
        } else if level == 2 {
            spec_parse_l2(bits, p, blen)
        } else if level == 3 {
            spec_parse_l3(bits, p, blen)
        } else if level == 5 {
            spec_parse_l5(bits, p, blen)
        } else if level == 6 {
            spec_parse_l6(bits, p, blen)
        } else {
            None
        }
    }
}

/// Values read back from a zero bit string are zero, and conversely.
pub proof fn lemma_be_val_zero_iff(s: Seq<bool>)
    ensures
        be_val(s) == 0 <==> s == zero_bits(s.len()),
{
    lemma_be_bits_be_val(s);
    lemma_be_bits_zero(s.len());
    if s == zero_bits(s.len()) {
        crate::bits::lemma_pow2_pos(s.len());
        lemma_be_val_be_bits(0, s.len());
    }
}

/// Level 1 of the wire layout, parsed field by field.
fn parse_l1(r: &mut BitstreamReader, blen: u64) -> (res: Result<ExtMetadataBlock, MetadataError>)
    requires
        old(r).pos() <= old(r).bits().len(),
    ensures
        final(r).bits() == old(r).bits(),
        final(r).pos() <= final(r).bits().len(),
        match res {
            Ok(b) => spec_parse_l1(old(r).bits(), old(r).pos(), blen as nat) == Some(
                (b, final(r).pos()),
            ) && b.valid(),
            Err(e) => e == MetadataError::MalformedStream && spec_parse_l1(
                old(r).bits(),
                old(r).pos(),
                blen as nat,
            ) is None,
        },
{
    let ghost bits = r.bits();
    let ghost p = r.pos();
    if blen != 5 {
        return Err(MetadataError::MalformedStream);
    }
    let avail = r.available();
    if avail < 40 {
        return Err(MetadataError::MalformedStream);
    }
    proof {
        lemma_pow2_small();
    }
    let min = r.read_var64(12);
    let max = r.read_var64(12);
    let avg = r.read_var64(12);
    let pad = r.read_var64(4);
    proof {
        lemma_be_val_zero_iff(bits.subrange((p + 36) as int, (p + 40) as int));
    }
    if pad != 0 {
        return Err(MetadataError::MalformedStream);
    }
    proof {
        lemma_be_val_bound(bits.subrange(p as int, (p + 12) as int));
        lemma_be_val_bound(bits.subrange((p + 12) as int, (p + 24) as int));
        lemma_be_val_bound(bits.subrange((p + 24) as int, (p + 36) as int));
    }
    Ok(
        ExtMetadataBlock::Level1(
            ExtMetadataBlockLevel1 { min_pq: min as u16, max_pq: max as u16, avg_pq: avg as u16 },
        ),
    )
}

/// Level 2 of the wire layout, parsed field by field.
fn parse_l2(r: &mut BitstreamReader, blen: u64) -> (res: Result<ExtMetadataBlock, MetadataError>)
    requires
        old(r).pos() <= old(r).bits().len(),
    ensures
        final(r).bits() == old(r).bits(),
        final(r).pos() <= final(r).bits().len(),
        match res {
            Ok(b) => spec_parse_l2(old(r).bits(), old(r).pos(), blen as nat) == Some(
                (b, final(r).pos()),
            ) && b.valid(),
            Err(e) => e == MetadataError::MalformedStream && spec_parse_l2(
                old(r).bits(),
                old(r).pos(),
                blen as nat,
            ) is None,
        },
{
    let ghost bits = r.bits();
    let ghost p = r.pos();
    if blen != 11 {
        return Err(MetadataError::MalformedStream);
    }
    let avail = r.available();
    if avail < 88 {
        return Err(MetadataError::MalformedStream);
    }
    proof {
        lemma_pow2_small();
    }
    let target_max_pq = r.read_var64(12);
    let trim_slope = r.read_var64(12);
    let trim_offset = r.read_var64(12);
    let trim_power = r.read_var64(12);
    let trim_chroma_weight = r.read_var64(12);
    let trim_saturation_gain = r.read_var64(12);
    let ms_weight = r.read_var64(13);
    let pad = r.read_var64(3);
    proof {
        lemma_be_val_zero_iff(bits.subrange((p + 85) as int, (p + 88) as int));
    }
    if pad != 0 {
        return Err(MetadataError::MalformedStream);
    }
    proof {
        lemma_be_val_bound(bits.subrange(p as int, (p + 12) as int));
        lemma_be_val_bound(bits.subrange((p + 12) as int, (p + 24) as int));
        lemma_be_val_bound(bits.subrange((p + 24) as int, (p + 36) as int));
        lemma_be_val_bound(bits.subrange((p + 36) as int, (p + 48) as int));
        lemma_be_val_bound(bits.subrange((p + 48) as int, (p + 60) as int));
        lemma_be_val_bound(bits.subrange((p + 60) as int, (p + 72) as int));
        lemma_be_val_bound(bits.subrange((p + 72) as int, (p + 85) as int));
    }
    Ok(
        ExtMetadataBlock::Level2(
            ExtMetadataBlockLevel2 {
                target_max_pq: target_max_pq as u16,
                trim_slope: trim_slope as u16,
                trim_offset: trim_offset as u16,
                trim_power: trim_power as u16,
                trim_chroma_weight: trim_chroma_weight as u16,
                trim_saturation_gain: trim_saturation_gain as u16,
                ms_weight: ms_weight as u16,
            },
        ),
    )
}

/// Level 3 of the wire layout, parsed field by field.
fn parse_l3(r: &mut BitstreamReader, blen: u64) -> (res: Result<ExtMetadataBlock, MetadataError>)
    requires
        old(r).pos() <= old(r).bits().len(),
    ensures
        final(r).bits() == old(r).bits(),
        final(r).pos() <= final(r).bits().len(),
        match res {
            Ok(b) => spec_parse_l3(old(r).bits(), old(r).pos(), blen as nat) == Some(
                (b, final(r).pos()),
            ) && b.valid(),
            Err(e) => e == MetadataError::MalformedStream && spec_parse_l3(
                old(r).bits(),
                old(r).pos(),
                blen as nat,
            ) is None,
        },
{
    let ghost bits = r.bits();
    let ghost p = r.pos();
    if blen != 5 {
        return Err(MetadataError::MalformedStream);
    }
    let avail = r.available();
    if avail < 40 {
        return Err(MetadataError::MalformedStream);
    }
    proof {
        lemma_pow2_small();
    }
    let min = r.read_var64(12);
    let max = r.read_var64(12);
    let avg = r.read_var64(12);
    let pad = r.read_var64(4);
    proof {
        lemma_be_val_zero_iff(bits.subrange((p + 36) as int, (p + 40) as int));
    }
    if pad != 0 {
        return Err(MetadataError::MalformedStream);
    }
    proof {
        lemma_be_val_bound(bits.subrange(p as int, (p + 12) as int));
        lemma_be_val_bound(bits.subrange((p + 12) as int, (p + 24) as int));
        lemma_be_val_bound(bits.subrange((p + 24) as int, (p + 36) as int));
    }
    Ok(
        ExtMetadataBlock::Level3(
            ExtMetadataBlockLevel3 {
                min_pq_offset: min as u16,
                max_pq_offset: max as u16,
                avg_pq_offset: avg as u16,
            },
        ),
    )
}

/// Level 5 of the wire layout, parsed field by field.
fn parse_l5(r: &mut BitstreamReader, blen: u64) -> (res: Result<ExtMetadataBlock, MetadataError>)
    requires
        old(r).pos() <= old(r).bits().len(),
    ensures
        final(r).bits() == old(r).bits(),
        final(r).pos() <= final(r).bits().len(),
        match res {
            Ok(b) => spec_parse_l5(old(r).bits(), old(r).pos(), blen as nat) == Some(
                (b, final(r).pos()),
            ) && b.valid(),
            Err(e) => e == MetadataError::MalformedStream && spec_parse_l5(
                old(r).bits(),
                old(r).pos(),
                blen as nat,
            ) is None,
        },
{
    let ghost bits = r.bits();
    let ghost p = r.pos();
    if blen != 7 {
        return Err(MetadataError::MalformedStream);
    }
    let avail = r.available();
    if avail < 56 {
        return Err(MetadataError::MalformedStream);
    }
    proof {
        lemma_pow2_small();
    }
    let left = r.read_var64(13);
    let right = r.read_var64(13);
    let top = r.read_var64(13);
    let bottom = r.read_var64(13);
    let pad = r.read_var64(4);
    proof {
        lemma_be_val_zero_iff(bits.subrange((p + 52) as int, (p + 56) as int));
    }
    if pad != 0 {
        return Err(MetadataError::MalformedStream);
    }
    proof {
        lemma_be_val_bound(bits.subrange(p as int, (p + 13) as int));
        lemma_be_val_bound(bits.subrange((p + 13) as int, (p + 26) as int));
        lemma_be_val_bound(bits.subrange((p + 26) as int, (p + 39) as int));
        lemma_be_val_bound(bits.subrange((p + 39) as int, (p + 52) as int));
    }
    Ok(
        ExtMetadataBlock::Level5(
            ExtMetadataBlockLevel5 {
                active_area_left_offset: left as u16,
                active_area_right_offset: right as u16,
                active_area_top_offset: top as u16,
                active_area_bottom_offset: bottom as u16,
            },
        ),
    )
}

/// Level 6 of the wire layout, parsed field by field.
fn parse_l6(r: &mut BitstreamReader, blen: u64) -> (res: Result<ExtMetadataBlock, MetadataError>)
    requires
        old(r).pos() <= old(r).bits().len(),
    ensures
        final(r).bits() == old(r).bits(),
        final(r).pos() <= final(r).bits().len(),
        match res {
            Ok(b) => spec_parse_l6(old(r).bits(), old(r).pos(), blen as nat) == Some(
                (b, final(r).pos()),
            ) && b.valid(),
            Err(e) => e == MetadataError::MalformedStream && spec_parse_l6(
                old(r).bits(),
                old(r).pos(),
                blen as nat,
            ) is None,
        },
{
    let ghost bits = r.bits();
    let ghost p = r.pos();
    if blen != 8 {
        return Err(MetadataError::MalformedStream);
    }
    let avail = r.available();
    if avail < 64 {
        return Err(MetadataError::MalformedStream);
    }
    proof {
        lemma_pow2_small();
        lemma_pow2_64();
    }
    let maxdml = r.read_var64(16);
    let mindml = r.read_var64(16);
    let maxcll = r.read_var64(16);
    let maxfall = r.read_var64(16);
    proof {
        lemma_be_val_bound(bits.subrange(p as int, (p + 16) as int));
        lemma_be_val_bound(bits.subrange((p + 16) as int, (p + 32) as int));
        lemma_be_val_bound(bits.subrange((p + 32) as int, (p + 48) as int));
        lemma_be_val_bound(bits.subrange((p + 48) as int, (p + 64) as int));
    }
    Ok(
        ExtMetadataBlock::Level6(
            ExtMetadataBlockLevel6 {
                max_display_mastering_luminance: maxdml as u16,
                min_display_mastering_luminance: mindml as u16,
                max_content_light_level: maxcll as u16,
                max_frame_average_light_level: maxfall as u16,
            },
        ),
    )
}

/// Parse one length-prefixed, level-tagged block. Succeeds exactly on the
/// streams `spec_parse_block` accepts: an unknown or illegal level, a length
/// prefix that disagrees with the level's payload size, a nonzero padding bit
/// or a truncated stream are malformed.
pub fn parse_block(v: CmVersion, r: &mut BitstreamReader) -> (res: Result<
    ExtMetadataBlock,
    MetadataError,
>)
    requires
        old(r).pos() <= old(r).bits().len(),
    ensures
        final(r).bits() == old(r).bits(),
        final(r).pos() <= final(r).bits().len(),
        match res {
            Ok(b) => spec_parse_block(v, old(r).bits(), old(r).pos()) == Some(
                (b, final(r).pos()),
            ) && b.valid() && spec_level_allowed(v, b.spec_level()),
            Err(e) => e == MetadataError::MalformedStream && spec_parse_block(
                v,
                old(r).bits(),
                old(r).pos(),
            ) is None,
        },
{
    let ghost bits = r.bits();
    let ghost pos = r.pos();
    let avail = r.available();
    if avail < 40 {
        return Err(MetadataError::MalformedStream);
    }
    proof {
        lemma_pow2_small();
        lemma_pow2_64();
        crate::bits::lemma_pow2_mono(32, 64);
    }
    let blen = r.read_var64(32);
    let level64 = r.read_var64(8);
    proof {
        lemma_be_val_bound(bits.subrange((pos + 32) as int, (pos + 40) as int));
    }
    let level: u8 = level64 as u8;
    if !crate::level_allowed(v, level) {
        return Err(MetadataError::MalformedStream);
    }
    match level {
        1 => parse_l1(r, blen),
        2 => parse_l2(r, blen),
        3 => parse_l3(r, blen),
        5 => parse_l5(r, blen),
        6 => parse_l6(r, blen),
        _ => {
            proof {
                assert(false);
            }
            Err(MetadataError::MalformedStream)
        },
    }
}

/// A subrange of a subrange, re-based onto the outer sequence.
pub proof fn lemma_subrange_nested(s: Seq<bool>, pos: nat, whole: Seq<bool>, off: nat, len2: nat)
    requires
        pos + whole.len() <= s.len(),
        s.subrange(pos as int, (pos + whole.len()) as int) == whole,
        off + len2 <= whole.len(),
    ensures
        s.subrange((pos + off) as int, (pos + off + len2) as int) == whole.subrange(
            off as int,
            (off + len2) as int,
        ),
{
    assert(s.subrange((pos + off) as int, (pos + off + len2) as int) =~= whole.subrange(
        off as int,
        (off + len2) as int,
    ));
}

/// A block's wire form, standing anywhere in a stream, parses back to the
/// block itself and ends exactly after its advertised length.
pub proof fn lemma_parse_block_of_bits(v: CmVersion, b: ExtMetadataBlock, s: Seq<bool>, pos: nat)
    requires
        b.valid(),
        spec_level_allowed(v, b.spec_level()),
        pos + block_bits(b).len() <= s.len(),
        s.subrange(pos as int, (pos + block_bits(b).len()) as int) == block_bits(b),
    ensures
        spec_parse_block(v, s, pos) == Some((b, (pos + block_bits(b).len()) as nat)),
{
    lemma_pow2_small();
    lemma_block_bits_len(b);
    lemma_payload_len(b);
    let bb = block_bits(b);
    let ll = bb.len();
    lemma_be_bits_len(b.spec_length_bytes() as nat, 32);
    lemma_be_bits_len(b.spec_level() as nat, 8);
    assert(bb.subrange(0, 32) =~= be_bits(b.spec_length_bytes() as nat, 32));
    assert(bb.subrange(32, 40) =~= be_bits(b.spec_level() as nat, 8));
    lemma_subrange_nested(s, pos, bb, 0, 32);
    lemma_subrange_nested(s, pos, bb, 32, 8);
    crate::bits::lemma_pow2_mono(16, 32);
    lemma_be_val_be_bits(b.spec_length_bytes() as nat, 32);
    lemma_be_val_be_bits(b.spec_level() as nat, 8);
    assert(bfield(s, pos, 32) == b.spec_length_bytes() as nat);
    assert(bfield(s, (pos + 32) as nat, 8) == b.spec_level() as nat);
    let p = (pos + 40) as nat;
    let pl = b.payload_bits();
    assert(bb.subrange(40, ll as int) =~= pl);
    lemma_subrange_nested(s, pos, bb, 40, pl.len());
    assert(s.subrange(p as int, (p + pl.len()) as int) == pl);
    match b {
        ExtMetadataBlock::Level1(x) => {
            lemma_be_bits_len(x.min_pq as nat, 12);
            lemma_be_bits_len(x.max_pq as nat, 12);
            lemma_be_bits_len(x.avg_pq as nat, 12);
            assert(pl.subrange(0, 12) =~= be_bits(x.min_pq as nat, 12));
            assert(pl.subrange(12, 24) =~= be_bits(x.max_pq as nat, 12));
            assert(pl.subrange(24, 36) =~= be_bits(x.avg_pq as nat, 12));
            assert(pl.subrange(36, 40) =~= zero_bits(4));
            lemma_subrange_nested(s, p, pl, 0, 12);
            lemma_subrange_nested(s, p, pl, 12, 12);
            lemma_subrange_nested(s, p, pl, 24, 12);
            lemma_subrange_nested(s, p, pl, 36, 4);
            lemma_be_val_be_bits(x.min_pq as nat, 12);
            lemma_be_val_be_bits(x.max_pq as nat, 12);
            lemma_be_val_be_bits(x.avg_pq as nat, 12);
            assert(spec_parse_l1(s, p, 5) == Some((b, (p + 40) as nat)));
        },
        ExtMetadataBlock::Level2(x) => {
            lemma_be_bits_len(x.target_max_pq as nat, 12);
            lemma_be_bits_len(x.trim_slope as nat, 12);
            lemma_be_bits_len(x.trim_offset as nat, 12);
            lemma_be_bits_len(x.trim_power as nat, 12);
            lemma_be_bits_len(x.trim_chroma_weight as nat, 12);
            lemma_be_bits_len(x.trim_saturation_gain as nat, 12);
            lemma_be_bits_len(x.ms_weight as nat, 13);
            assert(pl.subrange(0, 12) =~= be_bits(x.target_max_pq as nat, 12));
            assert(pl.subrange(12, 24) =~= be_bits(x.trim_slope as nat, 12));
            assert(pl.subrange(24, 36) =~= be_bits(x.trim_offset as nat, 12));
            assert(pl.subrange(36, 48) =~= be_bits(x.trim_power as nat, 12));
            assert(pl.subrange(48, 60) =~= be_bits(x.trim_chroma_weight as nat, 12));
            assert(pl.subrange(60, 72) =~= be_bits(x.trim_saturation_gain as nat, 12));
            assert(pl.subrange(72, 85) =~= be_bits(x.ms_weight as nat, 13));
            assert(pl.subrange(85, 88) =~= zero_bits(3));
            lemma_subrange_nested(s, p, pl, 0, 12);
            lemma_subrange_nested(s, p, pl, 12, 12);
            lemma_subrange_nested(s, p, pl, 24, 12);
            lemma_subrange_nested(s, p, pl, 36, 12);
            lemma_subrange_nested(s, p, pl, 48, 12);
            lemma_subrange_nested(s, p, pl, 60, 12);
            lemma_subrange_nested(s, p, pl, 72, 13);
            lemma_subrange_nested(s, p, pl, 85, 3);
            lemma_be_val_be_bits(x.target_max_pq as nat, 12);
            lemma_be_val_be_bits(x.trim_slope as nat, 12);
            lemma_be_val_be_bits(x.trim_offset as nat, 12);
            lemma_be_val_be_bits(x.trim_power as nat, 12);
            lemma_be_val_be_bits(x.trim_chroma_weight as nat, 12);
            lemma_be_val_be_bits(x.trim_saturation_gain as nat, 12);
            lemma_be_val_be_bits(x.ms_weight as nat, 13);
            assert(spec_parse_l2(s, p, 11) == Some((b, (p + 88) as nat)));
        },
        ExtMetadataBlock::Level3(x) => {
            lemma_be_bits_len(x.min_pq_offset as nat, 12);
            lemma_be_bits_len(x.max_pq_offset as nat, 12);
            lemma_be_bits_len(x.avg_pq_offset as nat, 12);
            assert(pl.subrange(0, 12) =~= be_bits(x.min_pq_offset as nat, 12));
            assert(pl.subrange(12, 24) =~= be_bits(x.max_pq_offset as nat, 12));
            assert(pl.subrange(24, 36) =~= be_bits(x.avg_pq_offset as nat, 12));
            assert(pl.subrange(36, 40) =~= zero_bits(4));
            lemma_subrange_nested(s, p, pl, 0, 12);
            lemma_subrange_nested(s, p, pl, 12, 12);
            lemma_subrange_nested(s, p, pl, 24, 12);
            lemma_subrange_nested(s, p, pl, 36, 4);
            lemma_be_val_be_bits(x.min_pq_offset as nat, 12);
            lemma_be_val_be_bits(x.max_pq_offset as nat, 12);
            lemma_be_val_be_bits(x.avg_pq_offset as nat, 12);
            assert(spec_parse_l3(s, p, 5) == Some((b, (p + 40) as nat)));
        },
        ExtMetadataBlock::Level5(x) => {
            lemma_be_bits_len(x.active_area_left_offset as nat, 13);
            lemma_be_bits_len(x.active_area_right_offset as nat, 13);
            lemma_be_bits_len(x.active_area_top_offset as nat, 13);
            lemma_be_bits_len(x.active_area_bottom_offset as nat, 13);
            assert(pl.subrange(0, 13) =~= be_bits(x.active_area_left_offset as nat, 13));
            assert(pl.subrange(13, 26) =~= be_bits(x.active_area_right_offset as nat, 13));
            assert(pl.subrange(26, 39) =~= be_bits(x.active_area_top_offset as nat, 13));
            assert(pl.subrange(39, 52) =~= be_bits(x.active_area_bottom_offset as nat, 13));
            assert(pl.subrange(52, 56) =~= zero_bits(4));
            lemma_subrange_nested(s, p, pl, 0, 13);
            lemma_subrange_nested(s, p, pl, 13, 13);
            lemma_subrange_nested(s, p, pl, 26, 13);
            lemma_subrange_nested(s, p, pl, 39, 13);
            lemma_subrange_nested(s, p, pl, 52, 4);
            lemma_be_val_be_bits(x.active_area_left_offset as nat, 13);
            lemma_be_val_be_bits(x.active_area_right_offset as nat, 13);
            lemma_be_val_be_bits(x.active_area_top_offset as nat, 13);
            lemma_be_val_be_bits(x.active_area_bottom_offset as nat, 13);
            assert(spec_parse_l5(s, p, 7) == Some((b, (p + 56) as nat)));
        },
        ExtMetadataBlock::Level6(x) => {
            lemma_be_bits_len(x.max_display_mastering_luminance as nat, 16);
            lemma_be_bits_len(x.min_display_mastering_luminance as nat, 16);
            lemma_be_bits_len(x.max_content_light_level as nat, 16);
            lemma_be_bits_len(x.max_frame_average_light_level as nat, 16);
            assert(pl.subrange(0, 16) =~= be_bits(x.max_display_mastering_luminance as nat, 16));
            assert(pl.subrange(16, 32) =~= be_bits(x.min_display_mastering_luminance as nat, 16));
            assert(pl.subrange(32, 48) =~= be_bits(x.max_content_light_level as nat, 16));
            assert(pl.subrange(48, 64) =~= be_bits(x.max_frame_average_light_level as nat, 16));
            lemma_subrange_nested(s, p, pl, 0, 16);
            lemma_subrange_nested(s, p, pl, 16, 16);
            lemma_subrange_nested(s, p, pl, 32, 16);
            lemma_subrange_nested(s, p, pl, 48, 16);
            lemma_be_val_be_bits(x.max_display_mastering_luminance as nat, 16);
            lemma_be_val_be_bits(x.min_display_mastering_luminance as nat, 16);
            lemma_be_val_be_bits(x.max_content_light_level as nat, 16);
            lemma_be_val_be_bits(x.max_frame_average_light_level as nat, 16);
            assert(spec_parse_l6(s, p, 8) == Some((b, (p + 64) as nat)));
        },
    }
}

/// Round trip for one block: the bits of `write` preceded by the length and
/// level header parse back to the block itself, bit for bit, consuming
/// exactly `5 + length_bytes` bytes. Holds wherever the block stands in a
/// stream, for any version that allows its level.
pub proof fn lemma_block_round_trip(
    v: CmVersion,
    b: ExtMetadataBlock,
    prefix: Seq<bool>,
    suffix: Seq<bool>,
)
    requires
        b.valid(),
        spec_level_allowed(v, b.spec_level()),
    ensures
        spec_parse_block(v, prefix + block_bits(b) + suffix, prefix.len()) == Some(
            (b, (prefix.len() + 8 * (5 + b.spec_length_bytes() as nat)) as nat),
        ),
{
    let s = prefix + block_bits(b) + suffix;
    lemma_block_bits_len(b);
    assert(s.subrange(prefix.len() as int, (prefix.len() + block_bits(b).len()) as int)
        =~= block_bits(b));
    lemma_parse_block_of_bits(v, b, s, prefix.len() as nat);
}

} // verus!
