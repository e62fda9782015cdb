use dovi_meta::bits::{read_ue, write_ue, BitstreamReader, BitstreamWriter};
use dovi_meta::blocks::{
    ExtMetadataBlock, ExtMetadataBlockLevel1, ExtMetadataBlockLevel2, ExtMetadataBlockLevel3,
    ExtMetadataBlockLevel5, ExtMetadataBlockLevel6,
};
use dovi_meta::container::{CmV29DmData, CmV40DmData};
use dovi_meta::MetadataError;

fn l1(min_pq: u16, max_pq: u16, avg_pq: u16) -> ExtMetadataBlock {
    ExtMetadataBlock::Level1(ExtMetadataBlockLevel1 {
        min_pq,
        max_pq,
        avg_pq,
    })
}

fn l2(target_max_pq: u16) -> ExtMetadataBlock {
    ExtMetadataBlock::Level2(ExtMetadataBlockLevel2 {
        target_max_pq,
        trim_slope: 2048,
        trim_offset: 2048,
        trim_power: 2048,
        trim_chroma_weight: 2048,
        trim_saturation_gain: 2048,
        ms_weight: 4096,
    })
}

fn l3() -> ExtMetadataBlock {
    ExtMetadataBlock::Level3(ExtMetadataBlockLevel3 {
        min_pq_offset: 2048,
        max_pq_offset: 2048,
        avg_pq_offset: 2048,
    })
}

fn l5() -> ExtMetadataBlock {
    ExtMetadataBlock::Level5(ExtMetadataBlockLevel5 {
        active_area_left_offset: 0,
        active_area_right_offset: 0,
        active_area_top_offset: 276,
        active_area_bottom_offset: 276,
    })
}

fn l6() -> ExtMetadataBlock {
    ExtMetadataBlock::Level6(ExtMetadataBlockLevel6 {
        max_display_mastering_luminance: 1000,
        min_display_mastering_luminance: 1,
        max_content_light_level: 1000,
        max_frame_average_light_level: 400,
    })
}

fn write_v29(dm: &CmV29DmData) -> Vec<u8> {
    let mut w = BitstreamWriter::with_capacity(64);
    dm.write_all(&mut w);
    w.into_inner()
}

fn write_v40(dm: &CmV40DmData) -> Vec<u8> {
    let mut w = BitstreamWriter::with_capacity(64);
    dm.write_all(&mut w);
    w.into_inner()
}

#[test]
fn round_trip_single_level1_v29() {
    let mut dm = CmV29DmData::with_blocks_allocation(1);
    dm.add_block(l1(0, 3079, 1229)).unwrap();
    let bytes = write_v29(&dm);
    let mut r = BitstreamReader::from_vec(bytes);
    let parsed = CmV29DmData::parse(&mut r).unwrap();
    assert_eq!(parsed.num_ext_blocks, 1);
    assert_eq!(parsed.blocks, dm.blocks);
}

#[test]
fn round_trip_every_variant_v40() {
    let mut dm = CmV40DmData::with_blocks_allocation(5);
    // scrambled insertion order: the writer must emit canonical order
    dm.add_block(l6()).unwrap();
    dm.add_block(l3()).unwrap();
    dm.add_block(l1(0, 4095, 1000)).unwrap();
    dm.add_block(l5()).unwrap();
    dm.add_block(l2(2081)).unwrap();
    let bytes = write_v40(&dm);
    let mut r = BitstreamReader::from_vec(bytes);
    let parsed = CmV40DmData::parse(&mut r).unwrap();
    assert_eq!(parsed.num_ext_blocks, 5);
    assert_eq!(parsed.blocks, dm.blocks);
    let levels: Vec<u8> = parsed.blocks.iter().map(|b| b.level()).collect();
    assert_eq!(levels, vec![1, 2, 3, 5, 6]);
}

#[test]
fn round_trip_every_variant_v29() {
    let mut dm = CmV29DmData::with_blocks_allocation(4);
    dm.add_block(l5()).unwrap();
    dm.add_block(l6()).unwrap();
    dm.add_block(l2(2081)).unwrap();
    dm.add_block(l1(0, 2000, 500)).unwrap();
    let bytes = write_v29(&dm);
    let mut r = BitstreamReader::from_vec(bytes);
    let parsed = CmV29DmData::parse(&mut r).unwrap();
    assert_eq!(parsed.blocks, dm.blocks);
}

#[test]
fn canonical_output_independent_of_insertion_order() {
    let mut a = CmV40DmData::with_blocks_allocation(3);
    a.add_block(l1(0, 100, 50)).unwrap();
    a.add_block(l5()).unwrap();
    a.add_block(l6()).unwrap();
    let mut b = CmV40DmData::with_blocks_allocation(3);
    b.add_block(l6()).unwrap();
    b.add_block(l5()).unwrap();
    b.add_block(l1(0, 100, 50)).unwrap();
    assert_eq!(write_v40(&a), write_v40(&b));
}

#[test]
fn length_prefix_matches_wire_size() {
    let cases = [
        (l1(0, 1, 2), 5u32),
        (l2(2081), 11),
        (l3(), 5),
        (l5(), 7),
        (l6(), 8),
    ];
    for (block, payload_len) in cases {
        assert_eq!(u32::from(block.length_bytes()), payload_len);
        let mut dm = CmV40DmData::with_blocks_allocation(1);
        dm.add_block(block).unwrap();
        assert_eq!(dm.ext_block_write_length(), 5 + payload_len);
        let bytes = write_v40(&dm);
        // one byte for the count code plus its padding, then the block
        assert_eq!(bytes.len() as u32, 1 + 5 + payload_len);
    }
}

#[test]
fn add_block_rejects_illegal_level_per_version() {
    let mut v29 = CmV29DmData::with_blocks_allocation(1);
    assert_eq!(
        v29.add_block(l3()),
        Err(MetadataError::InvalidLevelForVersion)
    );
    assert_eq!(v29.num_ext_blocks, 0);
    assert_eq!(v29.blocks.len(), 0);

    let mut v40 = CmV40DmData::with_blocks_allocation(1);
    assert_eq!(v40.add_block(l3()), Ok(()));
    assert_eq!(v40.num_ext_blocks, 1);
    assert_eq!(v40.blocks.len(), 1);
}

#[test]
fn remove_level_keeps_other_levels() {
    let mut dm = CmV29DmData::with_blocks_allocation(2);
    dm.add_block(l1(0, 10, 5)).unwrap();
    dm.add_block(l6()).unwrap();
    dm.remove_level(1);
    assert_eq!(dm.num_ext_blocks, 1);
    assert_eq!(dm.blocks, vec![l6()]);
    // removing an absent level is a no-op, not an error
    dm.remove_level(5);
    assert_eq!(dm.blocks, vec![l6()]);
}

#[test]
fn validate_checks_count_and_levels() {
    let mut dm = CmV29DmData::with_blocks_allocation(1);
    dm.add_block(l6()).unwrap();
    assert!(dm.validate().is_ok());
    dm.num_ext_blocks = 7;
    assert!(dm.validate().is_err());
    let bad = CmV29DmData {
        num_ext_blocks: 1,
        blocks: vec![l3()],
    };
    assert_eq!(bad.validate(), Err(MetadataError::InvalidLevelForVersion));
}

#[test]
fn empty_collection_round_trips() {
    let dm = CmV29DmData::with_blocks_allocation(0);
    let bytes = write_v29(&dm);
    // count zero is a single one bit, then seven zero padding bits
    assert_eq!(bytes, vec![0b1000_0000]);
    let mut r = BitstreamReader::from_vec(bytes);
    let parsed = CmV29DmData::parse(&mut r).unwrap();
    assert_eq!(parsed.num_ext_blocks, 0);
    assert!(parsed.blocks.is_empty());
}

#[test]
fn nonzero_alignment_padding_fails_decode() {
    // count zero, then a one among the padding bits
    let mut r = BitstreamReader::from_vec(vec![0b1000_0001]);
    assert!(matches!(
        CmV29DmData::parse(&mut r),
        Err(MetadataError::MalformedStream)
    ));
    // same stream with clean padding decodes
    let mut ok = BitstreamReader::from_vec(vec![0b1000_0000]);
    assert!(CmV29DmData::parse(&mut ok).is_ok());
}

#[test]
fn unknown_level_fails_decode() {
    // count one, padding, length 5, level 7, five payload bytes
    let mut bytes = vec![0b0100_0000, 0, 0, 0, 5, 7];
    bytes.extend_from_slice(&[0; 5]);
    let mut r = BitstreamReader::from_vec(bytes);
    assert!(matches!(
        CmV40DmData::parse(&mut r),
        Err(MetadataError::MalformedStream)
    ));
}

#[test]
fn wrong_length_prefix_fails_decode() {
    // count one, padding, length 6 (level 1 blocks are 5 bytes), level 1
    let mut bytes = vec![0b0100_0000, 0, 0, 0, 6, 1];
    bytes.extend_from_slice(&[0; 6]);
    let mut r = BitstreamReader::from_vec(bytes);
    assert!(matches!(
        CmV29DmData::parse(&mut r),
        Err(MetadataError::MalformedStream)
    ));
}

#[test]
fn truncated_stream_fails_decode() {
    let mut dm = CmV29DmData::with_blocks_allocation(1);
    dm.add_block(l1(0, 99, 42)).unwrap();
    let mut bytes = write_v29(&dm);
    bytes.pop();
    let mut r = BitstreamReader::from_vec(bytes);
    assert!(matches!(
        CmV29DmData::parse(&mut r),
        Err(MetadataError::MalformedStream)
    ));
}

#[test]
fn level_for_other_version_fails_decode() {
    // a level 3 block is legal for version 4.0 but not 2.9
    let mut dm = CmV40DmData::with_blocks_allocation(1);
    dm.add_block(l3()).unwrap();
    let bytes = write_v40(&dm);
    let mut r29 = BitstreamReader::from_vec(bytes.clone());
    assert!(matches!(
        CmV29DmData::parse(&mut r29),
        Err(MetadataError::MalformedStream)
    ));
    let mut r40 = BitstreamReader::from_vec(bytes);
    assert!(CmV40DmData::parse(&mut r40).is_ok());
}

#[test]
fn round_trip_at_unaligned_offset() {
    // the collection may start anywhere in the outer stream; the alignment
    // padding then has a different width for each offset
    for offset_bits in 1u32..8 {
        let mut dm = CmV29DmData::with_blocks_allocation(2);
        dm.add_block(l6()).unwrap();
        dm.add_block(l1(0, 50, 25)).unwrap();
        let mut w = BitstreamWriter::with_capacity(32);
        w.write_var64(0, offset_bits);
        dm.write_all(&mut w);
        while !w.byte_aligned() {
            w.write_bit(false);
        }
        let mut r = BitstreamReader::from_vec(w.into_inner());
        let _ = r.read_var64(offset_bits);
        let parsed = CmV29DmData::parse(&mut r).unwrap();
        assert_eq!(parsed.blocks, dm.blocks);
    }
}

#[test]
fn parse_consumes_exactly_the_written_image() {
    let mut dm = CmV29DmData::with_blocks_allocation(1);
    dm.add_block(l1(0, 7, 3)).unwrap();
    let mut bytes = write_v29(&dm);
    bytes.push(0xAB);
    let mut r = BitstreamReader::from_vec(bytes);
    let parsed = CmV29DmData::parse(&mut r).unwrap();
    assert_eq!(parsed.blocks, dm.blocks);
    // the byte after the image is untouched and comes next
    assert_eq!(r.read_var64(8), 0xAB);
}

#[test]
fn exp_golomb_codes_round_trip() {
    let values: [u64; 7] = [0, 1, 2, 5, 127, 255, 4096];
    let mut w = BitstreamWriter::with_capacity(16);
    for v in values {
        write_ue(&mut w, v);
    }
    // pad to a whole byte so the buffer can be taken out
    while !w.byte_aligned() {
        w.write_bit(false);
    }
    let bytes = w.into_inner();
    let mut r = BitstreamReader::from_vec(bytes);
    for v in values {
        assert_eq!(read_ue(&mut r), Ok(v));
    }
}

#[test]
fn exp_golomb_zero_is_one_bit() {
    let mut w = BitstreamWriter::with_capacity(1);
    write_ue(&mut w, 0);
    for _ in 0..7 {
        w.write_bit(false);
    }
    assert_eq!(w.into_inner(), vec![0b1000_0000]);
}
