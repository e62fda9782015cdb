use dovi_meta::blocks::{
    ExtMetadataBlock, ExtMetadataBlockLevel1, ExtMetadataBlockLevel5, ExtMetadataBlockLevel6,
};
use dovi_meta::bits::BitstreamReader;
use dovi_meta::container::CmV29DmData;
use dovi_meta::generate::{
    histogram_is_calibrated, normalize_scene_starts, use_per_frame_peaks, GenerateConfig,
    GenerateProfile, GeneratorProfile, SceneStats, ShotFrameEdit, VideoShot,
};
use dovi_meta::{CmVersion, MetadataError};

/// The perceptual-quantizer transfer function, nits to the normalized domain.
fn nits_to_pq(nits: f64) -> f64 {
    let m1 = 2610.0 / 16384.0;
    let m2 = 2523.0 / 4096.0 * 128.0;
    let c1 = 3424.0 / 4096.0;
    let c2 = 2413.0 / 4096.0 * 32.0;
    let c3 = 2392.0 / 4096.0 * 32.0;
    let y = (nits / 10000.0).powf(m1);
    ((c1 + c2 * y) / (1.0 + c3 * y)).powf(m2)
}

fn pq_code(nits: f64) -> u16 {
    (nits_to_pq(nits.round()) * 4095.0).round() as u16
}

fn l1(min_pq: u16, max_pq: u16, avg_pq: u16) -> ExtMetadataBlock {
    ExtMetadataBlock::Level1(ExtMetadataBlockLevel1 {
        min_pq,
        max_pq,
        avg_pq,
    })
}

fn l5() -> ExtMetadataBlock {
    ExtMetadataBlock::Level5(ExtMetadataBlockLevel5 {
        active_area_left_offset: 1,
        active_area_right_offset: 2,
        active_area_top_offset: 3,
        active_area_bottom_offset: 4,
    })
}

fn l6(maxcll: u16, maxfall: u16) -> ExtMetadataBlockLevel6 {
    ExtMetadataBlockLevel6 {
        max_display_mastering_luminance: 1000,
        min_display_mastering_luminance: 1,
        max_content_light_level: maxcll,
        max_frame_average_light_level: maxfall,
    }
}

fn empty_config(version: CmVersion) -> GenerateConfig {
    GenerateConfig {
        cm_version: version,
        profile: GenerateProfile::Profile81,
        length: 0,
        long_play_mode: false,
        l1_avg_pq_cm_version: None,
        level6: None,
        shots: Vec::new(),
    }
}

fn shot(start: usize, duration: usize, blocks: Vec<ExtMetadataBlock>) -> VideoShot {
    VideoShot {
        start,
        duration,
        metadata_blocks: blocks,
        frame_edits: Vec::new(),
    }
}

#[test]
fn stats_codes_clamp_to_twelve_bits() {
    let b = ExtMetadataBlockLevel1::from_stats_cm_version(5000, 4096, 4095, CmVersion::V29);
    assert_eq!(b.min_pq, 4095);
    assert_eq!(b.max_pq, 4095);
    assert_eq!(b.avg_pq, 4095);
    let small = ExtMetadataBlockLevel1::from_stats_cm_version(0, 10, 5, CmVersion::V40);
    assert_eq!((small.min_pq, small.max_pq, small.avg_pq), (0, 10, 5));
}

#[test]
fn merge_replaces_only_selected_levels() {
    let mut base = shot(0, 10, vec![l1(0, 100, 50), ExtMetadataBlock::Level6(l6(600, 200))]);
    let over = shot(0, 10, vec![l1(0, 999, 111), l5()]);
    let levels: Vec<u8> = vec![1];
    base.copy_metadata_from_shot(&over, Some(&levels));
    // the level 6 block is untouched, level 1 is replaced, level 5 ignored
    assert_eq!(
        base.metadata_blocks,
        vec![ExtMetadataBlock::Level6(l6(600, 200)), l1(0, 999, 111)]
    );
}

#[test]
fn merge_without_filter_takes_every_source_level() {
    let mut base = shot(0, 10, vec![l1(0, 100, 50), ExtMetadataBlock::Level6(l6(600, 200))]);
    let over = shot(0, 10, vec![l1(0, 999, 111), l5()]);
    base.copy_metadata_from_shot(&over, None);
    assert_eq!(
        base.metadata_blocks,
        vec![
            ExtMetadataBlock::Level6(l6(600, 200)),
            l1(0, 999, 111),
            l5()
        ]
    );
}

#[test]
fn config_length_derived_from_shot_durations() {
    let mut config = empty_config(CmVersion::V29);
    config.shots.push(shot(0, 10, Vec::new()));
    config.shots.push(shot(10, 20, Vec::new()));
    config.shots.push(shot(30, 30, Vec::new()));
    config.finalize().unwrap();
    assert_eq!(config.length, 60);
    assert_eq!(config.shots.len(), 3);
}

#[test]
fn finalize_without_any_input_fails() {
    let mut config = empty_config(CmVersion::V29);
    assert_eq!(config.finalize(), Err(MetadataError::MissingRequiredInput));
}

#[test]
fn finalize_synthesizes_single_whole_clip_shot() {
    let mut config = empty_config(CmVersion::V29);
    config.length = 100;
    config.finalize().unwrap();
    assert_eq!(config.shots.len(), 1);
    assert_eq!(config.shots[0].start, 0);
    assert_eq!(config.shots[0].duration, 100);
    assert!(config.shots[0].metadata_blocks.is_empty());
    assert!(config.shots[0].frame_edits.is_empty());
}

#[test]
fn l1_version_defaults_to_config_version() {
    let mut config = empty_config(CmVersion::V40);
    config.set_l1_version_default();
    assert_eq!(config.l1_avg_pq_cm_version, Some(CmVersion::V40));
    config.cm_version = CmVersion::V29;
    config.set_l1_version_default();
    assert_eq!(config.l1_avg_pq_cm_version, Some(CmVersion::V40));
}

#[test]
fn profile_and_long_play_overrides() {
    let mut config = empty_config(CmVersion::V29);
    config.apply_overrides(Some(GeneratorProfile::Profile84), Some(true));
    assert_eq!(config.profile, GenerateProfile::Profile84);
    assert!(config.long_play_mode);
    config.apply_overrides(None, None);
    assert_eq!(config.profile, GenerateProfile::Profile84);
    assert!(config.long_play_mode);
}

#[test]
fn level6_zero_fields_take_measured_values() {
    let mut config = empty_config(CmVersion::V29);
    config.level6 = Some(l6(0, 180));
    config.apply_level6_defaults(2000, 700);
    let got = config.level6.unwrap();
    assert_eq!(got.max_content_light_level, 2000);
    assert_eq!(got.max_frame_average_light_level, 180);

    let mut none = empty_config(CmVersion::V29);
    none.apply_level6_defaults(2000, 700);
    assert!(none.level6.is_none());
}

#[test]
fn histogram_calibration_markers() {
    assert!(histogram_is_calibrated(&vec![1, 5, 10, 25, 50, 75, 90, 95, 99]));
    assert!(!histogram_is_calibrated(&vec![1, 5, 10, 25, 50, 75, 90, 95]));
    assert!(!histogram_is_calibrated(&vec![1, 4, 10, 25, 50, 75, 90, 95, 99]));
    assert!(!histogram_is_calibrated(&vec![1, 5, 11, 25, 50, 75, 90, 95, 99]));
}

#[test]
fn per_frame_peaks_need_flag_and_marker() {
    assert!(use_per_frame_peaks(true, 3));
    assert!(!use_per_frame_peaks(false, 3));
    assert!(!use_per_frame_peaks(true, 1));
}

#[test]
fn scene_starts_rebase_to_zero() {
    let mut starts: Vec<usize> = vec![100, 110, 130];
    normalize_scene_starts(&mut starts);
    assert_eq!(starts, vec![0, 10, 30]);
}

#[test]
fn scene_stats_build_frame_edits_from_peaks() {
    let mut config = empty_config(CmVersion::V29);
    config.set_l1_version_default();
    let scenes = vec![SceneStats {
        start: 0,
        duration: 3,
        peak_pq: 3000,
        avg_pq: 1000,
        frame_peaks: Some(vec![2900, 3000, 2800]),
    }];
    config.apply_scene_stats(&scenes, 3);
    assert_eq!(config.shots.len(), 1);
    let edits = &config.shots[0].frame_edits;
    assert_eq!(edits.len(), 3);
    for (j, peak) in [2900u16, 3000, 2800].iter().enumerate() {
        assert_eq!(edits[j].edit_offset, j);
        assert_eq!(edits[j].metadata_blocks, vec![l1(0, *peak, 1000)]);
    }
}

#[test]
fn scene_stats_merge_level1_from_existing_shots() {
    let mut config = empty_config(CmVersion::V29);
    config.set_l1_version_default();
    // two caller shots, but only one scene: the second shot has no
    // counterpart and is simply not consumed
    config.shots.push(shot(0, 5, vec![l1(0, 777, 333), ExtMetadataBlock::Level6(l6(1, 2))]));
    config.shots.push(shot(5, 5, vec![l1(0, 888, 444)]));
    let scenes = vec![SceneStats {
        start: 0,
        duration: 5,
        peak_pq: 100,
        avg_pq: 10,
        frame_peaks: None,
    }];
    config.apply_scene_stats(&scenes, 5);
    assert_eq!(config.shots.len(), 1);
    // the generated baseline level 1 was replaced by the caller's; the
    // caller's level 6 block is not selected and does not come over
    assert_eq!(config.shots[0].metadata_blocks, vec![l1(0, 777, 333)]);
    assert!(config.shots[0].frame_edits.is_empty());
}

#[test]
fn frame_edit_overrides_single_frame() {
    let mut config = empty_config(CmVersion::V29);
    let mut sh = shot(0, 5, vec![l1(0, 100, 50)]);
    sh.frame_edits.push(ShotFrameEdit {
        edit_offset: 2,
        metadata_blocks: vec![l1(0, 200, 50)],
    });
    config.shots.push(sh);
    config.length = 5;

    let plain = config.frame_payload(1).unwrap();
    let edited = config.frame_payload(2).unwrap();
    assert_ne!(plain, edited);

    let mut r = BitstreamReader::from_vec(edited);
    let dm = CmV29DmData::parse(&mut r).unwrap();
    assert_eq!(dm.blocks, vec![l1(0, 200, 50)]);

    assert_eq!(
        config.frame_payload(5),
        Err(MetadataError::MissingRequiredInput)
    );
}

#[test]
fn frame_payload_rejects_illegal_level_for_version() {
    let mut config = empty_config(CmVersion::V29);
    // a level 3 block may stand in a shot but is illegal for version 2.9
    let bad = ExtMetadataBlock::Level3(dovi_meta::blocks::ExtMetadataBlockLevel3 {
        min_pq_offset: 0,
        max_pq_offset: 0,
        avg_pq_offset: 0,
    });
    config.shots.push(shot(0, 1, vec![bad]));
    config.length = 1;
    assert_eq!(
        config.frame_payload(0),
        Err(MetadataError::InvalidLevelForVersion)
    );
}

#[test]
fn two_scene_clip_emits_constant_blocks_per_scene() {
    // scene A: direct quantization of the reported peak and mean
    let a_max = pq_code(400.0);
    let a_avg = pq_code(100.0);

    // scene B: peak 1000 nits, average from the calibrated nine-bucket
    // histogram with the fixed midpoint weights
    let b_max = pq_code(1000.0);
    let values: [u32; 9] = [5, 0, 0, 1000, 3000, 5000, 7000, 9000, 9990];
    let pqs: Vec<f64> = [0, 3, 4, 5, 6, 7, 8]
        .iter()
        .map(|&k| nits_to_pq(f64::from(values[k as usize]) / 10.0))
        .collect();
    let mean_pq = (pqs[0] + pqs[1]) / 2.0 * 0.2400
        + (pqs[1] + pqs[2]) / 2.0 * 0.2500
        + (pqs[2] + pqs[3]) / 2.0 * 0.2500
        + (pqs[3] + pqs[4]) / 2.0 * 0.1500
        + (pqs[4] + pqs[5]) / 2.0 * 0.0500
        + (pqs[5] + pqs[6]) / 2.0 * 0.0498;
    let b_avg = (mean_pq * 4095.0).round() as u16;

    let scenes = vec![
        SceneStats {
            start: 0,
            duration: 10,
            peak_pq: a_max,
            avg_pq: a_avg,
            frame_peaks: None,
        },
        SceneStats {
            start: 10,
            duration: 10,
            peak_pq: b_max,
            avg_pq: b_avg,
            frame_peaks: None,
        },
    ];

    let mut config = empty_config(CmVersion::V29);
    config.set_l1_version_default();
    config.apply_scene_stats(&scenes, 20);
    config.finalize().unwrap();
    assert_eq!(config.length, 20);

    let payloads: Vec<Vec<u8>> = (0..20).map(|f| config.frame_payload(f).unwrap()).collect();
    for f in 0..10 {
        assert_eq!(payloads[f], payloads[0]);
    }
    for f in 10..20 {
        assert_eq!(payloads[f], payloads[10]);
    }
    assert_ne!(payloads[0], payloads[10]);
    for sh in &config.shots {
        assert!(sh.frame_edits.is_empty());
    }

    let mut r = BitstreamReader::from_vec(payloads[0].clone());
    let dm_a = CmV29DmData::parse(&mut r).unwrap();
    assert_eq!(dm_a.blocks, vec![l1(0, a_max, a_avg)]);

    let mut r = BitstreamReader::from_vec(payloads[10].clone());
    let dm_b = CmV29DmData::parse(&mut r).unwrap();
    assert_eq!(dm_b.blocks, vec![l1(0, b_max, b_avg)]);
}
