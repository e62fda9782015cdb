//! The generation pipeline: a timeline of shots with baseline blocks and
//! per-frame edits, built from quantized scene measurements or a ready-made
//! configuration, merged with caller overrides, and emitted one
//! display-management payload per output frame.

use vstd::prelude::*;

use crate::bits::{bits_of_bytes, BitstreamWriter};
use crate::blocks::{clamp12, ExtMetadataBlock, ExtMetadataBlockLevel1, ExtMetadataBlockLevel6};
use crate::container::{
    canonical_order, dm_bits, keep_pred, level_pred, lemma_canonical_order_len,
    lemma_canonical_push, lemma_dm_bits_bytes, lemma_filter_subsume, CmV29DmData, CmV40DmData,
};
use crate::{spec_level_allowed, CmVersion, MetadataError};

verus! {

/// The target encoding profile named on the command line.
#[derive(Clone, Copy, Debug, PartialEq, Eq, Structural)]
pub enum GeneratorProfile {
    Profile5,
    Profile81,
    Profile84,
}

/// The target encoding profile a configuration generates for.
#[derive(Clone, Copy, Debug, PartialEq, Eq, Structural)]
pub enum GenerateProfile {
    Profile5,
    Profile81,
    Profile84,
}

pub open spec fn spec_profile_from(p: GeneratorProfile) -> GenerateProfile {
    match p {
        GeneratorProfile::Profile5 => GenerateProfile::Profile5,
        GeneratorProfile::Profile81 => GenerateProfile::Profile81,
        GeneratorProfile::Profile84 => GenerateProfile::Profile84,
    }
}

impl From<GeneratorProfile> for GenerateProfile {
    fn from(p: GeneratorProfile) -> (r: Self) {
        match p {
            GeneratorProfile::Profile5 => GenerateProfile::Profile5,
            GeneratorProfile::Profile81 => GenerateProfile::Profile81,
            GeneratorProfile::Profile84 => GenerateProfile::Profile84,
        }
    }
}

impl vstd::std_specs::convert::FromSpecImpl<GeneratorProfile> for GenerateProfile {
    open spec fn obeys_from_spec() -> bool {
        true
    }

    open spec fn from_spec(p: GeneratorProfile) -> Self {
        spec_profile_from(p)
    }
}

/// A single-frame override: the blocks replace the shot's baseline for the
/// levels they carry, at one frame offset within the shot.
#[derive(Debug, Clone)]
pub struct ShotFrameEdit {
    pub edit_offset: usize,
    pub metadata_blocks: Vec<ExtMetadataBlock>,
}

/// One contiguous run of frames sharing baseline metadata.
#[derive(Debug, Clone)]
pub struct VideoShot {
    pub start: usize,
    pub duration: usize,
    pub metadata_blocks: Vec<ExtMetadataBlock>,
    pub frame_edits: Vec<ShotFrameEdit>,
}

/// Whole-clip generation state.
#[derive(Debug, Clone)]
pub struct GenerateConfig {
    pub cm_version: CmVersion,
    pub profile: GenerateProfile,
    pub length: usize,
    pub long_play_mode: bool,
    pub l1_avg_pq_cm_version: Option<CmVersion>,
    pub level6: Option<ExtMetadataBlockLevel6>,
    pub shots: Vec<VideoShot>,
}

/// One detected scene of a measurement source, already quantized into
/// perceptual codes: peak and average brightness, and optionally one peak
/// code per frame of the scene.
#[derive(Debug, Clone)]
pub struct SceneStats {
    pub start: usize,
    pub duration: usize,
    pub peak_pq: u16,
    pub avg_pq: u16,
    pub frame_peaks: Option<Vec<u16>>,
}

// ---------- merge / override semantics ----------

/// Whether a level is selected by an optional level filter; no filter selects
/// every level.
pub open spec fn sel_contains(sel: Option<Seq<u8>>, lv: u8) -> bool {
    match sel {
        None => true,
        Some(s) => s.contains(lv),
    }
}

/// The field-level merge: each source block whose level is selected replaces
/// the base blocks of that level; everything else is kept.
pub open spec fn spec_merge(
    base: Seq<ExtMetadataBlock>,
    src: Seq<ExtMetadataBlock>,
    sel: Option<Seq<u8>>,
) -> Seq<ExtMetadataBlock>
    decreases src.len(),
{
    if src.len() == 0 {
        base
    } else {
        let b = src[0];
        let rest = src.drop_first();
        if sel_contains(sel, b.spec_level()) {
            spec_merge(base.filter(keep_pred(b.spec_level())).push(b), rest, sel)
        } else {
            spec_merge(base, rest, sel)
        }
    }
}

/// Merging touches only the selected levels: for any level outside the
/// filter, the merged collection carries exactly the base's blocks of that
/// level. This holds for every base, source and filter.
pub proof fn lemma_merge_preserves_unselected(
    base: Seq<ExtMetadataBlock>,
    src: Seq<ExtMetadataBlock>,
    sel: Seq<u8>,
    lv: u8,
)
    requires
        !sel.contains(lv),
    ensures
        spec_merge(base, src, Some(sel)).filter(level_pred(lv)) == base.filter(level_pred(lv)),
    decreases src.len(),
{
    if src.len() > 0 {
        let b = src[0];
        let rest = src.drop_first();
        if sel.contains(b.spec_level()) {
            let inner = base.filter(keep_pred(b.spec_level()));
            let base2 = inner.push(b);
            assert(b.spec_level() != lv);
            lemma_filter_subsume(base, keep_pred(b.spec_level()), level_pred(lv));
            assert(base2.filter(level_pred(lv)) == base.filter(level_pred(lv))) by {
                reveal(Seq::filter);
                assert(base2.drop_last() =~= inner);
                assert(base2.last() == b);
            }
            lemma_merge_preserves_unselected(base2, rest, sel, lv);
        } else {
            lemma_merge_preserves_unselected(base, rest, sel, lv);
        }
    }
}

/// A merge never grows past the two inputs together.
pub proof fn lemma_merge_len(
    base: Seq<ExtMetadataBlock>,
    src: Seq<ExtMetadataBlock>,
    sel: Option<Seq<u8>>,
)
    ensures
        spec_merge(base, src, sel).len() <= base.len() + src.len(),
    decreases src.len(),
{
    broadcast use Seq::lemma_filter_len;

    if src.len() > 0 {
        let b = src[0];
        let rest = src.drop_first();
        if sel_contains(sel, b.spec_level()) {
            lemma_merge_len(base.filter(keep_pred(b.spec_level())).push(b), rest, sel);
        } else {
            lemma_merge_len(base, rest, sel);
        }
    }
}

/// Whether a byte is among the elements of the vector.
fn vec_contains_u8(v: &Vec<u8>, x: u8) -> (r: bool)
    ensures
        r == v@.contains(x),
{
    let mut i: usize = 0;
    while i < v.len()
        invariant
            i <= v@.len(),
            forall|k: int| 0 <= k < i ==> v@[k] != x,
        decreases v@.len() - i,
    {
        if v[i] == x {
            return true;
        }
        i = i + 1;
    }
    false
}

/// Drop every block of one level, keeping the order of the rest.
fn retain_without_level(v: &mut Vec<ExtMetadataBlock>, lv: u8)
    ensures
        final(v)@ == old(v)@.filter(keep_pred(lv)),
{
    let mut kept: Vec<ExtMetadataBlock> = Vec::new();
    let mut i: usize = 0;
    while i < v.len()
        invariant
            i <= v@.len(),
            v@ == old(v)@,
            kept@ == v@.subrange(0, i as int).filter(keep_pred(lv)),
        decreases v@.len() - i,
    {
        let ghost pre = v@.subrange(0, i as int);
        if v[i].level() != lv {
            kept.push(v[i]);
        }
        i = i + 1;
        proof {
            reveal(Seq::filter);
            let cur = v@.subrange(0, i as int);
            assert(cur.drop_last() =~= pre);
            assert(cur.last() == v@[i - 1]);
            assert(kept@ =~= cur.filter(keep_pred(lv)));
        }
    }
    proof {
        assert(v@.subrange(0, v@.len() as int) =~= v@);
    }
    *v = kept;
}

/// Replace the base blocks by the source blocks level by level, for the
/// selected levels only.
fn merge_blocks(
    base: &mut Vec<ExtMetadataBlock>,
    src: &Vec<ExtMetadataBlock>,
    levels: Option<&Vec<u8>>,
)
    ensures
        final(base)@ == spec_merge(
            old(base)@,
            src@,
            match levels {
                Some(l) => Some(l@),
                None => None,
            },
        ),
{
    let ghost sel: Option<Seq<u8>> = match levels {
        Some(l) => Some(l@),
        None => None,
    };
    proof {
        assert(src@.subrange(0, src@.len() as int) =~= src@);
    }
    let mut i: usize = 0;
    while i < src.len()
        invariant
            i <= src@.len(),
            sel == (match levels {
                Some(l) => Some(l@),
                None => None::<Seq<u8>>,
            }),
            spec_merge(old(base)@, src@, sel) == spec_merge(
                base@,
                src@.subrange(i as int, src@.len() as int),
                sel,
            ),
        decreases src@.len() - i,
    {
        let ghost before = base@;
        let ghost tail = src@.subrange(i as int, src@.len() as int);
        let b = src[i];
        let selected = match levels {
            None => true,
            Some(l) => vec_contains_u8(l, b.level()),
        };
        proof {
            assert(selected == sel_contains(sel, b.spec_level()));
        }
        if selected {
            retain_without_level(base, b.level());
            base.push(b);
        }
        i = i + 1;
        proof {
            assert(tail[0] == src@[i - 1]);
            assert(tail.drop_first() =~= src@.subrange(i as int, src@.len() as int));
            if selected {
                assert(base@ == before.filter(keep_pred(src@[i - 1].spec_level())).push(
                    src@[i - 1],
                ));
            }
        }
    }
    proof {
        assert(src@.subrange(src@.len() as int, src@.len() as int) =~= Seq::<
            ExtMetadataBlock,
        >::empty());
    }
}

impl VideoShot {
    /// Copy the explicitly selected block levels of another shot onto this
    /// one: selected levels present in the source replace this shot's blocks
    /// of the same level; every other level, and all frame edits, are kept
    /// untouched.
    pub fn copy_metadata_from_shot(&mut self, other: &VideoShot, levels: Option<&Vec<u8>>)
        ensures
            final(self).metadata_blocks@ == spec_merge(
                old(self).metadata_blocks@,
                other.metadata_blocks@,
                match levels {
                    Some(l) => Some(l@),
                    None => None,
                },
            ),
            final(self).start == old(self).start,
            final(self).duration == old(self).duration,
            final(self).frame_edits == old(self).frame_edits,
    {
        merge_blocks(&mut self.metadata_blocks, &other.metadata_blocks, levels);
    }
}

// ---------- scene ingestion ----------

/// The histogram shape check of the brightness sources: exactly nine buckets
/// whose second and third markers carry the calibration values 5 and 10.
/// When it holds, the average comes from the weighted-midpoint formula;
/// otherwise the source's plain mean is quantized directly.
pub fn histogram_is_calibrated(indices: &Vec<u8>) -> (r: bool)
    ensures
        r == (indices@.len() == 9 && indices@[1] == 5 && indices@[2] == 10),
{
    indices.len() == 9 && indices[1] == 5 && indices[2] == 10
}

/// Whether per-frame peak overrides apply: only when asked for, and only
/// when the measurement header's capability flags carry the marker value.
pub fn use_per_frame_peaks(use_custom_targets: bool, header_flags: u32) -> (r: bool)
    ensures
        r == (use_custom_targets && header_flags == 3),
{
    use_custom_targets && header_flags == 3
}

/// Rebase scene start indices so that the first scene starts at frame zero.
pub fn normalize_scene_starts(starts: &mut Vec<usize>)
    requires
        old(starts)@.len() > 0,
        forall|i: int| 0 <= i < old(starts)@.len() ==> old(starts)@[0] <= #[trigger] old(starts)@[i],
    ensures
        final(starts)@.len() == old(starts)@.len(),
        forall|i: int|
            0 <= i < old(starts)@.len() ==> final(starts)@[i] == old(starts)@[i] - old(starts)@[0],
{
    let first = starts[0];
    let n = starts.len();
    let mut i: usize = 0;
    while i < n
        invariant
            n == starts@.len() == old(starts)@.len(),
            i <= n,
            first == old(starts)@[0],
            forall|k: int| 0 <= k < n ==> old(starts)@[0] <= #[trigger] old(starts)@[k],
            forall|k: int| i <= k < n ==> starts@[k] == old(starts)@[k],
            forall|k: int| 0 <= k < i ==> starts@[k] == old(starts)@[k] - first,
        decreases n - i,
    {
        let v = starts[i];
        starts.set(i, v - first);
        i = i + 1;
    }
}

/// The baseline brightness block of a scene: minimum zero, the scene's
/// quantized peak and average.
pub open spec fn scene_l1(peak_pq: u16, avg_pq: u16) -> ExtMetadataBlock {
    ExtMetadataBlock::Level1(
        ExtMetadataBlockLevel1 { min_pq: 0, max_pq: clamp12(peak_pq), avg_pq: clamp12(avg_pq) },
    )
}

/// What a generated shot must look like for its scene: the scene's frame
/// range, a single brightness baseline block merged with the level-1 blocks
/// of any positionally matching caller shot, and one brightness edit per
/// frame peak when those are present, each reusing the scene average.
pub open spec fn shot_matches_scene(
    shot: VideoShot,
    sc: SceneStats,
    over: Option<VideoShot>,
    l1_levels: Seq<u8>,
) -> bool {
    &&& shot.start == sc.start
    &&& shot.duration == sc.duration
    &&& shot.metadata_blocks@ == (match over {
        None => seq![scene_l1(sc.peak_pq, sc.avg_pq)],
        Some(o) => spec_merge(
            seq![scene_l1(sc.peak_pq, sc.avg_pq)],
            o.metadata_blocks@,
            Some(l1_levels),
        ),
    })
    &&& match sc.frame_peaks {
        None => shot.frame_edits@.len() == 0,
        Some(pk) => {
            &&& shot.frame_edits@.len() == pk@.len()
            &&& forall|j: int|
                0 <= j < pk@.len() ==> (#[trigger] shot.frame_edits@[j]).edit_offset == j
                    && shot.frame_edits@[j].metadata_blocks@ == seq![
                    scene_l1(pk@[j], sc.avg_pq),
                ]
        },
    }
}

/// Build one shot per scene, merging the level-1 blocks of any positionally
/// matching caller shot onto the generated baseline; a caller shot with no
/// matching scene is left unused and unchanged.
pub fn shots_from_scene_stats(
    scenes: &Vec<SceneStats>,
    config_shots: &Vec<VideoShot>,
    l1_version: CmVersion,
) -> (r: Vec<VideoShot>)
    ensures
        r@.len() == scenes@.len(),
        forall|i: int|
            0 <= i < scenes@.len() ==> shot_matches_scene(
                #[trigger] r@[i],
                scenes@[i],
                if i < config_shots@.len() {
                    Some(config_shots@[i])
                } else {
                    None
                },
                seq![1u8],
            ),
{
    let mut out: Vec<VideoShot> = Vec::new();
    let mut i: usize = 0;
    while i < scenes.len()
        invariant
            i <= scenes@.len(),
            out@.len() == i,
            forall|k: int|
                0 <= k < i ==> shot_matches_scene(
                    #[trigger] out@[k],
                    scenes@[k],
                    if k < config_shots@.len() {
                        Some(config_shots@[k])
                    } else {
                        None
                    },
                    seq![1u8],
                ),
        decreases scenes@.len() - i,
    {
        let sc = &scenes[i];
        let baseline = ExtMetadataBlock::Level1(
            ExtMetadataBlockLevel1::from_stats_cm_version(0, sc.peak_pq, sc.avg_pq, l1_version),
        );
        let mut blocks: Vec<ExtMetadataBlock> = Vec::new();
        blocks.push(baseline);
        proof {
            assert(blocks@ =~= seq![scene_l1(sc.peak_pq, sc.avg_pq)]);
        }
        let mut edits: Vec<ShotFrameEdit> = Vec::new();
        match &sc.frame_peaks {
            None => (),
            Some(pk) => {
                let mut j: usize = 0;
                while j < pk.len()
                    invariant
                        j <= pk@.len(),
                        edits@.len() == j,
                        forall|m: int|
                            0 <= m < j ==> (#[trigger] edits@[m]).edit_offset == m
                                && edits@[m].metadata_blocks@ == seq![
                                scene_l1(pk@[m], sc.avg_pq),
                            ],
                    decreases pk@.len() - j,
                {
                    let peak_block = ExtMetadataBlock::Level1(
                        ExtMetadataBlockLevel1::from_stats_cm_version(
                            0,
                            pk[j],
                            sc.avg_pq,
                            l1_version,
                        ),
                    );
                    let mut eb: Vec<ExtMetadataBlock> = Vec::new();
                    eb.push(peak_block);
                    proof {
                        assert(eb@ =~= seq![scene_l1(pk@[j as int], sc.avg_pq)]);
                    }
                    edits.push(ShotFrameEdit { edit_offset: j, metadata_blocks: eb });
                    j = j + 1;
                }
            },
        }
        let mut shot = VideoShot {
            start: sc.start,
            duration: sc.duration,
            metadata_blocks: blocks,
            frame_edits: edits,
        };
        if i < config_shots.len() {
            let lv1: Vec<u8> = vec![1u8];
            proof {
                assert(lv1@ =~= seq![1u8]);
            }
            shot.copy_metadata_from_shot(&config_shots[i], Some(&lv1));
        }
        out.push(shot);
        i = i + 1;
    }
    out
}

// ---------- whole-clip configuration ----------

/// Sum of the shots' durations.
pub open spec fn spec_sum_durations(s: Seq<VideoShot>) -> nat
    decreases s.len(),
{
    if s.len() == 0 {
        0
    } else {
        (s[0].duration + spec_sum_durations(s.drop_first())) as nat
    }
}

pub proof fn lemma_sum_durations_split(a: Seq<VideoShot>, b: Seq<VideoShot>)
    ensures
        spec_sum_durations(a + b) == spec_sum_durations(a) + spec_sum_durations(b),
    decreases a.len(),
{
    if a.len() == 0 {
        assert(a + b =~= b);
    } else {
        assert((a + b).drop_first() =~= a.drop_first() + b);
        assert((a + b)[0] == a[0]);
        lemma_sum_durations_split(a.drop_first(), b);
    }
}

/// Whether a frame index falls inside a shot's range.
pub open spec fn shot_covers(sh: VideoShot, frame: nat) -> bool {
    sh.start <= frame < sh.start + sh.duration
}

/// The index of the first shot covering a frame, if any.
pub open spec fn first_shot_covering(shots: Seq<VideoShot>, frame: nat) -> Option<int>
    decreases shots.len(),
{
    if shots.len() == 0 {
        None
    } else if shot_covers(shots[0], frame) {
        Some(0)
    } else {
        match first_shot_covering(shots.drop_first(), frame) {
            Some(j) => Some(j + 1),
            None => None,
        }
    }
}

proof fn lemma_first_shot_at(shots: Seq<VideoShot>, frame: nat, i: int)
    requires
        0 <= i < shots.len(),
        shot_covers(shots[i], frame),
        forall|k: int| 0 <= k < i ==> !shot_covers(#[trigger] shots[k], frame),
    ensures
        first_shot_covering(shots, frame) == Some(i),
    decreases i,
{
    if i > 0 {
        assert forall|k: int|
            0 <= k < i - 1 implies !shot_covers(#[trigger] shots.drop_first()[k], frame) by {
            assert(shots.drop_first()[k] == shots[k + 1]);
        }
        assert(shots.drop_first()[i - 1] == shots[i]);
        lemma_first_shot_at(shots.drop_first(), frame, i - 1);
    }
}

proof fn lemma_first_shot_covering_props(shots: Seq<VideoShot>, frame: nat)
    ensures
        match first_shot_covering(shots, frame) {
            Some(j) => 0 <= j < shots.len() && shot_covers(shots[j], frame),
            None => true,
        },
    decreases shots.len(),
{
    if shots.len() > 0 && !shot_covers(shots[0], frame) {
        lemma_first_shot_covering_props(shots.drop_first(), frame);
        match first_shot_covering(shots.drop_first(), frame) {
            Some(j) => {
                assert(shots.drop_first()[j] == shots[j + 1]);
            },
            None => {},
        }
    }
}

proof fn lemma_first_shot_none(shots: Seq<VideoShot>, frame: nat)
    requires
        forall|k: int| 0 <= k < shots.len() ==> !shot_covers(#[trigger] shots[k], frame),
    ensures
        first_shot_covering(shots, frame) is None,
    decreases shots.len(),
{
    if shots.len() > 0 {
        assert forall|k: int|
            0 <= k < shots.drop_first().len() implies !shot_covers(
            #[trigger] shots.drop_first()[k],
            frame,
        ) by {
            assert(shots.drop_first()[k] == shots[k + 1]);
        }
        lemma_first_shot_none(shots.drop_first(), frame);
    }
}

/// The index of the first frame edit at an offset, if any.
pub open spec fn first_edit_at(edits: Seq<ShotFrameEdit>, offset: nat) -> Option<int>
    decreases edits.len(),
{
    if edits.len() == 0 {
        None
    } else if edits[0].edit_offset == offset {
        Some(0)
    } else {
        match first_edit_at(edits.drop_first(), offset) {
            Some(j) => Some(j + 1),
            None => None,
        }
    }
}

proof fn lemma_first_edit_at(edits: Seq<ShotFrameEdit>, offset: nat, i: int)
    requires
        0 <= i < edits.len(),
        edits[i].edit_offset == offset,
        forall|k: int| 0 <= k < i ==> (#[trigger] edits[k]).edit_offset != offset,
    ensures
        first_edit_at(edits, offset) == Some(i),
    decreases i,
{
    if i > 0 {
        assert forall|k: int|
            0 <= k < i - 1 implies (#[trigger] edits.drop_first()[k]).edit_offset != offset by {
            assert(edits.drop_first()[k] == edits[k + 1]);
        }
        assert(edits.drop_first()[i - 1] == edits[i]);
        lemma_first_edit_at(edits.drop_first(), offset, i - 1);
    }
}

proof fn lemma_first_edit_none(edits: Seq<ShotFrameEdit>, offset: nat)
    requires
        forall|k: int| 0 <= k < edits.len() ==> (#[trigger] edits[k]).edit_offset != offset,
    ensures
        first_edit_at(edits, offset) is None,
    decreases edits.len(),
{
    if edits.len() > 0 {
        assert forall|k: int|
            0 <= k < edits.drop_first().len() implies (#[trigger] edits.drop_first()[k]).edit_offset
            != offset by {
            assert(edits.drop_first()[k] == edits[k + 1]);
        }
        lemma_first_edit_none(edits.drop_first(), offset);
    }
}

/// The blocks active at one frame offset of a shot: the baseline, overlaid
/// by the first frame edit at that offset, level by level; levels the edit
/// does not carry fall back to the baseline.
pub open spec fn spec_frame_blocks(sh: VideoShot, offset: nat) -> Seq<ExtMetadataBlock> {
    match first_edit_at(sh.frame_edits@, offset) {
        None => sh.metadata_blocks@,
        Some(j) => spec_merge(
            sh.metadata_blocks@,
            sh.frame_edits@[j].metadata_blocks@,
            None,
        ),
    }
}

impl VideoShot {
    /// The blocks active at one frame offset of this shot.
    pub fn blocks_for_frame(&self, offset: usize) -> (r: Vec<ExtMetadataBlock>)
        ensures
            r@ == spec_frame_blocks(*self, offset as nat),
    {
        let mut i: usize = 0;
        while i < self.frame_edits.len()
            invariant
                i <= self.frame_edits@.len(),
                forall|k: int|
                    0 <= k < i ==> (#[trigger] self.frame_edits@[k]).edit_offset != offset,
            decreases self.frame_edits@.len() - i,
        {
            if self.frame_edits[i].edit_offset == offset {
                proof {
                    lemma_first_edit_at(self.frame_edits@, offset as nat, i as int);
                }
                let mut base: Vec<ExtMetadataBlock> = Vec::new();
                let mut k: usize = 0;
                while k < self.metadata_blocks.len()
                    invariant
                        k <= self.metadata_blocks@.len(),
                        base@ == self.metadata_blocks@.subrange(0, k as int),
                    decreases self.metadata_blocks@.len() - k,
                {
                    base.push(self.metadata_blocks[k]);
                    k = k + 1;
                    proof {
                        assert(base@ =~= self.metadata_blocks@.subrange(0, k as int));
                    }
                }
                proof {
                    assert(self.metadata_blocks@.subrange(
                        0,
                        self.metadata_blocks@.len() as int,
                    ) =~= self.metadata_blocks@);
                }
                merge_blocks(&mut base, &self.frame_edits[i].metadata_blocks, None);
                return base;
            }
            i = i + 1;
        }
        proof {
            lemma_first_edit_none(self.frame_edits@, offset as nat);
        }
        let mut base: Vec<ExtMetadataBlock> = Vec::new();
        let mut k: usize = 0;
        while k < self.metadata_blocks.len()
            invariant
                k <= self.metadata_blocks@.len(),
                base@ == self.metadata_blocks@.subrange(0, k as int),
            decreases self.metadata_blocks@.len() - k,
        {
            base.push(self.metadata_blocks[k]);
            k = k + 1;
            proof {
                assert(base@ =~= self.metadata_blocks@.subrange(0, k as int));
            }
        }
        proof {
            assert(self.metadata_blocks@.subrange(0, self.metadata_blocks@.len() as int)
                =~= self.metadata_blocks@);
        }
        base
    }
}

/// Every block of the sequence is well formed.
pub open spec fn all_blocks_valid(s: Seq<ExtMetadataBlock>) -> bool {
    forall|i: int| 0 <= i < s.len() ==> (#[trigger] s[i]).valid()
}

/// A shot whose blocks are all well formed and whose collections stay far
/// from the machine's counting limits.
pub open spec fn shot_wf(sh: VideoShot) -> bool {
    &&& all_blocks_valid(sh.metadata_blocks@)
    &&& sh.metadata_blocks@.len() < 0x4000000000000000
    &&& forall|j: int|
        0 <= j < sh.frame_edits@.len() ==> all_blocks_valid(
            (#[trigger] sh.frame_edits@[j]).metadata_blocks@,
        ) && sh.frame_edits@[j].metadata_blocks@.len() < 0x4000000000000000
}

/// Serialize one block collection: legality-check every block for the
/// version, re-sort canonically, and write the counted, padded wire image.
fn payload_from_blocks(v: CmVersion, active: &Vec<ExtMetadataBlock>) -> (res: Result<
    Vec<u8>,
    MetadataError,
>)
    requires
        all_blocks_valid(active@),
        active@.len() < u64::MAX,
    ensures
        match res {
            Ok(bytes) => (forall|i: int|
                0 <= i < active@.len() ==> spec_level_allowed(
                    v,
                    (#[trigger] active@[i]).spec_level(),
                )) && bits_of_bytes(bytes@) == dm_bits(canonical_order(active@), 0),
            Err(e) => e == MetadataError::InvalidLevelForVersion && exists|i: int|
                0 <= i < active@.len() && !spec_level_allowed(
                    v,
                    (#[trigger] active@[i]).spec_level(),
                ),
        },
{
    match v {
        CmVersion::V29 => {
            let mut dm = CmV29DmData::with_blocks_allocation(active.len() as u64);
            let mut i: usize = 0;
            while i < active.len()
                invariant
                    v == CmVersion::V29,
                    i <= active@.len(),
                    all_blocks_valid(active@),
                    active@.len() < u64::MAX,
                    dm.wf(),
                    dm.blocks@ == canonical_order(active@.subrange(0, i as int)),
                    forall|k: int|
                        0 <= k < i ==> spec_level_allowed(
                            CmVersion::V29,
                            (#[trigger] active@[k]).spec_level(),
                        ),
                decreases active@.len() - i,
            {
                let ghost pre = active@.subrange(0, i as int);
                match dm.add_block(active[i]) {
                    Ok(_) => {
                        proof {
                            lemma_canonical_push(pre, active@[i as int]);
                            assert(active@.subrange(0, (i + 1) as int) =~= pre.push(
                                active@[i as int],
                            ));
                        }
                        i = i + 1;
                    },
                    Err(e) => {
                        return Err(e);
                    },
                }
            }
            proof {
                assert(active@.subrange(0, active@.len() as int) =~= active@);
                lemma_canonical_order_len(active@);
            }
            let mut w = BitstreamWriter::with_capacity(64);
            dm.write_all(&mut w);
            proof {
                lemma_dm_bits_bytes(dm.blocks@, 0);
            }
            Ok(w.into_inner())
        },
        CmVersion::V40 => {
            let mut dm = CmV40DmData::with_blocks_allocation(active.len() as u64);
            let mut i: usize = 0;
            while i < active.len()
                invariant
                    v == CmVersion::V40,
                    i <= active@.len(),
                    all_blocks_valid(active@),
                    active@.len() < u64::MAX,
                    dm.wf(),
                    dm.blocks@ == canonical_order(active@.subrange(0, i as int)),
                    forall|k: int|
                        0 <= k < i ==> spec_level_allowed(
                            CmVersion::V40,
                            (#[trigger] active@[k]).spec_level(),
                        ),
                decreases active@.len() - i,
            {
                let ghost pre = active@.subrange(0, i as int);
                match dm.add_block(active[i]) {
                    Ok(_) => {
                        proof {
                            lemma_canonical_push(pre, active@[i as int]);
                            assert(active@.subrange(0, (i + 1) as int) =~= pre.push(
                                active@[i as int],
                            ));
                        }
                        i = i + 1;
                    },
                    Err(e) => {
                        return Err(e);
                    },
                }
            }
            proof {
                assert(active@.subrange(0, active@.len() as int) =~= active@);
                lemma_canonical_order_len(active@);
            }
            let mut w = BitstreamWriter::with_capacity(64);
            dm.write_all(&mut w);
            proof {
                lemma_dm_bits_bytes(dm.blocks@, 0);
            }
            Ok(w.into_inner())
        },
    }
}

impl GenerateConfig {
    /// Every shot of the configuration is well formed.
    pub open spec fn shots_wf(&self) -> bool {
        forall|i: int| 0 <= i < self.shots@.len() ==> shot_wf(#[trigger] self.shots@[i])
    }

    /// Default the level-1 averaging version to the configuration's own
    /// color-metadata version when none was given.
    pub fn set_l1_version_default(&mut self)
        ensures
            final(self).l1_avg_pq_cm_version == (match old(self).l1_avg_pq_cm_version {
                None => Some(old(self).cm_version),
                Some(v) => Some(v),
            }),
            final(self).cm_version == old(self).cm_version,
            final(self).profile == old(self).profile,
            final(self).length == old(self).length,
            final(self).long_play_mode == old(self).long_play_mode,
            final(self).level6 == old(self).level6,
            final(self).shots == old(self).shots,
    {
        if self.l1_avg_pq_cm_version.is_none() {
            self.l1_avg_pq_cm_version = Some(self.cm_version);
        }
    }

    /// The sum of the shots' durations.
    pub fn shots_total_duration(&self) -> (r: usize)
        requires
            spec_sum_durations(self.shots@) <= usize::MAX,
        ensures
            r == spec_sum_durations(self.shots@),
    {
        let mut acc: usize = 0;
        let mut i: usize = 0;
        while i < self.shots.len()
            invariant
                i <= self.shots@.len(),
                spec_sum_durations(self.shots@) <= usize::MAX,
                acc == spec_sum_durations(self.shots@.subrange(0, i as int)),
            decreases self.shots@.len() - i,
        {
            proof {
                let pre = self.shots@.subrange(0, i as int);
                let one = seq![self.shots@[i as int]];
                let post = self.shots@.subrange(i as int, self.shots@.len() as int);
                assert(pre + post =~= self.shots@);
                lemma_sum_durations_split(pre, post);
                assert(one.drop_first() =~= Seq::<VideoShot>::empty());
                assert(one[0] == self.shots@[i as int]);
                assert(spec_sum_durations(Seq::<VideoShot>::empty()) == 0);
                assert(spec_sum_durations(one) == self.shots@[i as int].duration);
                let rest = self.shots@.subrange(i as int + 1, self.shots@.len() as int);
                assert(one + rest =~= post);
                lemma_sum_durations_split(one, rest);
                assert(self.shots@.subrange(0, i as int + 1) =~= pre + one);
                lemma_sum_durations_split(pre, one);
            }
            acc = acc + self.shots[i].duration;
            i = i + 1;
        }
        proof {
            assert(self.shots@.subrange(0, self.shots@.len() as int) =~= self.shots@);
        }
        acc
    }

    /// Close the configuration for emission: derive the length from the
    /// shots' durations when none was declared, fail when nothing can give a
    /// frame count, and synthesize one whole-clip shot when none exists.
    pub fn finalize(&mut self) -> (res: Result<(), MetadataError>)
        requires
            spec_sum_durations(old(self).shots@) <= usize::MAX,
        ensures
            final(self).cm_version == old(self).cm_version,
            final(self).profile == old(self).profile,
            final(self).long_play_mode == old(self).long_play_mode,
            final(self).level6 == old(self).level6,
            final(self).l1_avg_pq_cm_version == old(self).l1_avg_pq_cm_version,
            match res {
                Ok(_) => {
                    &&& !(old(self).length == 0 && old(self).shots@.len() == 0)
                    &&& final(self).length == (if old(self).length == 0 && old(self).shots@.len()
                        > 0 {
                        spec_sum_durations(old(self).shots@)
                    } else {
                        old(self).length as nat
                    })
                    &&& (old(self).shots@.len() > 0 ==> final(self).shots == old(self).shots)
                    &&& (old(self).shots@.len() == 0 ==> final(self).shots@.len() == 1 && final(self).shots@[0].start == 0 && final(self).shots@[0].duration == final(self).length
                        && final(self).shots@[0].metadata_blocks@.len() == 0 && final(self).shots@[0].frame_edits@.len() == 0)
                },
                Err(e) => {
                    &&& e == MetadataError::MissingRequiredInput
                    &&& old(self).length == 0 && old(self).shots@.len() == 0
                    &&& final(self).length == old(self).length
                    &&& final(self).shots == old(self).shots
                },
            },
    {
        if self.length == 0 && self.shots.len() > 0 {
            self.length = self.shots_total_duration();
        }
        if self.length == 0 && self.shots.len() == 0 {
            return Err(MetadataError::MissingRequiredInput);
        }
        if self.shots.len() == 0 {
            let blocks: Vec<ExtMetadataBlock> = Vec::new();
            let edits: Vec<ShotFrameEdit> = Vec::new();
            self.shots.push(
                VideoShot {
                    start: 0,
                    duration: self.length,
                    metadata_blocks: blocks,
                    frame_edits: edits,
                },
            );
        }
        Ok(())
    }

    /// Override the profile and the long-play flag from invocation
    /// arguments, leaving everything else untouched.
    pub fn apply_overrides(
        &mut self,
        profile: Option<GeneratorProfile>,
        long_play_mode: Option<bool>,
    )
        ensures
            final(self).profile == (match profile {
                Some(p) => spec_profile_from(p),
                None => old(self).profile,
            }),
            final(self).long_play_mode == (match long_play_mode {
                Some(b) => b,
                None => old(self).long_play_mode,
            }),
            final(self).cm_version == old(self).cm_version,
            final(self).length == old(self).length,
            final(self).l1_avg_pq_cm_version == old(self).l1_avg_pq_cm_version,
            final(self).level6 == old(self).level6,
            final(self).shots == old(self).shots,
    {
        match profile {
            Some(p) => {
                self.profile = GenerateProfile::from(p);
            },
            None => (),
        }
        match long_play_mode {
            Some(b) => {
                self.long_play_mode = b;
            },
            None => (),
        }
    }

    /// Replace the shots by shots generated from scene measurements, merged
    /// with this configuration's own shots position by position, and set the
    /// clip length to the source's frame count.
    pub fn apply_scene_stats(&mut self, scenes: &Vec<SceneStats>, frame_count: usize)
        requires
            old(self).l1_avg_pq_cm_version is Some,
        ensures
            final(self).shots@.len() == scenes@.len(),
            forall|i: int|
                0 <= i < scenes@.len() ==> shot_matches_scene(
                    #[trigger] final(self).shots@[i],
                    scenes@[i],
                    if i < old(self).shots@.len() {
                        Some(old(self).shots@[i])
                    } else {
                        None
                    },
                    seq![1u8],
                ),
            final(self).length == frame_count,
            final(self).cm_version == old(self).cm_version,
            final(self).profile == old(self).profile,
            final(self).long_play_mode == old(self).long_play_mode,
            final(self).l1_avg_pq_cm_version == old(self).l1_avg_pq_cm_version,
            final(self).level6 == old(self).level6,
    {
        let ver = match self.l1_avg_pq_cm_version {
            Some(v) => v,
            None => CmVersion::V29,
        };
        let new_shots = shots_from_scene_stats(scenes, &self.shots, ver);
        self.shots = new_shots;
        self.length = frame_count;
    }

    /// Fill the zero fields of an existing static light-level block from the
    /// measurement header; absent block or nonzero fields are kept.
    pub fn apply_level6_defaults(&mut self, maxcll: u16, maxfall: u16)
        ensures
            final(self).level6 == (match old(self).level6 {
                None => None::<ExtMetadataBlockLevel6>,
                Some(l6) => Some(
                    ExtMetadataBlockLevel6 {
                        max_content_light_level: if l6.max_content_light_level == 0 {
                            maxcll
                        } else {
                            l6.max_content_light_level
                        },
                        max_frame_average_light_level: if l6.max_frame_average_light_level == 0 {
                            maxfall
                        } else {
                            l6.max_frame_average_light_level
                        },
                        ..l6
                    },
                ),
            }),
            final(self).cm_version == old(self).cm_version,
            final(self).profile == old(self).profile,
            final(self).length == old(self).length,
            final(self).long_play_mode == old(self).long_play_mode,
            final(self).l1_avg_pq_cm_version == old(self).l1_avg_pq_cm_version,
            final(self).shots == old(self).shots,
    {
        match &mut self.level6 {
            None => (),
            Some(l6) => {
                if l6.max_content_light_level == 0 {
                    l6.max_content_light_level = maxcll;
                }
                if l6.max_frame_average_light_level == 0 {
                    l6.max_frame_average_light_level = maxfall;
                }
            },
        }
    }

    /// The index of the first shot covering a frame, if any.
    pub fn shot_index_for_frame(&self, frame: usize) -> (r: Option<usize>)
        ensures
            match r {
                Some(i) => first_shot_covering(self.shots@, frame as nat) == Some(i as int),
                None => first_shot_covering(self.shots@, frame as nat) is None,
            },
    {
        let mut i: usize = 0;
        while i < self.shots.len()
            invariant
                i <= self.shots@.len(),
                forall|k: int| 0 <= k < i ==> !shot_covers(#[trigger] self.shots@[k], frame as nat),
            decreases self.shots@.len() - i,
        {
            let s = &self.shots[i];
            if frame >= s.start && frame - s.start < s.duration {
                proof {
                    lemma_first_shot_at(self.shots@, frame as nat, i as int);
                }
                return Some(i);
            }
            i = i + 1;
        }
        proof {
            lemma_first_shot_none(self.shots@, frame as nat);
        }
        None
    }

    /// The assembled display-management payload of one output frame: the
    /// owning shot's baseline overlaid by its frame edit, legality-checked
    /// and serialized in canonical order. Fails with `MissingRequiredInput`
    /// exactly when no shot covers the frame, and with
    /// `InvalidLevelForVersion` exactly when an active block's level is
    /// illegal for the configuration's version.
    pub fn frame_payload(&self, frame: usize) -> (res: Result<Vec<u8>, MetadataError>)
        requires
            self.shots_wf(),
        ensures
            match res {
                Ok(bytes) => first_shot_covering(self.shots@, frame as nat) matches Some(i)
                    && (forall|k: int|
                    0 <= k < spec_frame_blocks(
                        self.shots@[i],
                        (frame - self.shots@[i].start) as nat,
                    ).len() ==> spec_level_allowed(
                        self.cm_version,
                        (#[trigger] spec_frame_blocks(
                            self.shots@[i],
                            (frame - self.shots@[i].start) as nat,
                        )[k]).spec_level(),
                    )) && bits_of_bytes(bytes@) == dm_bits(
                    canonical_order(
                        spec_frame_blocks(
                            self.shots@[i],
                            (frame - self.shots@[i].start) as nat,
                        ),
                    ),
                    0,
                ),
                Err(e) => (e == MetadataError::MissingRequiredInput && first_shot_covering(
                    self.shots@,
                    frame as nat,
                ) is None) || (e == MetadataError::InvalidLevelForVersion && (first_shot_covering(
                    self.shots@,
                    frame as nat,
                ) matches Some(i) && exists|k: int|
                    0 <= k < spec_frame_blocks(
                        self.shots@[i],
                        (frame - self.shots@[i].start) as nat,
                    ).len() && !spec_level_allowed(
                        self.cm_version,
                        (#[trigger] spec_frame_blocks(
                            self.shots@[i],
                            (frame - self.shots@[i].start) as nat,
                        )[k]).spec_level(),
                    ))),
            },
    {
        let idx = match self.shot_index_for_frame(frame) {
            None => {
                return Err(MetadataError::MissingRequiredInput);
            },
            Some(i) => i,
        };
        proof {
            lemma_first_shot_covering_props(self.shots@, frame as nat);
        }
        let shot = &self.shots[idx];
        let active = shot.blocks_for_frame(frame - shot.start);
        proof {
            assert(shot_wf(self.shots@[idx as int]));
            lemma_frame_blocks_wf(self.shots@[idx as int], (frame - shot.start) as nat);
        }
        payload_from_blocks(self.cm_version, &active)
    }
}

/// The active blocks of a frame inherit well-formedness and a length bound
/// from the shot.
proof fn lemma_frame_blocks_wf(sh: VideoShot, offset: nat)
    requires
        shot_wf(sh),
    ensures
        all_blocks_valid(spec_frame_blocks(sh, offset)),
        spec_frame_blocks(sh, offset).len() < u64::MAX,
{
    match first_edit_at(sh.frame_edits@, offset) {
        None => {},
        Some(j) => {
            lemma_first_edit_index(sh.frame_edits@, offset);
            lemma_merge_valid(sh.metadata_blocks@, sh.frame_edits@[j].metadata_blocks@, None);
            lemma_merge_len(sh.metadata_blocks@, sh.frame_edits@[j].metadata_blocks@, None);
        },
    }
}

/// The index a first-edit search returns lies in range.
proof fn lemma_first_edit_index(edits: Seq<ShotFrameEdit>, offset: nat)
    ensures
        match first_edit_at(edits, offset) {
            Some(j) => 0 <= j < edits.len(),
            None => true,
        },
    decreases edits.len(),
{
    if edits.len() > 0 && edits[0].edit_offset != offset {
        lemma_first_edit_index(edits.drop_first(), offset);
    }
}

/// A merge of well-formed blocks is well formed.
proof fn lemma_merge_valid(
    base: Seq<ExtMetadataBlock>,
    src: Seq<ExtMetadataBlock>,
    sel: Option<Seq<u8>>,
)
    requires
        all_blocks_valid(base),
        all_blocks_valid(src),
    ensures
        all_blocks_valid(spec_merge(base, src, sel)),
    decreases src.len(),
{
    broadcast use Seq::lemma_filter_pred;

    if src.len() > 0 {
        let b = src[0];
        let rest = src.drop_first();
        assert(all_blocks_valid(rest)) by {
            assert forall|i: int| 0 <= i < rest.len() implies (#[trigger] rest[i]).valid() by {
                assert(rest[i] == src[i + 1]);
            }
        }
        if sel_contains(sel, b.spec_level()) {
            let inner = base.filter(keep_pred(b.spec_level()));
            assert(all_blocks_valid(inner.push(b))) by {
                crate::container::lemma_filter_element_of(base, keep_pred(b.spec_level()));
                assert forall|i: int|
                    0 <= i < inner.push(b).len() implies (#[trigger] inner.push(b)[i]).valid() by {
                    if i < inner.len() {
                        assert(base.contains(inner[i]));
                        let j = choose|j: int| 0 <= j < base.len() && base[j] == inner[i];
                        assert(base[j].valid());
                    }
                }
            }
            lemma_merge_valid(inner.push(b), rest, sel);
        } else {
            lemma_merge_valid(base, rest, sel);
        }
    }
}

} // verus!
