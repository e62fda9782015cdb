//! Versioned containers of extension metadata blocks: canonical ordering,
//! legality of levels, and the counted, alignment-padded wire codec.

use vstd::prelude::*;

use crate::bits::{
    golomb_bits, golomb_len, lemma_golomb_bits_len, lemma_parse_ue_golomb, pow2, read_ue,
    spec_parse_ue, write_ue, zero_bits, BitstreamReader, BitstreamWriter,
};
use crate::blocks::{
    block_bits, lemma_block_bits_len, lemma_parse_block_of_bits, parse_block, spec_parse_block,
    ExtMetadataBlock,
};
use crate::{level_allowed, spec_level_allowed, CmVersion, MetadataError};

verus! {

/// The predicate selecting the blocks of one canonical rank.
pub open spec fn level_pred(lv: u8) -> spec_fn(ExtMetadataBlock) -> bool {
    |b: ExtMetadataBlock| b.spec_sort_key() == lv
}

/// The canonical output order: the blocks of each level in turn, levels in
/// the fixed order of the format. Insertion order within a level is kept.
pub open spec fn canonical_order(s: Seq<ExtMetadataBlock>) -> Seq<ExtMetadataBlock> {
    s.filter(level_pred(1)) + s.filter(level_pred(2)) + s.filter(level_pred(3)) + s.filter(
        level_pred(5),
    ) + s.filter(level_pred(6))
}

/// No two blocks of the sequence share a level.
pub open spec fn distinct_levels(s: Seq<ExtMetadataBlock>) -> bool {
    forall|i: int, j: int|
        0 <= i < j < s.len() ==> (#[trigger] s[i]).spec_level() != (#[trigger] s[j]).spec_level()
}

proof fn lemma_filter_none(s: Seq<ExtMetadataBlock>, lv: u8)
    requires
        forall|i: int| 0 <= i < s.len() ==> (#[trigger] s[i]).spec_level() != lv,
    ensures
        s.filter(level_pred(lv)) == Seq::<ExtMetadataBlock>::empty(),
    decreases s.len(),
{
    reveal(Seq::filter);
    if s.len() > 0 {
        lemma_filter_none(s.drop_last(), lv);
    }
}

proof fn lemma_filter_single(s: Seq<ExtMetadataBlock>, lv: u8, j: int)
    requires
        0 <= j < s.len(),
        s[j].spec_level() == lv,
        forall|i: int|
            0 <= i < s.len() && i != j ==> (#[trigger] s[i]).spec_level() != lv,
    ensures
        s.filter(level_pred(lv)) == seq![s[j]],
    decreases s.len(),
{
    reveal(Seq::filter);
    if j == s.len() - 1 {
        lemma_filter_none(s.drop_last(), lv);
        assert(s.filter(level_pred(lv)) =~= seq![s[j]]);
    } else {
        lemma_filter_single(s.drop_last(), lv, j);
    }
}

proof fn lemma_filter_of_same_multiset(s1: Seq<ExtMetadataBlock>, s2: Seq<ExtMetadataBlock>, lv: u8)
    requires
        s1.to_multiset() == s2.to_multiset(),
        distinct_levels(s1),
        distinct_levels(s2),
    ensures
        s1.filter(level_pred(lv)) == s2.filter(level_pred(lv)),
{
    broadcast use vstd::seq_lib::group_to_multiset_ensures;

    if exists|j: int| 0 <= j < s1.len() && (#[trigger] s1[j]).spec_level() == lv {
        let j1 = choose|j: int| 0 <= j < s1.len() && (#[trigger] s1[j]).spec_level() == lv;
        let x = s1[j1];
        assert(s1.contains(x));
        assert(s1.to_multiset().count(x) > 0);
        assert(s2.to_multiset().count(x) > 0);
        assert(s2.contains(x));
        let j2 = choose|j: int| 0 <= j < s2.len() && s2[j] == x;
        lemma_filter_single(s1, lv, j1);
        lemma_filter_single(s2, lv, j2);
    } else {
        assert forall|i: int| 0 <= i < s2.len() implies (#[trigger] s2[i]).spec_level() != lv by {
            let y = s2[i];
            assert(s2.contains(y));
            assert(s2.to_multiset().count(y) > 0);
            assert(s1.to_multiset().count(y) > 0);
            assert(s1.contains(y));
            let jy = choose|j: int| 0 <= j < s1.len() && s1[j] == y;
            assert(s1[jy].spec_level() != lv);
        }
        lemma_filter_none(s1, lv);
        lemma_filter_none(s2, lv);
    }
}

/// Distinct levels carry over to any reordering of the same blocks.
proof fn lemma_distinct_levels_transfer(s1: Seq<ExtMetadataBlock>, s2: Seq<ExtMetadataBlock>)
    requires
        s1.to_multiset() == s2.to_multiset(),
        distinct_levels(s1),
    ensures
        distinct_levels(s2),
{
    broadcast use vstd::seq_lib::group_to_multiset_ensures;

    assert(s1.no_duplicates()) by {
        assert forall|i: int, j: int|
            0 <= i < s1.len() && 0 <= j < s1.len() && i != j implies s1[i] != s1[j] by {
            assert(s1[i].spec_level() != s1[j].spec_level());
        }
    }
    s1.lemma_multiset_has_no_duplicates();
    s2.lemma_multiset_has_no_duplicates_conv();
    assert forall|i: int, j: int|
        0 <= i < j < s2.len() implies (#[trigger] s2[i]).spec_level() != (
    #[trigger] s2[j]).spec_level() by {
        let y = s2[i];
        let z = s2[j];
        assert(y != z);
        assert(s2.contains(y) && s2.contains(z));
        assert(s1.to_multiset().count(y) > 0 && s1.to_multiset().count(z) > 0);
        assert(s1.contains(y) && s1.contains(z));
        let iy = choose|k: int| 0 <= k < s1.len() && s1[k] == y;
        let jz = choose|k: int| 0 <= k < s1.len() && s1[k] == z;
        assert(iy != jz);
        assert(s1[iy].spec_level() != s1[jz].spec_level());
    }
}

/// Canonical ordering is a function of the set of blocks alone: two
/// sequences holding the same blocks, in any insertion orders, have the same
/// canonical order, as long as no level is carried by two distinct blocks.
pub proof fn lemma_canonical_order_of_multiset(
    s1: Seq<ExtMetadataBlock>,
    s2: Seq<ExtMetadataBlock>,
)
    requires
        s1.to_multiset() == s2.to_multiset(),
        distinct_levels(s1),
    ensures
        canonical_order(s1) == canonical_order(s2),
{
    lemma_distinct_levels_transfer(s1, s2);
    lemma_filter_of_same_multiset(s1, s2, 1);
    lemma_filter_of_same_multiset(s1, s2, 2);
    lemma_filter_of_same_multiset(s1, s2, 3);
    lemma_filter_of_same_multiset(s1, s2, 5);
    lemma_filter_of_same_multiset(s1, s2, 6);
}

/// Every block keeps its place in the canonical order: the reordering loses
/// nothing and adds nothing.
pub proof fn lemma_canonical_order_len(s: Seq<ExtMetadataBlock>)
    ensures
        canonical_order(s).len() == s.len(),
        canonical_order(s).to_multiset() == s.to_multiset(),
    decreases s.len(),
{
    reveal(Seq::filter);
    broadcast use vstd::seq_lib::group_to_multiset_ensures;

    if s.len() == 0 {
        assert(canonical_order(s) =~= s);
    } else {
        let t = s.drop_last();
        let x = s.last();
        lemma_canonical_order_len(t);
        assert(canonical_order(s).to_multiset() =~= s.to_multiset()) by {
            lemma_canonical_insert(t, x);
            assert(t.push(x) =~= s);
        }
        assert(canonical_order(s).len() == s.len()) by {
            lemma_canonical_insert(t, x);
            assert(t.push(x) =~= s);
        }
    }
}

/// The canonical order is non-decreasing in the sort key: the blocks stand
/// in the fixed total order over the level set. Together with
/// `lemma_canonical_order_len` (a permutation) and `lemma_canonical_idempotent`
/// this is the full statement of the re-sort; blocks of one level keep their
/// relative order by construction.
pub proof fn lemma_canonical_order_sorted(s: Seq<ExtMetadataBlock>)
    ensures
        forall|i: int, j: int|
            0 <= i < j < canonical_order(s).len() ==> (#[trigger] canonical_order(
                s,
            )[i]).spec_sort_key() <= (#[trigger] canonical_order(s)[j]).spec_sort_key(),
{
    broadcast use Seq::lemma_filter_pred;

    let c = canonical_order(s);
    let n1 = s.filter(level_pred(1)).len() as int;
    let n2 = s.filter(level_pred(2)).len() as int;
    let n3 = s.filter(level_pred(3)).len() as int;
    let n5 = s.filter(level_pred(5)).len() as int;
    assert forall|i: int| 0 <= i < c.len() implies ((#[trigger] c[i]).spec_sort_key() == 1 && i
        < n1) || (c[i].spec_sort_key() == 2 && n1 <= i < n1 + n2) || (c[i].spec_sort_key() == 3
        && n1 + n2 <= i < n1 + n2 + n3) || (c[i].spec_sort_key() == 5 && n1 + n2 + n3 <= i < n1
        + n2 + n3 + n5) || (c[i].spec_sort_key() == 6 && n1 + n2 + n3 + n5 <= i) by {
        if i < n1 {
            assert(c[i] == s.filter(level_pred(1))[i]);
            assert(level_pred(1)(c[i]));
        } else if i < n1 + n2 {
            assert(c[i] == s.filter(level_pred(2))[i - n1]);
            assert(level_pred(2)(c[i]));
        } else if i < n1 + n2 + n3 {
            assert(c[i] == s.filter(level_pred(3))[i - n1 - n2]);
            assert(level_pred(3)(c[i]));
        } else if i < n1 + n2 + n3 + n5 {
            assert(c[i] == s.filter(level_pred(5))[i - n1 - n2 - n3]);
            assert(level_pred(5)(c[i]));
        } else {
            assert(c[i] == s.filter(level_pred(6))[i - n1 - n2 - n3 - n5]);
            assert(level_pred(6)(c[i]));
        }
    }
}

/// Appending one block inserts it into its level's segment of the canonical
/// order.
proof fn lemma_canonical_insert(t: Seq<ExtMetadataBlock>, x: ExtMetadataBlock)
    ensures
        canonical_order(t.push(x)).len() == canonical_order(t).len() + 1,
        canonical_order(t.push(x)).to_multiset() == canonical_order(t).to_multiset().insert(x),
{
    reveal(Seq::filter);
    broadcast use vstd::seq_lib::group_to_multiset_ensures;

    let s = t.push(x);
    assert(s.drop_last() =~= t);
    assert(s.last() == x);
    let c1 = canonical_order(t);
    let c2 = canonical_order(s);
    let lv = x.spec_sort_key();
    assert(lv == 1 || lv == 2 || lv == 3 || lv == 5 || lv == 6);
    if lv == 1 {
        let tail = t.filter(level_pred(2)) + t.filter(level_pred(3)) + t.filter(level_pred(5))
            + t.filter(level_pred(6));
        assert(c2 =~= t.filter(level_pred(1)).push(x) + tail);
        assert(c1 =~= t.filter(level_pred(1)) + tail);
        lemma_concat_multiset_insert_first(t.filter(level_pred(1)), tail, x, c1, c2);
    } else if lv == 2 {
        assert(c2 =~= t.filter(level_pred(1)) + t.filter(level_pred(2)).push(x) + t.filter(
            level_pred(3),
        ) + t.filter(level_pred(5)) + t.filter(level_pred(6)));
        lemma_multiset_of_five(t, x, 2);
    } else if lv == 3 {
        assert(c2 =~= t.filter(level_pred(1)) + t.filter(level_pred(2)) + t.filter(
            level_pred(3),
        ).push(x) + t.filter(level_pred(5)) + t.filter(level_pred(6)));
        lemma_multiset_of_five(t, x, 3);
    } else if lv == 5 {
        assert(c2 =~= t.filter(level_pred(1)) + t.filter(level_pred(2)) + t.filter(level_pred(3))
            + t.filter(level_pred(5)).push(x) + t.filter(level_pred(6)));
        lemma_multiset_of_five(t, x, 5);
    } else {
        assert(c2 =~= t.filter(level_pred(1)) + t.filter(level_pred(2)) + t.filter(level_pred(3))
            + t.filter(level_pred(5)) + t.filter(level_pred(6)).push(x));
        lemma_multiset_of_five(t, x, 6);
    }
}

proof fn lemma_concat_multiset_insert_first(
    a: Seq<ExtMetadataBlock>,
    b: Seq<ExtMetadataBlock>,
    x: ExtMetadataBlock,
    c1: Seq<ExtMetadataBlock>,
    c2: Seq<ExtMetadataBlock>,
)
    requires
        c1 == a + b,
        c2 == a.push(x) + b,
    ensures
        c2.len() == c1.len() + 1,
        c2.to_multiset() == c1.to_multiset().insert(x),
{
    broadcast use vstd::seq_lib::group_to_multiset_ensures;

    vstd::seq_lib::lemma_multiset_commutative(a, b);
    vstd::seq_lib::lemma_multiset_commutative(a.push(x), b);
    assert(a.push(x).to_multiset() =~= a.to_multiset().insert(x));
    assert(c2.to_multiset() =~= c1.to_multiset().insert(x));
}

/// Pushing a block of level `lv` onto the middle segment of the canonical
/// concatenation inserts it into the whole's multiset.
proof fn lemma_multiset_of_five(t: Seq<ExtMetadataBlock>, x: ExtMetadataBlock, lv: u8)
    requires
        x.spec_sort_key() == lv,
        lv == 2 || lv == 3 || lv == 5 || lv == 6,
    ensures
        canonical_order(t.push(x)).len() == canonical_order(t).len() + 1,
        canonical_order(t.push(x)).to_multiset() == canonical_order(t).to_multiset().insert(x),
{
    reveal(Seq::filter);
    broadcast use vstd::seq_lib::group_to_multiset_ensures;

    let s = t.push(x);
    assert(s.drop_last() =~= t);
    let f1 = t.filter(level_pred(1));
    let f2 = t.filter(level_pred(2));
    let f3 = t.filter(level_pred(3));
    let f5 = t.filter(level_pred(5));
    let f6 = t.filter(level_pred(6));
    let c1 = canonical_order(t);
    let c2 = canonical_order(s);
    if lv == 2 {
        assert(c2 =~= (f1 + f2.push(x)) + f3 + f5 + f6);
        assert(f1 + f2.push(x) =~= (f1 + f2).push(x));
        assert(c2 =~= (f1 + f2).push(x) + (f3 + f5 + f6));
        lemma_concat_multiset_insert_first(f1 + f2, f3 + f5 + f6, x, (f1 + f2) + (f3 + f5 + f6), c2);
        assert(c1 =~= (f1 + f2) + (f3 + f5 + f6));
    } else if lv == 3 {
        assert(c2 =~= (f1 + f2 + f3.push(x)) + f5 + f6);
        assert(f1 + f2 + f3.push(x) =~= (f1 + f2 + f3).push(x));
        assert(c2 =~= (f1 + f2 + f3).push(x) + (f5 + f6));
        lemma_concat_multiset_insert_first(f1 + f2 + f3, f5 + f6, x, (f1 + f2 + f3) + (f5 + f6), c2);
        assert(c1 =~= (f1 + f2 + f3) + (f5 + f6));
    } else if lv == 5 {
        assert(c2 =~= (f1 + f2 + f3 + f5.push(x)) + f6);
        assert(f1 + f2 + f3 + f5.push(x) =~= (f1 + f2 + f3 + f5).push(x));
        assert(c2 =~= (f1 + f2 + f3 + f5).push(x) + f6);
        lemma_concat_multiset_insert_first(f1 + f2 + f3 + f5, f6, x, (f1 + f2 + f3 + f5) + f6, c2);
        assert(c1 =~= (f1 + f2 + f3 + f5) + f6);
    } else {
        assert(c2 =~= (f1 + f2 + f3 + f5 + f6).push(x));
        assert(c2 =~= (f1 + f2 + f3 + f5 + f6).push(x) + Seq::<ExtMetadataBlock>::empty());
        lemma_concat_multiset_insert_first(
            f1 + f2 + f3 + f5 + f6,
            Seq::<ExtMetadataBlock>::empty(),
            x,
            (f1 + f2 + f3 + f5 + f6) + Seq::<ExtMetadataBlock>::empty(),
            c2,
        );
        assert(c1 =~= (f1 + f2 + f3 + f5 + f6) + Seq::<ExtMetadataBlock>::empty());
    }
}

/// Every block of the canonical order comes from the source sequence.
pub proof fn lemma_filter_element_of(s: Seq<ExtMetadataBlock>, pred: spec_fn(ExtMetadataBlock) -> bool)
    ensures
        forall|i: int|
            0 <= i < s.filter(pred).len() ==> s.contains(#[trigger] s.filter(pred)[i]),
    decreases s.len(),
{
    reveal(Seq::filter);
    if s.len() > 0 {
        lemma_filter_element_of(s.drop_last(), pred);
        assert forall|i: int|
            0 <= i < s.filter(pred).len() implies s.contains(#[trigger] s.filter(pred)[i]) by {
            let t = s.drop_last();
            if i < t.filter(pred).len() {
                assert(t.contains(t.filter(pred)[i]));
                let j = choose|j: int| 0 <= j < t.len() && t[j] == t.filter(pred)[i];
                assert(s[j] == t[j]);
            } else {
                assert(s.filter(pred)[i] == s.last());
                assert(s[s.len() - 1] == s.last());
            }
        }
    }
}

pub proof fn lemma_canonical_element_of(s: Seq<ExtMetadataBlock>)
    ensures
        forall|i: int|
            0 <= i < canonical_order(s).len() ==> s.contains(#[trigger] canonical_order(s)[i]),
{
    lemma_filter_element_of(s, level_pred(1));
    lemma_filter_element_of(s, level_pred(2));
    lemma_filter_element_of(s, level_pred(3));
    lemma_filter_element_of(s, level_pred(5));
    lemma_filter_element_of(s, level_pred(6));
}

/// Append the blocks of one level, in their relative order.
fn append_level(
    dst: &mut Vec<ExtMetadataBlock>,
    src: &Vec<ExtMetadataBlock>,
    lv: u8,
)
    ensures
        final(dst)@ == old(dst)@ + src@.filter(level_pred(lv)),
{
    let ghost base = dst@;
    let mut i: usize = 0;
    while i < src.len()
        invariant
            i <= src@.len(),
            base == old(dst)@,
            dst@ == base + src@.subrange(0, i as int).filter(level_pred(lv)),
        decreases src@.len() - i,
    {
        let ghost pre = src@.subrange(0, i as int);
        if src[i].sort_key() == lv {
            dst.push(src[i]);
        }
        i = i + 1;
        proof {
            reveal(Seq::filter);
            let cur = src@.subrange(0, i as int);
            assert(cur.drop_last() =~= pre);
            assert(cur.last() == src@[i - 1]);
            if src@[i - 1].spec_sort_key() == lv {
                assert(dst@ =~= base + cur.filter(level_pred(lv)));
            } else {
                assert(dst@ =~= base + cur.filter(level_pred(lv)));
            }
        }
    }
    proof {
        assert(src@.subrange(0, src@.len() as int) =~= src@);
    }
}

// ---------- the counted, alignment-padded wire codec ----------

/// The wire form of a run of blocks, each length-prefixed and level-tagged.
pub open spec fn blocks_bits(s: Seq<ExtMetadataBlock>) -> Seq<bool>
    decreases s.len(),
{
    if s.len() == 0 {
        Seq::empty()
    } else {
        block_bits(s[0]) + blocks_bits(s.drop_first())
    }
}

pub proof fn lemma_blocks_bits_push(s: Seq<ExtMetadataBlock>, x: ExtMetadataBlock)
    ensures
        blocks_bits(s.push(x)) == blocks_bits(s) + block_bits(x),
    decreases s.len(),
{
    let sp = s.push(x);
    assert(sp.len() == s.len() + 1);
    if s.len() == 0 {
        assert(sp[0] == x);
        assert(sp.drop_first() =~= Seq::<ExtMetadataBlock>::empty());
        assert(blocks_bits(sp) == block_bits(x) + blocks_bits(Seq::<ExtMetadataBlock>::empty()));
        assert(blocks_bits(s) == Seq::<bool>::empty());
        assert(block_bits(x) + Seq::<bool>::empty() =~= Seq::<bool>::empty() + block_bits(x));
    } else {
        assert(sp.drop_first() =~= s.drop_first().push(x));
        lemma_blocks_bits_push(s.drop_first(), x);
        assert(sp[0] == s[0]);
        assert(blocks_bits(sp) == block_bits(s[0]) + (blocks_bits(s.drop_first()) + block_bits(
            x,
        )));
        assert(block_bits(s[0]) + (blocks_bits(s.drop_first()) + block_bits(x)) =~= (block_bits(
            s[0],
        ) + blocks_bits(s.drop_first())) + block_bits(x));
    }
}

/// Every block is well formed and legal for the version.
pub open spec fn blocks_wf(v: CmVersion, s: Seq<ExtMetadataBlock>) -> bool {
    forall|i: int|
        0 <= i < s.len() ==> (#[trigger] s[i]).valid() && spec_level_allowed(
            v,
            s[i].spec_level(),
        )
}

/// The total wire length of a run of blocks: five header bytes and the
/// payload for each.
pub open spec fn spec_total_length(s: Seq<ExtMetadataBlock>) -> nat
    decreases s.len(),
{
    if s.len() == 0 {
        0
    } else {
        (5 + s[0].spec_length_bytes() + spec_total_length(s.drop_first())) as nat
    }
}

pub proof fn lemma_total_length_split(a: Seq<ExtMetadataBlock>, b: Seq<ExtMetadataBlock>)
    ensures
        spec_total_length(a + b) == spec_total_length(a) + spec_total_length(b),
    decreases a.len(),
{
    if a.len() == 0 {
        assert(a + b =~= b);
    } else {
        assert((a + b).drop_first() =~= a.drop_first() + b);
        assert((a + b)[0] == a[0]);
        lemma_total_length_split(a.drop_first(), b);
    }
}

/// The zero bits needed to reach the next byte boundary from `p`.
pub open spec fn pad_len(p: nat) -> nat {
    ((8 - p % 8) % 8) as nat
}

/// The full wire image of a block collection starting at bit position `pos`:
/// the exponential-Golomb block count, zero bits up to the next byte
/// boundary, then the blocks.
pub open spec fn dm_bits(s: Seq<ExtMetadataBlock>, pos: nat) -> Seq<bool> {
    golomb_bits(s.len()) + zero_bits(pad_len(pos + golomb_len(s.len()))) + blocks_bits(s)
}

/// `count` blocks parsed in sequence from `pos`.
pub open spec fn spec_parse_blocks(v: CmVersion, bits: Seq<bool>, pos: nat, count: nat) -> Option<
    (Seq<ExtMetadataBlock>, nat),
>
    decreases count,
{
    if count == 0 {
        Some((Seq::empty(), pos))
    } else {
        match spec_parse_block(v, bits, pos) {
            None => None,
            Some(bp) => match spec_parse_blocks(v, bits, bp.1, (count - 1) as nat) {
                None => None,
                Some(sp) => Some((seq![bp.0] + sp.0, sp.1)),
            },
        }
    }
}

/// The collection encoded at `pos`: a block count, alignment padding that
/// must be all zero, then exactly that many blocks.
pub open spec fn spec_parse_dm(v: CmVersion, bits: Seq<bool>, pos: nat) -> Option<
    (Seq<ExtMetadataBlock>, nat),
> {
    match spec_parse_ue(bits, pos) {
        None => None,
        Some(cp) => {
            let p1 = cp.1;
            let pad = pad_len(p1);
            if p1 + pad <= bits.len() && bits.subrange(p1 as int, (p1 + pad) as int) == zero_bits(
                pad,
            ) {
                spec_parse_blocks(v, bits, (p1 + pad) as nat, cp.0)
            } else {
                None
            }
        },
    }
}

/// A padding bit set to one fails the whole decode.
pub proof fn lemma_alignment_bit_fails(v: CmVersion, bits: Seq<bool>, pos: nat, j: nat)
    requires
        spec_parse_ue(bits, pos) is Some,
        j < pad_len(spec_parse_ue(bits, pos)->Some_0.1),
        spec_parse_ue(bits, pos)->Some_0.1 + j < bits.len(),
        bits[(spec_parse_ue(bits, pos)->Some_0.1 + j) as int],
    ensures
        spec_parse_dm(v, bits, pos) is None,
{
    let p1 = spec_parse_ue(bits, pos)->Some_0.1;
    let pad = pad_len(p1);
    if p1 + pad <= bits.len() {
        assert(bits.subrange(p1 as int, (p1 + pad) as int)[j as int]);
        assert(!zero_bits(pad)[j as int]);
    }
}

/// Write each block: 32-bit length, 8-bit level, payload.
pub fn write_blocks(w: &mut BitstreamWriter, blocks: &Vec<ExtMetadataBlock>)
    requires
        forall|i: int| 0 <= i < blocks@.len() ==> (#[trigger] blocks@[i]).valid(),
    ensures
        final(w).bits() == old(w).bits() + blocks_bits(blocks@),
{
    let ghost base = w.bits();
    let mut i: usize = 0;
    while i < blocks.len()
        invariant
            i <= blocks@.len(),
            base == old(w).bits(),
            w.bits() == base + blocks_bits(blocks@.subrange(0, i as int)),
            forall|k: int| 0 <= k < blocks@.len() ==> (#[trigger] blocks@[k]).valid(),
        decreases blocks@.len() - i,
    {
        proof {
            crate::blocks::lemma_pow2_small();
            crate::bits::lemma_pow2_mono(16, 32);
        }
        let b = &blocks[i];
        w.write_var64(b.length_bytes() as u64, 32);
        w.write_var64(b.level() as u64, 8);
        b.write(w);
        proof {
            lemma_blocks_bits_push(blocks@.subrange(0, i as int), blocks@[i as int]);
            assert(blocks@.subrange(0, (i + 1) as int) =~= blocks@.subrange(0, i as int).push(
                blocks@[i as int],
            ));
            assert(w.bits() =~= base + blocks_bits(blocks@.subrange(0, (i + 1) as int)));
        }
        i = i + 1;
    }
    proof {
        assert(blocks@.subrange(0, blocks@.len() as int) =~= blocks@);
    }
}

/// Write zero bits up to the next byte boundary.
pub fn write_alignment(w: &mut BitstreamWriter)
    ensures
        final(w).bits() == old(w).bits() + zero_bits(pad_len(old(w).bits().len())),
{
    let ghost base = w.bits();
    while !w.byte_aligned()
        invariant
            base == old(w).bits(),
            w.bits().len() - base.len() <= pad_len(base.len()),
            w.bits() == base + zero_bits((w.bits().len() - base.len()) as nat),
        ensures
            w.bits().len() % 8 == 0,
            w.bits().len() - base.len() <= pad_len(base.len()),
            w.bits() == base + zero_bits((w.bits().len() - base.len()) as nat),
        decreases pad_len(base.len()) - (w.bits().len() - base.len()),
    {
        w.write_bit(false);
        proof {
            assert(w.bits() =~= base + zero_bits((w.bits().len() - base.len()) as nat));
        }
    }
    proof {
        assert(w.bits().len() - base.len() == pad_len(base.len()));
    }
}

/// Read the alignment padding before the first block; each bit must be zero.
pub fn read_alignment(r: &mut BitstreamReader) -> (res: Result<(), MetadataError>)
    requires
        old(r).pos() <= old(r).bits().len(),
    ensures
        final(r).bits() == old(r).bits(),
        final(r).pos() <= final(r).bits().len(),
        match res {
            Ok(_) => final(r).pos() == old(r).pos() + pad_len(old(r).pos()) && final(r).pos()
                <= final(r).bits().len() && old(r).bits().subrange(
                old(r).pos() as int,
                (old(r).pos() + pad_len(old(r).pos())) as int,
            ) == zero_bits(pad_len(old(r).pos())),
            Err(e) => e == MetadataError::MalformedStream && !(old(r).pos() + pad_len(old(r).pos())
                <= old(r).bits().len() && old(r).bits().subrange(
                old(r).pos() as int,
                (old(r).pos() + pad_len(old(r).pos())) as int,
            ) == zero_bits(pad_len(old(r).pos()))),
        },
{
    let ghost bits = r.bits();
    let ghost pos0 = r.pos();
    let ghost pad = pad_len(pos0);
    while !r.byte_aligned()
        invariant_except_break
            r.pos() - pos0 <= pad,
        invariant
            r.bits() == bits,
            bits == old(r).bits(),
            pos0 == old(r).pos(),
            pad == pad_len(pos0),
            pos0 <= r.pos() <= bits.len(),
            forall|i: int| pos0 <= i < r.pos() ==> !bits[i],
        ensures
            r.pos() % 8 == 0,
            r.pos() - pos0 <= pad,
        decreases pad - (r.pos() - pos0),
    {
        let avail = r.available();
        if avail == 0 {
            proof {
                assert(pos0 + pad > bits.len());
            }
            return Err(MetadataError::MalformedStream);
        }
        let b = r.read_bit();
        if b {
            proof {
                let j = (r.pos() - 1) as int;
                if pos0 + pad <= bits.len() && bits.subrange(pos0 as int, (pos0 + pad) as int)
                    == zero_bits(pad) {
                    assert(bits.subrange(pos0 as int, (pos0 + pad) as int)[j - pos0]);
                    assert(!zero_bits(pad)[j - pos0]);
                }
            }
            return Err(MetadataError::MalformedStream);
        }
    }
    proof {
        assert(r.pos() == pos0 + pad);
        assert(bits.subrange(pos0 as int, (pos0 + pad) as int) =~= zero_bits(pad));
    }
    Ok(())
}

/// Parse `count` blocks in sequence.
pub fn parse_blocks(v: CmVersion, r: &mut BitstreamReader, count: u64) -> (res: Result<
    Vec<ExtMetadataBlock>,
    MetadataError,
>)
    requires
        old(r).pos() <= old(r).bits().len(),
    ensures
        final(r).bits() == old(r).bits(),
        final(r).pos() <= final(r).bits().len(),
        match res {
            Ok(bs) => spec_parse_blocks(v, old(r).bits(), old(r).pos(), count as nat) == Some(
                (bs@, final(r).pos()),
            ) && bs@.len() == count && blocks_wf(v, bs@),
            Err(e) => e == MetadataError::MalformedStream && spec_parse_blocks(
                v,
                old(r).bits(),
                old(r).pos(),
                count as nat,
            ) is None,
        },
{
    let ghost bits = r.bits();
    let ghost pos0 = r.pos();
    let mut acc: Vec<ExtMetadataBlock> = Vec::new();
    let mut i: u64 = 0;
    while i < count
        invariant
            r.bits() == bits,
            bits == old(r).bits(),
            pos0 == old(r).pos(),
            r.pos() <= bits.len(),
            i <= count,
            acc@.len() == i,
            blocks_wf(v, acc@),
            match spec_parse_blocks(v, bits, r.pos(), (count - i) as nat) {
                Some(sp) => spec_parse_blocks(v, bits, pos0, count as nat) == Some(
                    (acc@ + sp.0, sp.1),
                ),
                None => spec_parse_blocks(v, bits, pos0, count as nat) is None,
            },
        decreases count - i,
    {
        let ghost p_old = r.pos();
        let ghost acc_old = acc@;
        match parse_block(v, r) {
            Ok(b) => {
                acc.push(b);
                i = i + 1;
                proof {
                    let p_new = r.pos();
                    match spec_parse_blocks(v, bits, p_new, (count - i) as nat) {
                        Some(sp) => {
                            assert(acc_old + (seq![b] + sp.0) =~= acc@ + sp.0);
                        },
                        None => {},
                    }
                }
            },
            Err(_) => {
                return Err(MetadataError::MalformedStream);
            },
        }
    }
    proof {
        assert(acc@ + Seq::<ExtMetadataBlock>::empty() =~= acc@);
    }
    Ok(acc)
}

/// A run of block images parses back to the blocks themselves.
pub proof fn lemma_parse_blocks_of_bits(
    v: CmVersion,
    s: Seq<ExtMetadataBlock>,
    full: Seq<bool>,
    pos: nat,
)
    requires
        blocks_wf(v, s),
        pos + blocks_bits(s).len() <= full.len(),
        full.subrange(pos as int, (pos + blocks_bits(s).len()) as int) == blocks_bits(s),
    ensures
        spec_parse_blocks(v, full, pos, s.len()) == Some(
            (s, (pos + blocks_bits(s).len()) as nat),
        ),
    decreases s.len(),
{
    if s.len() > 0 {
        let b0 = s[0];
        let bb = block_bits(b0);
        let rest = s.drop_first();
        lemma_block_bits_len(b0);
        assert(blocks_bits(s) == bb + blocks_bits(rest));
        crate::blocks::lemma_subrange_nested(full, pos, blocks_bits(s), 0, bb.len());
        assert(blocks_bits(s).subrange(0, bb.len() as int) =~= bb);
        lemma_parse_block_of_bits(v, b0, full, pos);
        crate::blocks::lemma_subrange_nested(
            full,
            pos,
            blocks_bits(s),
            bb.len(),
            blocks_bits(rest).len(),
        );
        assert(blocks_bits(s).subrange(
            bb.len() as int,
            (bb.len() + blocks_bits(rest).len()) as int,
        ) =~= blocks_bits(rest));
        assert(blocks_wf(v, rest)) by {
            assert forall|i: int|
                0 <= i < rest.len() implies (#[trigger] rest[i]).valid() && spec_level_allowed(
                v,
                rest[i].spec_level(),
            ) by {
                assert(rest[i] == s[i + 1]);
            }
        }
        lemma_parse_blocks_of_bits(v, rest, full, (pos + bb.len()) as nat);
        assert(seq![b0] + rest =~= s);
    }
}

/// Round trip for a whole collection: the counted, padded image written from
/// any bit position parses back to the same blocks in the same order.
pub proof fn lemma_dm_round_trip(
    v: CmVersion,
    s: Seq<ExtMetadataBlock>,
    prefix: Seq<bool>,
    suffix: Seq<bool>,
)
    requires
        blocks_wf(v, s),
        s.len() + 1 < pow2(64),
    ensures
        spec_parse_dm(v, prefix + dm_bits(s, prefix.len()) + suffix, prefix.len()) == Some(
            (s, (prefix.len() + dm_bits(s, prefix.len()).len()) as nat),
        ),
{
    let pos = prefix.len() as nat;
    let full = prefix + dm_bits(s, pos) + suffix;
    let g = golomb_bits(s.len());
    lemma_golomb_bits_len(s.len());
    let pad = pad_len(pos + golomb_len(s.len()));
    let d = dm_bits(s, pos);
    assert(full.subrange(pos as int, (pos + g.len()) as int) =~= g);
    lemma_parse_ue_golomb(full, pos, s.len());
    let p1 = (pos + g.len()) as nat;
    assert(full.subrange(p1 as int, (p1 + pad) as int) =~= zero_bits(pad));
    let p2 = (p1 + pad) as nat;
    assert(full.subrange(p2 as int, (p2 + blocks_bits(s).len()) as int) =~= blocks_bits(s));
    lemma_parse_blocks_of_bits(v, s, full, p2);
}

/// Re-sort a block collection into canonical order. Idempotent, and called
/// after every structural mutation of a container.
pub fn sort_blocks_canonical(blocks: &mut Vec<ExtMetadataBlock>)
    ensures
        final(blocks)@ == canonical_order(old(blocks)@),
{
    let mut out: Vec<ExtMetadataBlock> = Vec::new();
    append_level(&mut out, blocks, 1);
    append_level(&mut out, blocks, 2);
    append_level(&mut out, blocks, 3);
    append_level(&mut out, blocks, 5);
    append_level(&mut out, blocks, 6);
    proof {
        assert(out@ =~= canonical_order(blocks@));
    }
    *blocks = out;
}

/// Filtering a filtered sequence by a stronger predicate forgets the outer
/// filter.
pub proof fn lemma_filter_subsume(
    s: Seq<ExtMetadataBlock>,
    p: spec_fn(ExtMetadataBlock) -> bool,
    q: spec_fn(ExtMetadataBlock) -> bool,
)
    requires
        forall|x: ExtMetadataBlock| #[trigger] q(x) ==> p(x),
    ensures
        s.filter(p).filter(q) == s.filter(q),
    decreases s.len(),
{
    reveal(Seq::filter);
    if s.len() > 0 {
        let t = s.drop_last();
        let x = s.last();
        lemma_filter_subsume(t, p, q);
        let fp = t.filter(p);
        if p(x) {
            assert(s.filter(p) == fp.push(x));
            assert(fp.push(x).drop_last() =~= fp);
            assert(fp.push(x).last() == x);
        }
    }
}

/// The canonical order holds the same blocks of each level as the source,
/// in the same relative order: the reorder is stable within a level.
pub proof fn lemma_filter_of_canonical(s: Seq<ExtMetadataBlock>, lv: u8)
    requires
        lv == 1 || lv == 2 || lv == 3 || lv == 5 || lv == 6,
    ensures
        canonical_order(s).filter(level_pred(lv)) == s.filter(level_pred(lv)),
{
    broadcast use Seq::filter_distributes_over_add;
    broadcast use Seq::lemma_filter_pred;

    let f1 = s.filter(level_pred(1));
    let f2 = s.filter(level_pred(2));
    let f3 = s.filter(level_pred(3));
    let f5 = s.filter(level_pred(5));
    let f6 = s.filter(level_pred(6));
    assert(canonical_order(s).filter(level_pred(lv)) == f1.filter(level_pred(lv)) + f2.filter(
        level_pred(lv),
    ) + f3.filter(level_pred(lv)) + f5.filter(level_pred(lv)) + f6.filter(level_pred(lv)));
    assert forall|a: u8|
        (a == 1 || a == 2 || a == 3 || a == 5 || a == 6) && a != lv implies s.filter(
        level_pred(a),
    ).filter(level_pred(lv)) == Seq::<ExtMetadataBlock>::empty() by {
        let fa = s.filter(level_pred(a));
        assert forall|i: int| 0 <= i < fa.len() implies (#[trigger] fa[i]).spec_level() != lv by {
            assert(level_pred(a)(fa[i]));
        }
        lemma_filter_none(fa, lv);
    }
    lemma_filter_subsume(s, level_pred(lv), level_pred(lv));
    assert(canonical_order(s).filter(level_pred(lv)) =~= s.filter(level_pred(lv)));
}

/// Re-sorting is idempotent: sorting a sorted collection changes nothing,
/// and one block appended to a sorted collection sorts to the same order as
/// sorting the whole insertion sequence at once.
pub proof fn lemma_canonical_idempotent(s: Seq<ExtMetadataBlock>)
    ensures
        canonical_order(canonical_order(s)) == canonical_order(s),
{
    lemma_filter_of_canonical(s, 1);
    lemma_filter_of_canonical(s, 2);
    lemma_filter_of_canonical(s, 3);
    lemma_filter_of_canonical(s, 5);
    lemma_filter_of_canonical(s, 6);
}

/// Pushing the same block onto two sequences with equal filters keeps the
/// filters equal.
proof fn lemma_push_filter_eq(
    a: Seq<ExtMetadataBlock>,
    b: Seq<ExtMetadataBlock>,
    x: ExtMetadataBlock,
    lv: u8,
)
    requires
        a.filter(level_pred(lv)) == b.filter(level_pred(lv)),
    ensures
        a.push(x).filter(level_pred(lv)) == b.push(x).filter(level_pred(lv)),
{
    reveal(Seq::filter);
    assert(a.push(x).drop_last() =~= a);
    assert(b.push(x).drop_last() =~= b);
    assert(a.push(x).last() == x);
    assert(b.push(x).last() == x);
}

/// Appending to the canonical order and re-sorting gives the canonical order
/// of the whole insertion sequence.
pub proof fn lemma_canonical_push(s: Seq<ExtMetadataBlock>, x: ExtMetadataBlock)
    ensures
        canonical_order(canonical_order(s).push(x)) == canonical_order(s.push(x)),
{
    let c = canonical_order(s);
    lemma_filter_of_canonical(s, 1);
    lemma_filter_of_canonical(s, 2);
    lemma_filter_of_canonical(s, 3);
    lemma_filter_of_canonical(s, 5);
    lemma_filter_of_canonical(s, 6);
    lemma_push_filter_eq(c, s, x, 1);
    lemma_push_filter_eq(c, s, x, 2);
    lemma_push_filter_eq(c, s, x, 3);
    lemma_push_filter_eq(c, s, x, 5);
    lemma_push_filter_eq(c, s, x, 6);
}

/// The wire image of a run of blocks is a whole number of bytes.
pub proof fn lemma_blocks_bits_bytes(s: Seq<ExtMetadataBlock>)
    ensures
        blocks_bits(s).len() % 8 == 0,
    decreases s.len(),
{
    if s.len() > 0 {
        lemma_block_bits_len(s[0]);
        lemma_blocks_bits_bytes(s.drop_first());
    }
}

/// The full wire image of a collection is a whole number of bytes.
pub proof fn lemma_dm_bits_bytes(s: Seq<ExtMetadataBlock>, pos: nat)
    requires
        pos % 8 == 0,
    ensures
        dm_bits(s, pos).len() % 8 == 0,
{
    lemma_golomb_bits_len(s.len());
    lemma_blocks_bits_bytes(s);
    let g = golomb_len(s.len());
    let p = pad_len(pos + g);
    assert(dm_bits(s, pos).len() == g + p + blocks_bits(s).len());
    let q = (pos + g) % 8;
    if q == 0 {
        assert(p == 0);
        assert((g + p) % 8 == 0);
    } else {
        assert(p == 8 - q);
        assert((pos + g + p) % 8 == 0);
        assert((g + p) % 8 == 0);
    }
}

/// The predicate keeping every block but one level.
pub open spec fn keep_pred(level: u8) -> spec_fn(ExtMetadataBlock) -> bool {
    |b: ExtMetadataBlock| b.spec_level() != level
}

/// Well-formedness survives canonical reordering.
pub proof fn lemma_blocks_wf_canonical(v: CmVersion, s: Seq<ExtMetadataBlock>)
    requires
        blocks_wf(v, s),
    ensures
        blocks_wf(v, canonical_order(s)),
{
    lemma_canonical_element_of(s);
    let c = canonical_order(s);
    assert forall|i: int|
        0 <= i < c.len() implies (#[trigger] c[i]).valid() && spec_level_allowed(
        v,
        c[i].spec_level(),
    ) by {
        assert(s.contains(c[i]));
        let j = choose|j: int| 0 <= j < s.len() && s[j] == c[i];
        assert(s[j].valid() && spec_level_allowed(v, s[j].spec_level()));
    }
}

/// Well-formedness survives filtering.
pub proof fn lemma_blocks_wf_filter(
    v: CmVersion,
    s: Seq<ExtMetadataBlock>,
    pred: spec_fn(ExtMetadataBlock) -> bool,
)
    requires
        blocks_wf(v, s),
    ensures
        blocks_wf(v, s.filter(pred)),
{
    lemma_filter_element_of(s, pred);
    let c = s.filter(pred);
    assert forall|i: int|
        0 <= i < c.len() implies (#[trigger] c[i]).valid() && spec_level_allowed(
        v,
        c[i].spec_level(),
    ) by {
        assert(s.contains(c[i]));
        let j = choose|j: int| 0 <= j < s.len() && s[j] == c[i];
        assert(s[j].valid() && spec_level_allowed(v, s[j].spec_level()));
    }
}

/// Append a block if its level is legal, then restore canonical order.
fn dm_add_impl(v: CmVersion, blocks: &mut Vec<ExtMetadataBlock>, meta: ExtMetadataBlock) -> (res:
    Result<(), MetadataError>)
    requires
        meta.valid(),
        blocks_wf(v, old(blocks)@),
    ensures
        match res {
            Ok(_) => spec_level_allowed(v, meta.spec_level()) && final(blocks)@ == canonical_order(
                old(blocks)@.push(meta),
            ) && final(blocks)@.len() == old(blocks)@.len() + 1 && blocks_wf(v, final(blocks)@),
            Err(e) => e == MetadataError::InvalidLevelForVersion && !spec_level_allowed(
                v,
                meta.spec_level(),
            ) && final(blocks)@ == old(blocks)@,
        },
{
    if !level_allowed(v, meta.level()) {
        return Err(MetadataError::InvalidLevelForVersion);
    }
    let ghost pushed = old(blocks)@.push(meta);
    blocks.push(meta);
    sort_blocks_canonical(blocks);
    proof {
        lemma_canonical_order_len(pushed);
        assert(blocks_wf(v, pushed)) by {
            assert forall|i: int|
                0 <= i < pushed.len() implies (#[trigger] pushed[i]).valid() && spec_level_allowed(
                v,
                pushed[i].spec_level(),
            ) by {
                if i < old(blocks)@.len() {
                    assert(pushed[i] == old(blocks)@[i]);
                }
            }
        }
        lemma_blocks_wf_canonical(v, pushed);
    }
    Ok(())
}

/// Drop every block of the given level, then restore canonical order.
fn dm_remove_impl(v: CmVersion, blocks: &mut Vec<ExtMetadataBlock>, level: u8)
    requires
        blocks_wf(v, old(blocks)@),
    ensures
        final(blocks)@ == canonical_order(old(blocks)@.filter(keep_pred(level))),
        blocks_wf(v, final(blocks)@),
{
    let mut kept: Vec<ExtMetadataBlock> = Vec::new();
    let mut i: usize = 0;
    while i < blocks.len()
        invariant
            i <= blocks@.len(),
            blocks@ == old(blocks)@,
            kept@ == blocks@.subrange(0, i as int).filter(keep_pred(level)),
        decreases blocks@.len() - i,
    {
        let ghost pre = blocks@.subrange(0, i as int);
        if blocks[i].level() != level {
            kept.push(blocks[i]);
        }
        i = i + 1;
        proof {
            reveal(Seq::filter);
            let cur = blocks@.subrange(0, i as int);
            assert(cur.drop_last() =~= pre);
            assert(cur.last() == blocks@[i - 1]);
            assert(kept@ =~= cur.filter(keep_pred(level)));
        }
    }
    proof {
        assert(blocks@.subrange(0, blocks@.len() as int) =~= blocks@);
    }
    *blocks = kept;
    sort_blocks_canonical(blocks);
    proof {
        lemma_blocks_wf_filter(v, old(blocks)@, keep_pred(level));
        lemma_blocks_wf_canonical(v, old(blocks)@.filter(keep_pred(level)));
    }
}

/// Check the container invariant: the cached count equals the collection
/// length and every block is well formed and legal for the version.
fn dm_validate_impl(v: CmVersion, num: u64, blocks: &Vec<ExtMetadataBlock>) -> (res: Result<
    (),
    MetadataError,
>)
    ensures
        res.is_ok() <==> (num == blocks@.len() && blocks_wf(v, blocks@)),
        res is Err ==> res->Err_0 == MetadataError::InvalidLevelForVersion,
{
    if num != blocks.len() as u64 {
        return Err(MetadataError::InvalidLevelForVersion);
    }
    let mut i: usize = 0;
    while i < blocks.len()
        invariant
            i <= blocks@.len(),
            num == blocks@.len(),
            forall|k: int|
                0 <= k < i ==> (#[trigger] blocks@[k]).valid() && spec_level_allowed(
                    v,
                    blocks@[k].spec_level(),
                ),
        decreases blocks@.len() - i,
    {
        if !blocks[i].is_valid() || !level_allowed(v, blocks[i].level()) {
            return Err(MetadataError::InvalidLevelForVersion);
        }
        i = i + 1;
    }
    Ok(())
}

/// Sum of `5 + length_bytes` over the blocks: the byte length the collection
/// will occupy on the wire, headers included, before the count and padding.
fn dm_total_length_impl(blocks: &Vec<ExtMetadataBlock>) -> (r: u32)
    requires
        spec_total_length(blocks@) <= u32::MAX,
    ensures
        r as nat == spec_total_length(blocks@),
{
    let mut acc: u32 = 0;
    let mut i: usize = 0;
    while i < blocks.len()
        invariant
            i <= blocks@.len(),
            spec_total_length(blocks@) <= u32::MAX,
            acc as nat == spec_total_length(blocks@.subrange(0, i as int)),
        decreases blocks@.len() - i,
    {
        proof {
            let pre = blocks@.subrange(0, i as int);
            let one = seq![blocks@[i as int]];
            let post = blocks@.subrange(i as int, blocks@.len() as int);
            assert(pre + post =~= blocks@);
            lemma_total_length_split(pre, post);
            assert(one.drop_first() =~= Seq::<ExtMetadataBlock>::empty());
            assert(spec_total_length(Seq::<ExtMetadataBlock>::empty()) == 0);
            assert(one[0] == blocks@[i as int]);
            assert(spec_total_length(one) == 5 + blocks@[i as int].spec_length_bytes());
            let rest = blocks@.subrange(i as int + 1, blocks@.len() as int);
            assert(one + rest =~= post);
            lemma_total_length_split(one, rest);
            assert(blocks@.subrange(0, i as int + 1) =~= pre + one);
            lemma_total_length_split(pre, one);
        }
        acc = acc + 5 + blocks[i].length_bytes() as u32;
        i = i + 1;
    }
    proof {
        assert(blocks@.subrange(0, blocks@.len() as int) =~= blocks@);
    }
    acc
}

/// Write the count, the alignment padding and the blocks: the full wire image
/// of the collection.
fn dm_write_all_impl(num: u64, blocks: &Vec<ExtMetadataBlock>, w: &mut BitstreamWriter)
    requires
        num == blocks@.len(),
        forall|i: int| 0 <= i < blocks@.len() ==> (#[trigger] blocks@[i]).valid(),
        blocks@.len() < u64::MAX,
    ensures
        final(w).bits() == old(w).bits() + dm_bits(blocks@, old(w).bits().len()),
{
    let ghost base = w.bits();
    write_ue(w, num);
    proof {
        lemma_golomb_bits_len(num as nat);
    }
    write_alignment(w);
    write_blocks(w, blocks);
    proof {
        assert(w.bits() =~= base + dm_bits(blocks@, base.len()));
    }
}

/// Parse the count, the alignment padding and the blocks.
fn dm_parse_impl(v: CmVersion, r: &mut BitstreamReader) -> (res: Result<
    (u64, Vec<ExtMetadataBlock>),
    MetadataError,
>)
    requires
        old(r).pos() <= old(r).bits().len(),
    ensures
        final(r).bits() == old(r).bits(),
        final(r).pos() <= final(r).bits().len(),
        match res {
            Ok(p) => spec_parse_dm(v, old(r).bits(), old(r).pos()) == Some(
                (p.1@, final(r).pos()),
            ) && p.0 == p.1@.len() && blocks_wf(v, p.1@),
            Err(e) => e == MetadataError::MalformedStream && (spec_parse_dm(
                v,
                old(r).bits(),
                old(r).pos(),
            ) is None || (spec_parse_ue(old(r).bits(), old(r).pos()) matches Some(cp) && cp.0 + 1
                >= pow2(64))),
        },
{
    let count = match read_ue(r) {
        Ok(c) => c,
        Err(e) => {
            return Err(e);
        },
    };
    match read_alignment(r) {
        Ok(_) => (),
        Err(e) => {
            return Err(e);
        },
    };
    let blocks = match parse_blocks(v, r, count) {
        Ok(b) => b,
        Err(e) => {
            return Err(e);
        },
    };
    Ok((count, blocks))
}

/// Version 2.9 display-management data: a counted block collection whose
/// levels are restricted to that version's allowed set.
#[derive(Debug, Clone)]
pub struct CmV29DmData {
    pub num_ext_blocks: u64,
    pub blocks: Vec<ExtMetadataBlock>,
}

/// Version 4.0 display-management data: a counted block collection whose
/// levels are restricted to that version's allowed set.
#[derive(Debug, Clone)]
pub struct CmV40DmData {
    pub num_ext_blocks: u64,
    pub blocks: Vec<ExtMetadataBlock>,
}

impl CmV29DmData {
    /// The container invariant: the cached count equals the collection length
    /// and every block is well formed and legal for version 2.9.
    pub open spec fn wf(&self) -> bool {
        self.num_ext_blocks == self.blocks@.len() && blocks_wf(CmVersion::V29, self.blocks@)
    }

    /// An empty container, pre-sized for an expected decode count. The hint
    /// does not affect the contents.
    pub fn with_blocks_allocation(expected: u64) -> (r: Self)
        ensures
            r.blocks@.len() == 0,
            r.num_ext_blocks == 0,
            r.wf(),
    {
        let cap: usize = if expected < 1024 {
            expected as usize
        } else {
            1024
        };
        CmV29DmData { num_ext_blocks: 0, blocks: Vec::with_capacity(cap) }
    }

    pub fn num_ext_blocks(&self) -> (r: u64)
        ensures
            r == self.num_ext_blocks,
    {
        self.num_ext_blocks
    }

    /// Restore canonical order; the contents are unchanged as a multiset.
    pub fn sort_blocks(&mut self)
        ensures
            final(self).blocks@ == canonical_order(old(self).blocks@),
            final(self).num_ext_blocks == old(self).num_ext_blocks,
    {
        sort_blocks_canonical(&mut self.blocks);
    }

    /// Recompute the cached count and restore canonical order.
    pub fn update_extension_block_info(&mut self)
        ensures
            final(self).blocks@ == canonical_order(old(self).blocks@),
            final(self).num_ext_blocks == final(self).blocks@.len(),
    {
        self.num_ext_blocks = self.blocks.len() as u64;
        proof {
            lemma_canonical_order_len(self.blocks@);
        }
        sort_blocks_canonical(&mut self.blocks);
    }

    /// Insert a block. Fails, leaving the container unchanged, exactly when
    /// the block's level is outside version 2.9's allowed set; otherwise the
    /// collection grows by one and is re-sorted canonically.
    pub fn add_block(&mut self, meta: ExtMetadataBlock) -> (res: Result<(), MetadataError>)
        requires
            meta.valid(),
            old(self).wf(),
        ensures
            match res {
                Ok(_) => spec_level_allowed(CmVersion::V29, meta.spec_level()) && final(self).blocks@ == canonical_order(old(self).blocks@.push(meta)) && final(self).blocks@.len() == old(self).blocks@.len() + 1 && final(self).wf(),
                Err(e) => e == MetadataError::InvalidLevelForVersion && !spec_level_allowed(
                    CmVersion::V29,
                    meta.spec_level(),
                ) && final(self).blocks@ == old(self).blocks@ && final(self).num_ext_blocks == old(self).num_ext_blocks,
            },
    {
        let res = dm_add_impl(CmVersion::V29, &mut self.blocks, meta);
        if res.is_ok() {
            self.num_ext_blocks = self.blocks.len() as u64;
        }
        res
    }

    /// Remove every block of the given level; a no-op if none matches.
    pub fn remove_level(&mut self, level: u8)
        requires
            old(self).wf(),
        ensures
            final(self).blocks@ == canonical_order(old(self).blocks@.filter(keep_pred(level))),
            final(self).wf(),
    {
        dm_remove_impl(CmVersion::V29, &mut self.blocks, level);
        self.num_ext_blocks = self.blocks.len() as u64;
    }

    /// Check the container invariant.
    pub fn validate(&self) -> (res: Result<(), MetadataError>)
        ensures
            res.is_ok() <==> self.wf(),
    {
        dm_validate_impl(CmVersion::V29, self.num_ext_blocks, &self.blocks)
    }

    /// Write the blocks, each length-prefixed and level-tagged, in the order
    /// they stand in the collection.
    pub fn write(&self, w: &mut BitstreamWriter)
        requires
            forall|i: int| 0 <= i < self.blocks@.len() ==> (#[trigger] self.blocks@[i]).valid(),
        ensures
            final(w).bits() == old(w).bits() + blocks_bits(self.blocks@),
    {
        write_blocks(w, &self.blocks);
    }

    /// Write the full wire image: count, alignment padding, blocks.
    pub fn write_all(&self, w: &mut BitstreamWriter)
        requires
            self.wf(),
            self.blocks@.len() < u64::MAX,
        ensures
            final(w).bits() == old(w).bits() + dm_bits(self.blocks@, old(w).bits().len()),
    {
        dm_write_all_impl(self.num_ext_blocks, &self.blocks, w);
    }

    /// The byte length the blocks will occupy on the wire, headers included.
    pub fn ext_block_write_length(&self) -> (r: u32)
        requires
            spec_total_length(self.blocks@) <= u32::MAX,
        ensures
            r as nat == spec_total_length(self.blocks@),
    {
        dm_total_length_impl(&self.blocks)
    }

    /// Parse a collection from the stream. Succeeds exactly when a
    /// well-formed image lies at the read position (with a count below the
    /// 64-bit range); the decode order is kept as found.
    pub fn parse(r: &mut BitstreamReader) -> (res: Result<Self, MetadataError>)
        requires
            old(r).pos() <= old(r).bits().len(),
        ensures
            final(r).bits() == old(r).bits(),
            final(r).pos() <= final(r).bits().len(),
            match res {
                Ok(dm) => spec_parse_dm(CmVersion::V29, old(r).bits(), old(r).pos()) == Some(
                    (dm.blocks@, final(r).pos()),
                ) && dm.wf(),
                Err(e) => e == MetadataError::MalformedStream && (spec_parse_dm(
                    CmVersion::V29,
                    old(r).bits(),
                    old(r).pos(),
                ) is None || (spec_parse_ue(old(r).bits(), old(r).pos()) matches Some(cp) && cp.0
                    + 1 >= pow2(64))),
            },
    {
        match dm_parse_impl(CmVersion::V29, r) {
            Ok((count, blocks)) => Ok(CmV29DmData { num_ext_blocks: count, blocks }),
            Err(e) => Err(e),
        }
    }
}

impl CmV40DmData {
    /// The container invariant: the cached count equals the collection length
    /// and every block is well formed and legal for version 4.0.
    pub open spec fn wf(&self) -> bool {
        self.num_ext_blocks == self.blocks@.len() && blocks_wf(CmVersion::V40, self.blocks@)
    }

    /// An empty container, pre-sized for an expected decode count. The hint
    /// does not affect the contents.
    pub fn with_blocks_allocation(expected: u64) -> (r: Self)
        ensures
            r.blocks@.len() == 0,
            r.num_ext_blocks == 0,
            r.wf(),
    {
        let cap: usize = if expected < 1024 {
            expected as usize
        } else {
            1024
        };
        CmV40DmData { num_ext_blocks: 0, blocks: Vec::with_capacity(cap) }
    }

    pub fn num_ext_blocks(&self) -> (r: u64)
        ensures
            r == self.num_ext_blocks,
    {
        self.num_ext_blocks
    }

    /// Restore canonical order; the contents are unchanged as a multiset.
    pub fn sort_blocks(&mut self)
        ensures
            final(self).blocks@ == canonical_order(old(self).blocks@),
            final(self).num_ext_blocks == old(self).num_ext_blocks,
    {
        sort_blocks_canonical(&mut self.blocks);
    }

    /// Recompute the cached count and restore canonical order.
    pub fn update_extension_block_info(&mut self)
        ensures
            final(self).blocks@ == canonical_order(old(self).blocks@),
            final(self).num_ext_blocks == final(self).blocks@.len(),
    {
        self.num_ext_blocks = self.blocks.len() as u64;
        proof {
            lemma_canonical_order_len(self.blocks@);
        }
        sort_blocks_canonical(&mut self.blocks);
    }

    /// Insert a block. Fails, leaving the container unchanged, exactly when
    /// the block's level is outside version 4.0's allowed set; otherwise the
    /// collection grows by one and is re-sorted canonically.
    pub fn add_block(&mut self, meta: ExtMetadataBlock) -> (res: Result<(), MetadataError>)
        requires
            meta.valid(),
            old(self).wf(),
        ensures
            match res {
                Ok(_) => spec_level_allowed(CmVersion::V40, meta.spec_level()) && final(self).blocks@ == canonical_order(old(self).blocks@.push(meta)) && final(self).blocks@.len() == old(self).blocks@.len() + 1 && final(self).wf(),
                Err(e) => e == MetadataError::InvalidLevelForVersion && !spec_level_allowed(
                    CmVersion::V40,
                    meta.spec_level(),
                ) && final(self).blocks@ == old(self).blocks@ && final(self).num_ext_blocks == old(self).num_ext_blocks,
            },
    {
        let res = dm_add_impl(CmVersion::V40, &mut self.blocks, meta);
        if res.is_ok() {
            self.num_ext_blocks = self.blocks.len() as u64;
        }
        res
    }

    /// Remove every block of the given level; a no-op if none matches.
    pub fn remove_level(&mut self, level: u8)
        requires
            old(self).wf(),
        ensures
            final(self).blocks@ == canonical_order(old(self).blocks@.filter(keep_pred(level))),
            final(self).wf(),
    {
        dm_remove_impl(CmVersion::V40, &mut self.blocks, level);
        self.num_ext_blocks = self.blocks.len() as u64;
    }

    /// Check the container invariant.
    pub fn validate(&self) -> (res: Result<(), MetadataError>)
        ensures
            res.is_ok() <==> self.wf(),
    {
        dm_validate_impl(CmVersion::V40, self.num_ext_blocks, &self.blocks)
    }

    /// Write the blocks, each length-prefixed and level-tagged, in the order
    /// they stand in the collection.
    pub fn write(&self, w: &mut BitstreamWriter)
        requires
            forall|i: int| 0 <= i < self.blocks@.len() ==> (#[trigger] self.blocks@[i]).valid(),
        ensures
            final(w).bits() == old(w).bits() + blocks_bits(self.blocks@),
    {
        write_blocks(w, &self.blocks);
    }

    /// Write the full wire image: count, alignment padding, blocks.
    pub fn write_all(&self, w: &mut BitstreamWriter)
        requires
            self.wf(),
            self.blocks@.len() < u64::MAX,
        ensures
            final(w).bits() == old(w).bits() + dm_bits(self.blocks@, old(w).bits().len()),
    {
        dm_write_all_impl(self.num_ext_blocks, &self.blocks, w);
    }

    /// The byte length the blocks will occupy on the wire, headers included.
    pub fn ext_block_write_length(&self) -> (r: u32)
        requires
            spec_total_length(self.blocks@) <= u32::MAX,
        ensures
            r as nat == spec_total_length(self.blocks@),
    {
        dm_total_length_impl(&self.blocks)
    }

    /// Parse a collection from the stream. Succeeds exactly when a
    /// well-formed image lies at the read position (with a count below the
    /// 64-bit range); the decode order is kept as found.
    pub fn parse(r: &mut BitstreamReader) -> (res: Result<Self, MetadataError>)
        requires
            old(r).pos() <= old(r).bits().len(),
        ensures
            final(r).bits() == old(r).bits(),
            final(r).pos() <= final(r).bits().len(),
            match res {
                Ok(dm) => spec_parse_dm(CmVersion::V40, old(r).bits(), old(r).pos()) == Some(
                    (dm.blocks@, final(r).pos()),
                ) && dm.wf(),
                Err(e) => e == MetadataError::MalformedStream && (spec_parse_dm(
                    CmVersion::V40,
                    old(r).bits(),
                    old(r).pos(),
                ) is None || (spec_parse_ue(old(r).bits(), old(r).pos()) matches Some(cp) && cp.0
                    + 1 >= pow2(64))),
            },
    {
        match dm_parse_impl(CmVersion::V40, r) {
            Ok((count, blocks)) => Ok(CmV40DmData { num_ext_blocks: count, blocks }),
            Err(e) => Err(e),
        }
    }
}

/// Display-management data of either format version; decode and encode
/// behavior is selected by the tag.
#[derive(Debug, Clone)]
pub enum DmData {
    V29(CmV29DmData),
    V40(CmV40DmData),
}

impl DmData {
    /// The version tag of the data.
    pub open spec fn spec_version(&self) -> CmVersion {
        match self {
            DmData::V29(_) => CmVersion::V29,
            DmData::V40(_) => CmVersion::V40,
        }
    }

    /// The blocks, in the order they stand in the container.
    pub open spec fn spec_blocks(&self) -> Seq<ExtMetadataBlock> {
        match self {
            DmData::V29(m) => m.blocks@,
            DmData::V40(m) => m.blocks@,
        }
    }

    pub open spec fn wf(&self) -> bool {
        match self {
            DmData::V29(m) => m.wf(),
            DmData::V40(m) => m.wf(),
        }
    }

    /// Parse a collection of the given version from the stream.
    pub fn parse(v: CmVersion, r: &mut BitstreamReader) -> (res: Result<DmData, MetadataError>)
        requires
            old(r).pos() <= old(r).bits().len(),
        ensures
            final(r).bits() == old(r).bits(),
            final(r).pos() <= final(r).bits().len(),
            match res {
                Ok(dm) => dm.spec_version() == v && spec_parse_dm(v, old(r).bits(), old(r).pos())
                    == Some((dm.spec_blocks(), final(r).pos())) && dm.wf(),
                Err(e) => e == MetadataError::MalformedStream && (spec_parse_dm(
                    v,
                    old(r).bits(),
                    old(r).pos(),
                ) is None || (spec_parse_ue(old(r).bits(), old(r).pos()) matches Some(cp) && cp.0
                    + 1 >= pow2(64))),
            },
    {
        match v {
            CmVersion::V29 => match CmV29DmData::parse(r) {
                Ok(m) => Ok(DmData::V29(m)),
                Err(e) => Err(e),
            },
            CmVersion::V40 => match CmV40DmData::parse(r) {
                Ok(m) => Ok(DmData::V40(m)),
                Err(e) => Err(e),
            },
        }
    }

    /// Write the blocks in the order they stand in the container.
    pub fn write(&self, w: &mut BitstreamWriter)
        requires
            forall|i: int|
                0 <= i < self.spec_blocks().len() ==> (#[trigger] self.spec_blocks()[i]).valid(),
        ensures
            final(w).bits() == old(w).bits() + blocks_bits(self.spec_blocks()),
    {
        match self {
            DmData::V29(m) => {
                proof {
                    assert(self.spec_blocks() == m.blocks@);
                }
                m.write(w)
            },
            DmData::V40(m) => {
                proof {
                    assert(self.spec_blocks() == m.blocks@);
                }
                m.write(w)
            },
        }
    }

    /// Write the full wire image: count, alignment padding, blocks.
    pub fn write_all(&self, w: &mut BitstreamWriter)
        requires
            self.wf(),
            self.spec_blocks().len() < u64::MAX,
        ensures
            final(w).bits() == old(w).bits() + dm_bits(self.spec_blocks(), old(w).bits().len()),
    {
        match self {
            DmData::V29(m) => m.write_all(w),
            DmData::V40(m) => m.write_all(w),
        }
    }

    /// The byte length the blocks will occupy on the wire, headers included.
    pub fn ext_block_write_length(&self) -> (r: u32)
        requires
            spec_total_length(self.spec_blocks()) <= u32::MAX,
        ensures
            r as nat == spec_total_length(self.spec_blocks()),
    {
        match self {
            DmData::V29(m) => m.ext_block_write_length(),
            DmData::V40(m) => m.ext_block_write_length(),
        }
    }

    /// The number of blocks the container believes it holds.
    pub fn num_ext_blocks(&self) -> (r: u64)
        ensures
            r == match self {
                DmData::V29(m) => m.num_ext_blocks,
                DmData::V40(m) => m.num_ext_blocks,
            },
    {
        match self {
            DmData::V29(m) => m.num_ext_blocks(),
            DmData::V40(m) => m.num_ext_blocks(),
        }
    }

    /// Check the container invariant of whichever version is held.
    pub fn validate(&self) -> (res: Result<(), MetadataError>)
        ensures
            res.is_ok() <==> self.wf(),
    {
        match self {
            DmData::V29(m) => m.validate(),
            DmData::V40(m) => m.validate(),
        }
    }
}

} // verus!
