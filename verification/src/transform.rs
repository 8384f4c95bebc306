//! Block layout of the real Schur form `T` of `A^-1`.
//!
//! `T` is quasi-upper-triangular: its diagonal is tiled by 1x1 blocks (real
//! eigenvalues) and 2x2 blocks (complex conjugate pairs). A 2x2 block starts
//! at row `i` exactly when the sub-diagonal entry `T[i+1][i]` is nonzero. The
//! caller decides, for each `i`, whether that entry counts as nonzero; this
//! module turns those decisions into the list of blocks.

use vstd::prelude::*;

verus! {

/// A diagonal block of the Schur form: `size` is 1 (real eigenvalue) or 2
/// (complex conjugate pair), starting at row/column `start` of `T`.
#[derive(Debug, Clone, Copy, PartialEq, Eq, Structural)]
pub struct SchurBlock {
    pub start: usize,
    pub size: usize,
}

/// The blocks of rows `i..s`, scanning downward: a 2x2 block wherever the
/// sub-diagonal entry below row `i` is nonzero (and a row below exists),
/// a 1x1 block otherwise.
pub open spec fn blocks_from(coupled: Seq<bool>, s: nat, i: nat) -> Seq<SchurBlock>
    decreases s - i,
{
    if i >= s {
        seq![]
    } else if i + 1 < s && coupled[i as int] {
        seq![SchurBlock { start: i as usize, size: 2 }] + blocks_from(coupled, s, i + 2)
    } else {
        seq![SchurBlock { start: i as usize, size: 1 }] + blocks_from(coupled, s, i + 1)
    }
}

/// `blocks` tiles the rows `from..s` in order: each block is 1x1 or 2x2,
/// the first starts at `from`, each next one starts where the previous one
/// ends, and the last one ends at `s`.
pub open spec fn tiles(blocks: Seq<SchurBlock>, from: nat, s: nat) -> bool {
    &&& (blocks.len() == 0 <==> from >= s)
    &&& blocks.len() > 0 ==> blocks[0].start == from
    &&& blocks.len() > 0 ==> blocks.last().start + blocks.last().size == s
    &&& forall|k: int| 0 <= k < blocks.len() ==> (#[trigger] blocks[k]).size == 1 || blocks[k].size
        == 2
    &&& forall|k: int|
        0 < k < blocks.len() ==> #[trigger] blocks[k].start == blocks[k - 1].start + blocks[k
            - 1].size
}

/// The greedy scan tiles the diagonal: the blocks of rows `i..s` are 1x1 or
/// 2x2, consecutive, in increasing order, and cover exactly `i..s`.
pub proof fn lemma_blocks_tile(coupled: Seq<bool>, s: nat, i: nat)
    requires
        s <= usize::MAX,
    ensures
        tiles(blocks_from(coupled, s, i), i, s),
    decreases s - i,
{
    if i < s {
        let next = if i + 1 < s && coupled[i as int] {
            i + 2
        } else {
            i + 1
        };
        lemma_blocks_tile(coupled, s, next);
        let rest = blocks_from(coupled, s, next);
        let all = blocks_from(coupled, s, i);
        assert(all == seq![all[0]] + rest);
        assert forall|k: int| 0 < k < all.len() implies #[trigger] all[k].start == all[k
            - 1].start + all[k - 1].size by {
            if k > 1 {
                assert(all[k] == rest[k - 1]);
                assert(all[k - 1] == rest[k - 2]);
                assert(rest[k - 1].start == rest[k - 2].start + rest[k - 2].size);
            } else {
                assert(all[1] == rest[0]);
                assert(all[0].start as nat == i);
                assert(all[0].start + all[0].size == next);
            }
        }
        assert forall|k: int| 0 <= k < all.len() implies (#[trigger] all[k]).size == 1
            || all[k].size == 2 by {
            if k > 0 {
                assert(all[k] == rest[k - 1]);
            }
        }
        if rest.len() > 0 {
            assert(all.last() == rest.last());
        }
    }
}

/// Each block is 2x2 exactly when its first row has a row below it and the
/// sub-diagonal entry between them is nonzero.
pub open spec fn follows_coupling(blocks: Seq<SchurBlock>, coupled: Seq<bool>, s: nat) -> bool {
    forall|k: int|
        0 <= k < blocks.len() ==> ((#[trigger] blocks[k]).size == 2 <==> (blocks[k].start + 1 < s
            && coupled[blocks[k].start as int]))
}

/// The scan opens a 2x2 block exactly where the sub-diagonal entry below the
/// block's first row is nonzero.
pub proof fn lemma_blocks_follow_coupling(coupled: Seq<bool>, s: nat, i: nat)
    requires
        s <= usize::MAX,
    ensures
        follows_coupling(blocks_from(coupled, s, i), coupled, s),
    decreases s - i,
{
    if i < s {
        let next = if i + 1 < s && coupled[i as int] {
            i + 2
        } else {
            i + 1
        };
        lemma_blocks_follow_coupling(coupled, s, next);
        let rest = blocks_from(coupled, s, next);
        let all = blocks_from(coupled, s, i);
        assert forall|k: int| 0 <= k < all.len() implies ((#[trigger] all[k]).size == 2 <==> (
        all[k].start + 1 < s && coupled[all[k].start as int])) by {
            if k > 0 {
                assert(all[k] == rest[k - 1]);
            } else {
                assert(all[0].start as nat == i);
            }
        }
    }
}

/// The total number of rows covered by `blocks`.
pub open spec fn total_size(blocks: Seq<SchurBlock>) -> nat
    decreases blocks.len(),
{
    if blocks.len() == 0 {
        0
    } else {
        blocks[0].size as nat + total_size(blocks.drop_first())
    }
}

/// The block sizes sum to the number of rows scanned: the blocks of rows
/// `i..s` cover `s - i` rows.
pub proof fn lemma_block_sizes_sum(coupled: Seq<bool>, s: nat, i: nat)
    requires
        i <= s,
        s <= usize::MAX,
    ensures
        total_size(blocks_from(coupled, s, i)) == s - i,
    decreases s - i,
{
    if i < s {
        let next = if i + 1 < s && coupled[i as int] {
            i + 2
        } else {
            i + 1
        };
        lemma_block_sizes_sum(coupled, s, next);
        let all = blocks_from(coupled, s, i);
        assert(all.drop_first() == blocks_from(coupled, s, next));
    }
}

/// The diagonal blocks of the `s x s` quasi-triangular Schur form, in
/// increasing `start` order. `coupled[i]` (for `i + 1 < s`) says whether the
/// sub-diagonal entry `T[i+1][i]` is nonzero, i.e. whether rows `i` and
/// `i + 1` form a 2x2 block.
pub fn schur_blocks(coupled: &Vec<bool>, s: usize) -> (blocks: Vec<SchurBlock>)
    requires
        s <= coupled@.len() + 1,
    ensures
        blocks@ == blocks_from(coupled@, s as nat, 0),
        tiles(blocks@, 0, s as nat),
        total_size(blocks@) == s,
        follows_coupling(blocks@, coupled@, s as nat),
        increasing_starts(blocks@),
{
    let mut blocks: Vec<SchurBlock> = Vec::new();
    let mut i: usize = 0;
    while i < s
        invariant
            s <= coupled@.len() + 1,
            i <= s + 1,
            blocks@ + blocks_from(coupled@, s as nat, i as nat) == blocks_from(coupled@, s as nat, 0),
        decreases s + 1 - i,
    {
        let ghost before = blocks@;
        if i + 1 < s && coupled[i] {
            blocks.push(SchurBlock { start: i, size: 2 });
            proof {
                assert(blocks_from(coupled@, s as nat, i as nat) == seq![
                    SchurBlock { start: i, size: 2 },
                ] + blocks_from(coupled@, s as nat, (i + 2) as nat));
                assert(blocks@ + blocks_from(coupled@, s as nat, (i + 2) as nat) == before
                    + blocks_from(coupled@, s as nat, i as nat));
            }
            i = i + 2;
        } else {
            blocks.push(SchurBlock { start: i, size: 1 });
            proof {
                assert(blocks_from(coupled@, s as nat, i as nat) == seq![
                    SchurBlock { start: i, size: 1 },
                ] + blocks_from(coupled@, s as nat, (i + 1) as nat));
                assert(blocks@ + blocks_from(coupled@, s as nat, (i + 1) as nat) == before
                    + blocks_from(coupled@, s as nat, i as nat));
            }
            i = i + 1;
        }
    }
    proof {
        assert(blocks_from(coupled@, s as nat, i as nat) == Seq::<SchurBlock>::empty());
        assert(blocks@ == blocks@ + Seq::<SchurBlock>::empty());
        lemma_blocks_tile(coupled@, s as nat, 0);
        lemma_block_sizes_sum(coupled@, s as nat, 0);
        lemma_blocks_follow_coupling(coupled@, s as nat, 0);
        lemma_tiles_increasing(blocks@, 0, s as nat);
    }
    blocks
}

/// The starts of the 1x1 blocks among `blocks`, in order: the rows of `T`
/// that carry a real eigenvalue.
pub open spec fn real_starts(blocks: Seq<SchurBlock>) -> Seq<usize>
    decreases blocks.len(),
{
    if blocks.len() == 0 {
        seq![]
    } else {
        let rest = real_starts(blocks.drop_last());
        if blocks.last().size == 1 {
            rest.push(blocks.last().start)
        } else {
            rest
        }
    }
}

/// The rows of the 1x1 blocks, i.e. the positions of the real eigenvalues on
/// the diagonal of the Schur form.
pub fn real_block_starts(blocks: &Vec<SchurBlock>) -> (starts: Vec<usize>)
    ensures
        starts@ == real_starts(blocks@),
        forall|x: usize|
            starts@.contains(x) <==> exists|k: int|
                0 <= k < blocks@.len() && (#[trigger] blocks@[k]).size == 1 && blocks@[k].start == x,
        increasing_starts(blocks@) ==> strictly_increasing(starts@),
{
    let mut starts: Vec<usize> = Vec::new();
    let mut i: usize = 0;
    while i < blocks.len()
        invariant
            i <= blocks@.len(),
            starts@ == real_starts(blocks@.take(i as int)),
        decreases blocks@.len() - i,
    {
        proof {
            assert(blocks@.take(i + 1).drop_last() == blocks@.take(i as int));
            assert(blocks@.take(i + 1).last() == blocks@[i as int]);
        }
        if blocks[i].size == 1 {
            starts.push(blocks[i].start);
        }
        i = i + 1;
    }
    proof {
        assert(blocks@.take(blocks@.len() as int) == blocks@);
        lemma_real_starts_are_1x1_blocks(blocks@);
    }
    starts
}

/// The block starts increase strictly from block to block.
pub open spec fn increasing_starts(blocks: Seq<SchurBlock>) -> bool {
    forall|a: int, b: int| 0 <= a < b < blocks.len() ==> blocks[a].start < blocks[b].start
}

/// The entries increase strictly.
pub open spec fn strictly_increasing(xs: Seq<usize>) -> bool {
    forall|a: int, b: int| 0 <= a < b < xs.len() ==> xs[a] < xs[b]
}

/// Tiled blocks are in strictly increasing order of their starts.
pub proof fn lemma_tiles_increasing(blocks: Seq<SchurBlock>, from: nat, s: nat)
    requires
        tiles(blocks, from, s),
    ensures
        increasing_starts(blocks),
{
    assert forall|a: int, b: int| 0 <= a < b < blocks.len() implies blocks[a].start
        < blocks[b].start by {
        lemma_tiles_gap(blocks, from, s, a, b);
    }
}

proof fn lemma_tiles_gap(blocks: Seq<SchurBlock>, from: nat, s: nat, a: int, b: int)
    requires
        tiles(blocks, from, s),
        0 <= a < b < blocks.len(),
    ensures
        blocks[a].start < blocks[b].start,
    decreases b - a,
{
    assert(blocks[b].start == blocks[b - 1].start + blocks[b - 1].size);
    assert(blocks[b - 1].size == 1 || blocks[b - 1].size == 2);
    if a < b - 1 {
        lemma_tiles_gap(blocks, from, s, a, b - 1);
    }
}

/// The real rows are exactly the starts of the 1x1 blocks, each once and in
/// increasing order when the blocks are in increasing order.
pub proof fn lemma_real_starts_are_1x1_blocks(blocks: Seq<SchurBlock>)
    ensures
        forall|x: usize|
            real_starts(blocks).contains(x) <==> exists|k: int|
                0 <= k < blocks.len() && (#[trigger] blocks[k]).size == 1 && blocks[k].start == x,
        increasing_starts(blocks) ==> strictly_increasing(real_starts(blocks)),
    decreases blocks.len(),
{
    if blocks.len() > 0 {
        let init = blocks.drop_last();
        lemma_real_starts_are_1x1_blocks(init);
        let rs = real_starts(blocks);
        let ri = real_starts(init);
        let last = blocks.last();
        let n = blocks.len() - 1;
        assert forall|k: int| 0 <= k < init.len() implies init[k] == blocks[k] by {}
        assert forall|x: usize| rs.contains(x) <==> exists|k: int|
            0 <= k < blocks.len() && (#[trigger] blocks[k]).size == 1 && blocks[k].start == x by {
            if rs.contains(x) {
                let i = choose|i: int| 0 <= i < rs.len() && rs[i] == x;
                if last.size == 1 && i == rs.len() - 1 {
                    assert(blocks[n].size == 1 && blocks[n].start == x);
                } else {
                    assert(ri[i] == x);
                    assert(ri.contains(x));
                    let k = choose|k: int|
                        0 <= k < init.len() && (#[trigger] init[k]).size == 1 && init[k].start
                            == x;
                    assert(blocks[k] == init[k]);
                }
            }
            if exists|k: int|
                0 <= k < blocks.len() && (#[trigger] blocks[k]).size == 1 && blocks[k].start == x {
                let k = choose|k: int|
                    0 <= k < blocks.len() && (#[trigger] blocks[k]).size == 1 && blocks[k].start
                        == x;
                if k == n {
                    assert(rs[rs.len() - 1] == x);
                } else {
                    assert(init[k] == blocks[k]);
                    assert(ri.contains(x));
                    let i = choose|i: int| 0 <= i < ri.len() && ri[i] == x;
                    assert(rs[i] == x);
                }
            }
        }
        if increasing_starts(blocks) {
            assert(increasing_starts(init));
            assert forall|a: int, b: int| 0 <= a < b < rs.len() implies rs[a] < rs[b] by {
                if last.size == 1 && b == rs.len() - 1 {
                    assert(rs[a] == ri[a]);
                    assert(ri.contains(ri[a]));
                    let k = choose|k: int|
                        0 <= k < init.len() && (#[trigger] init[k]).size == 1 && init[k].start
                            == ri[a];
                    assert(blocks[k] == init[k]);
                    assert(blocks[k].start < blocks[n].start);
                } else {
                    assert(rs[a] == ri[a]);
                    assert(rs[b] == ri[b]);
                }
            }
        }
    }
}

} // verus!
