use radau_rs::transform::{real_block_starts, schur_blocks, SchurBlock};

fn blk(start: usize, size: usize) -> SchurBlock {
    SchurBlock { start, size }
}

#[test]
fn three_stage_layout() {
    // Order 5: one real eigenvalue then one complex pair.
    let b = schur_blocks(&vec![false, true], 3);
    assert_eq!(b, vec![blk(0, 1), blk(1, 2)]);
    assert_eq!(real_block_starts(&b), vec![0]);
}

#[test]
fn pair_first_layout() {
    let b = schur_blocks(&vec![true, false], 3);
    assert_eq!(b, vec![blk(0, 2), blk(2, 1)]);
    assert_eq!(real_block_starts(&b), vec![2]);
}

#[test]
fn entry_after_a_pair_is_skipped() {
    // The sub-diagonal entry below the second row of a 2x2 block belongs to
    // no block boundary and is not looked at.
    let b = schur_blocks(&vec![true, true, false, true], 5);
    assert_eq!(b, vec![blk(0, 2), blk(2, 1), blk(3, 2)]);
}

#[test]
fn trailing_entry_cannot_open_a_block() {
    let b = schur_blocks(&vec![false, false, true], 3);
    assert_eq!(b, vec![blk(0, 1), blk(1, 1), blk(2, 1)]);
    assert_eq!(real_block_starts(&b), vec![0, 1, 2]);
}

#[test]
fn empty_and_single() {
    assert_eq!(schur_blocks(&vec![], 0), vec![]);
    assert_eq!(schur_blocks(&vec![], 1), vec![blk(0, 1)]);
}

#[test]
fn blocks_tile_the_diagonal() {
    let coupled = vec![false, true, false, true, false, false, true, true];
    let s = coupled.len() + 1;
    let b = schur_blocks(&coupled, s);
    assert_eq!(b[0].start, 0);
    for w in b.windows(2) {
        assert_eq!(w[1].start, w[0].start + w[0].size);
    }
    let last = b.last().unwrap();
    assert_eq!(last.start + last.size, s);
    assert!(b.iter().all(|x| x.size == 1 || x.size == 2));
}

#[test]
fn seven_stage_radau_layout() {
    // Order 13: one real eigenvalue and three complex pairs.
    let b = schur_blocks(&vec![false, true, false, true, false, true], 7);
    assert_eq!(b.iter().filter(|x| x.size == 2).count(), 3);
    assert_eq!(real_block_starts(&b).len(), 1);
}
