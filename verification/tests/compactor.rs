//! The block store and compactor: its primitive operations, the worked
//! layouts, and the conservation, stability and idempotence properties on
//! concrete stores.

use advent_of_code::day09::{Block, FileSystem, Policy};

fn store(blocks: &[Block]) -> FileSystem {
    FileSystem(blocks.to_vec())
}

fn total_units(fs: &FileSystem) -> u64 {
    fs.0
        .iter()
        .map(|b| match b {
            Block::File { size, .. } => *size,
            Block::Free { size } => *size,
        })
        .sum()
}

fn unit_layout(fs: &FileSystem) -> Vec<Option<u64>> {
    let mut units = Vec::new();
    for b in &fs.0 {
        match b {
            Block::File { id, size } => {
                for _ in 0..*size {
                    units.push(Some(*id));
                }
            },
            Block::Free { size } => {
                for _ in 0..*size {
                    units.push(None);
                }
            },
        }
    }
    units
}

fn rightmost_positions(fs: &FileSystem) -> Vec<(u64, usize)> {
    let units = unit_layout(fs);
    let mut out: Vec<(u64, usize)> = Vec::new();
    for (pos, u) in units.iter().enumerate() {
        if let Some(id) = u {
            match out.iter_mut().find(|(i, _)| i == id) {
                Some(entry) => entry.1 = pos,
                None => out.push((*id, pos)),
            }
        }
    }
    out.sort();
    out
}

fn occupied_pairs(fs: &FileSystem) -> Vec<(u64, u64)> {
    let mut out: Vec<(u64, u64)> = Vec::new();
    for b in &fs.0 {
        if let Block::File { id, size } = b {
            out.push((*id, *size));
        }
    }
    out.sort();
    out
}

#[test]
fn parse_small_example() {
    // the five-block layout of the digit string 12345
    let fs = FileSystem::from_digits("12345");
    assert_eq!(
        fs.0,
        vec![
            Block::File { id: 0, size: 1 },
            Block::Free { size: 2 },
            Block::File { id: 1, size: 3 },
            Block::Free { size: 4 },
            Block::File { id: 2, size: 5 },
        ]
    );
}

#[test]
fn parse_drops_empty_runs() {
    let fs = FileSystem::from_digits("105");
    assert_eq!(
        fs.0,
        vec![Block::File { id: 0, size: 1 }, Block::File { id: 1, size: 5 }]
    );
    assert_eq!(FileSystem::from_digits("").0, vec![]);
}

#[test]
fn unit_move_small_checksum() {
    let mut fs = FileSystem::from_digits("12345");
    fs.solve(Policy::UnitMove);
    assert_eq!(fs.checksum(), 60);
}

#[test]
fn checksum_of_layout() {
    // 0..111 -> 0*0 + 1*5 + 1*6 + 1*7
    let fs = store(&[
        Block::File { id: 0, size: 1 },
        Block::Free { size: 4 },
        Block::File { id: 1, size: 3 },
    ]);
    assert_eq!(fs.checksum(), 18);
}

#[test]
fn shrink_and_grow_free_space() {
    let mut fs = store(&[Block::Free { size: 3 }, Block::File { id: 0, size: 2 }]);
    let left = fs.shrink(0, 2);
    assert_eq!(left, 1);
    assert_eq!(fs.0[0], Block::Free { size: 1 });
}

#[test]
fn free_converts_in_place() {
    let mut fs = store(&[Block::File { id: 3, size: 4 }]);
    fs.free(0);
    assert_eq!(fs.0, vec![Block::Free { size: 4 }]);
}

#[test]
fn remove_and_insert_shift_blocks() {
    let mut fs = store(&[
        Block::File { id: 0, size: 1 },
        Block::Free { size: 0 },
        Block::File { id: 1, size: 1 },
    ]);
    fs.remove(1);
    assert_eq!(
        fs.0,
        vec![Block::File { id: 0, size: 1 }, Block::File { id: 1, size: 1 }]
    );
    fs.insert(1, Block::Free { size: 2 });
    assert_eq!(
        fs.0,
        vec![
            Block::File { id: 0, size: 1 },
            Block::Free { size: 2 },
            Block::File { id: 1, size: 1 },
        ]
    );
}

#[test]
fn merge_joins_same_id_neighbours() {
    let mut fs = store(&[
        Block::File { id: 7, size: 2 },
        Block::File { id: 7, size: 3 },
    ]);
    assert!(fs.merge_if_same_id(1));
    assert_eq!(fs.0, vec![Block::File { id: 7, size: 5 }]);

    let mut fs = store(&[
        Block::File { id: 7, size: 2 },
        Block::File { id: 8, size: 3 },
    ]);
    assert!(!fs.merge_if_same_id(1));
    assert_eq!(fs.0.len(), 2);
}

#[test]
fn unit_conservation_both_policies() {
    // the sum of all block sizes is untouched by compaction
    for policy in [Policy::UnitMove, Policy::WholeMove] {
        let mut fs = FileSystem::from_digits("2333133121414131402");
        let before = total_units(&fs);
        fs.solve(policy);
        assert_eq!(total_units(&fs), before);
    }
}

#[test]
fn no_empty_blocks_after_compaction() {
    for policy in [Policy::UnitMove, Policy::WholeMove] {
        let mut fs = FileSystem::from_digits("2333133121414131402");
        fs.solve(policy);
        assert!(fs.0.iter().all(|b| match b {
            Block::File { size, .. } => *size >= 1,
            Block::Free { size } => *size >= 1,
        }));
    }
}

#[test]
fn whole_move_keeps_id_size_pairs() {
    // ids are never split: the multiset of (id, size) pairs is unchanged
    let mut fs = FileSystem::from_digits("2333133121414131402");
    let before = occupied_pairs(&fs);
    fs.solve(Policy::WholeMove);
    assert_eq!(occupied_pairs(&fs), before);
}

#[test]
fn unit_move_keeps_units_per_id() {
    // unit moves preserve each id's total units, though blocks may split
    let mut fs = FileSystem::from_digits("2333133121414131402");
    let count_per_id = |fs: &FileSystem| {
        let mut v: Vec<(u64, u64)> = Vec::new();
        for b in &fs.0 {
            if let Block::File { id, size } = b {
                match v.iter_mut().find(|(i, _)| i == id) {
                    Some(e) => e.1 += size,
                    None => v.push((*id, *size)),
                }
            }
        }
        v.sort();
        v
    };
    let before = count_per_id(&fs);
    fs.solve(Policy::UnitMove);
    assert_eq!(count_per_id(&fs), before);
}

#[test]
fn no_block_moves_right() {
    // no occupied block's rightmost unit position increases
    for policy in [Policy::UnitMove, Policy::WholeMove] {
        let mut fs = FileSystem::from_digits("2333133121414131402");
        let before = rightmost_positions(&fs);
        fs.solve(policy);
        let after = rightmost_positions(&fs);
        for (id, pos) in after {
            let old = before.iter().find(|(i, _)| *i == id).unwrap().1;
            assert!(pos <= old);
        }
    }
}

#[test]
fn whole_move_is_idempotent() {
    // re-running whole-block compaction on its own output changes nothing
    let mut fs = FileSystem::from_digits("2333133121414131402");
    fs.solve(Policy::WholeMove);
    let once = fs.0.clone();
    fs.solve(Policy::WholeMove);
    assert_eq!(fs.0, once);
}

#[test]
fn unit_move_already_compact() {
    // once no free block precedes any file, unit moves change nothing
    let mut fs = FileSystem::from_digits("12345");
    fs.solve(Policy::UnitMove);
    let once = fs.0.clone();
    fs.solve(Policy::UnitMove);
    assert_eq!(fs.0, once);
}

#[test]
fn whole_move_leaves_unfit_files() {
    // a file with no large-enough hole to its left stays put
    let mut fs = FileSystem::from_digits("12345");
    fs.solve(Policy::WholeMove);
    assert_eq!(
        fs.0,
        vec![
            Block::File { id: 0, size: 1 },
            Block::Free { size: 2 },
            Block::File { id: 1, size: 3 },
            Block::Free { size: 4 },
            Block::File { id: 2, size: 5 },
        ]
    );
}
