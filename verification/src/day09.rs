//! A variable-size block storage compactor.
//!
//! A linear storage region is an ordered sequence of blocks, each either
//! occupied by a file (with a stable identity assigned at parse time) or
//! free.  The compactor walks the occupied blocks from the high end of the
//! region toward the low end and relocates them into free space under one of
//! two policies: `UnitMove` moves single units into the first free block to
//! the left, splitting files; `WholeMove` moves a file only as a whole into
//! the first sufficiently large free block, never splitting it.  A
//! position-weighted checksum is computed from the final layout.

use vstd::prelude::*;

verus! {

use vstd::multiset::Multiset;

broadcast use vstd::multiset::group_multiset_axioms;

use vstd::string::StringSliceAdditionalSpecFns;

/// A contiguous run of storage units: occupied by the file `id`, or free.
#[derive(Clone, Copy, Debug, PartialEq, Eq, Structural)]
pub enum Block {
    File { id: u64, size: u64 },
    Free { size: u64 },
}

/// The two relocation policies.
#[derive(Clone, Copy, Debug, PartialEq, Eq, Structural)]
pub enum Policy {
    UnitMove,
    WholeMove,
}

pub open spec fn block_size(b: Block) -> nat {
    match b {
        Block::File { size, .. } => size as nat,
        Block::Free { size } => size as nat,
    }
}

pub open spec fn is_free_block(b: Block) -> bool {
    match b {
        Block::Free { .. } => true,
        _ => false,
    }
}

pub open spec fn is_file_with_id(b: Block, id: u64) -> bool {
    match b {
        Block::File { id: i, .. } => i == id,
        _ => false,
    }
}

/// The total number of storage units covered by the blocks.
pub open spec fn total_size(bs: Seq<Block>) -> nat
    decreases bs.len(),
{
    if bs.len() == 0 {
        0
    } else {
        block_size(bs[0]) + total_size(bs.drop_first())
    }
}

/// No block of size zero persists in the store.
pub open spec fn wf_blocks(bs: Seq<Block>) -> bool {
    forall|i: int| 0 <= i < bs.len() ==> block_size(#[trigger] bs[i]) >= 1
}

/// The region expanded to single units: `Some(id)` for each unit of a file,
/// `None` for each free unit.
pub open spec fn expand_block(b: Block) -> Seq<Option<u64>> {
    match b {
        Block::File { id, size } => Seq::new(size as nat, |i: int| Some(id)),
        Block::Free { size } => Seq::new(size as nat, |i: int| None),
    }
}

pub open spec fn units_of(bs: Seq<Block>) -> Seq<Option<u64>>
    decreases bs.len(),
{
    if bs.len() == 0 {
        Seq::empty()
    } else {
        expand_block(bs[0]) + units_of(bs.drop_first())
    }
}

/// Sum of `position * id` over all occupied units, where the first unit of
/// `us` sits at absolute position `pos`.
pub open spec fn weighted_sum(us: Seq<Option<u64>>, pos: nat) -> nat
    decreases us.len(),
{
    if us.len() == 0 {
        0
    } else {
        (match us[0] {
            Some(id) => pos * (id as nat),
            None => 0,
        }) + weighted_sum(us.drop_first(), (pos + 1) as nat)
    }
}

/// The position-weighted checksum of the final layout.
pub open spec fn spec_checksum(bs: Seq<Block>) -> nat {
    weighted_sum(units_of(bs), 0)
}

/// The storage region: an ordered sequence of blocks.
pub struct FileSystem(pub Vec<Block>);

impl View for FileSystem {
    type V = Seq<Block>;

    open spec fn view(&self) -> Seq<Block> {
        self.0@
    }
}

pub open spec fn shrunk_block(b: Block, amount: u64) -> Block {
    match b {
        Block::File { id, size } => Block::File { id, size: (size - amount) as u64 },
        Block::Free { size } => Block::Free { size: (size - amount) as u64 },
    }
}

pub open spec fn grown_block(b: Block, amount: u64) -> Block {
    match b {
        Block::File { id, size } => Block::File { id, size: (size + amount) as u64 },
        Block::Free { size } => Block::Free { size: (size + amount) as u64 },
    }
}

impl FileSystem {
    /// Reduce the size of the block at `index` by `amount`; the caller must
    /// have validated that the block is at least that large.
    pub fn shrink(&mut self, index: usize, amount: u64) -> (new_size: u64)
        requires
            index < old(self)@.len(),
            amount <= block_size(old(self)@[index as int]),
        ensures
            final(self)@ =~= old(self)@.update(index as int, shrunk_block(old(self)@[index as int], amount)),
            new_size == block_size(final(self)@[index as int]),
    {
        let b = self.0[index];
        let nb = match b {
            Block::File { id, size } => Block::File { id, size: size - amount },
            Block::Free { size } => Block::Free { size: size - amount },
        };
        self.0.set(index, nb);
        match nb {
            Block::File { size, .. } => size,
            Block::Free { size } => size,
        }
    }

    /// Convert the occupied block at `index` in place into a free block of
    /// the same size.
    pub fn free(&mut self, index: usize)
        requires
            index < old(self)@.len(),
            old(self)@[index as int] matches Block::File { .. },
        ensures
            final(self)@ =~= old(self)@.update(
                index as int,
                Block::Free { size: block_size(old(self)@[index as int]) as u64 },
            ),
    {
        let b = self.0[index];
        let size = match b {
            Block::File { size, .. } => size,
            Block::Free { size } => size,
        };
        self.0.set(index, Block::Free { size });
    }

    /// Delete the zero-size block at `index`; all blocks after it shift down
    /// by one, and held indices past `index` must be compensated.
    pub fn remove(&mut self, index: usize)
        requires
            index < old(self)@.len(),
            block_size(old(self)@[index as int]) == 0,
        ensures
            final(self)@ =~= old(self)@.remove(index as int),
    {
        self.0.remove(index);
    }

    /// Insert `b` at `index`; all blocks at positions `>= index` shift up by
    /// one, and held indices must be compensated.
    pub fn insert(&mut self, index: usize, b: Block)
        requires
            index <= old(self)@.len(),
            old(self)@.len() < usize::MAX,
        ensures
            final(self)@ =~= old(self)@.insert(index as int, b),
    {
        self.0.insert(index, b);
    }

    /// If the block immediately before `index` is occupied with the same id
    /// as the occupied block at `index`, add the sizes together and delete
    /// the block at `index`.
    pub fn merge_if_same_id(&mut self, index: usize) -> (merged: bool)
        requires
            index < old(self)@.len(),
            old(self)@[index as int] matches Block::File { .. },
            total_size(old(self)@) <= u64::MAX,
        ensures
            merged == can_merge(old(self)@, index as int),
            final(self)@ =~= spec_merge(old(self)@, index as int),
    {
        let b = self.0[index];
        if index == 0 {
            return false;
        }
        let prev = self.0[index - 1];
        match (prev, b) {
            (Block::File { id: pid, size: psize }, Block::File { id, size }) => {
                if pid == id {
                    proof {
                        lemma_pair_le_total(self@, index - 1, index as int);
                    }
                    self.0.set(index - 1, Block::File { id, size: psize + size });
                    self.0.remove(index);
                    true
                } else {
                    false
                }
            },
            _ => false,
        }
    }
}

impl FileSystem {
    /// Enlarge the block at `index` by `amount`.
    fn grow(&mut self, index: usize, amount: u64)
        requires
            index < old(self)@.len(),
            block_size(old(self)@[index as int]) + amount <= u64::MAX,
        ensures
            final(self)@ =~= old(self)@.update(
                index as int,
                grown_block(old(self)@[index as int], amount),
            ),
    {
        let b = self.0[index];
        let nb = match b {
            Block::File { id, size } => Block::File { id, size: size + amount },
            Block::Free { size } => Block::Free { size: size + amount },
        };
        self.0.set(index, nb);
    }

    /// Find the first free block of capacity at least `need` strictly before
    /// `bound`.
    fn find_first_fit(&self, bound: usize, need: u64) -> (r: Option<usize>)
        requires
            bound <= self@.len(),
        ensures
            match r {
                Some(j) => first_fit(self@, bound as int, need) == Some(j as int),
                None => first_fit(self@, bound as int, need) is None,
            },
    {
        let mut j: usize = 0;
        while j < bound
            invariant
                bound <= self@.len(),
                j <= bound,
                first_fit(self@, bound as int, need) == first_fit_from(
                    self@,
                    j as int,
                    bound as int,
                    need,
                ),
            decreases bound - j,
        {
            match self.0[j] {
                Block::Free { size } => {
                    if size >= need {
                        return Some(j);
                    }
                },
                _ => {},
            }
            j += 1;
        }
        None
    }

    /// Move one unit of the file at `src` into the free block at `j`,
    /// returning the file's new index.
    #[verifier::rlimit(100)]
    fn unit_step(&mut self, j: usize, src: usize) -> (new_src: usize)
        requires
            wf_blocks(old(self)@),
            total_size(old(self)@) <= u64::MAX,
            total_size(old(self)@) + 2 <= usize::MAX,
            j < src < old(self)@.len(),
            is_free_block(old(self)@[j as int]),
            !is_free_block(old(self)@[src as int]),
        ensures
            final(self)@ == spec_unit_step(old(self)@, j as int, src as int).0,
            new_src as int == spec_unit_step(old(self)@, j as int, src as int).1,
    {
        proof {
            lemma_len_le_total(old(self)@);
        }
        let (id, size) = match self.0[src] {
            Block::File { id, size } => (id, size),
            Block::Free { .. } => {
                proof {
                    assert(false);
                }
                (0, 0)
            },
        };
        // one unit leaves the free block, which goes away when empty
        proof {
            lemma_total_update(self@, j as int, shrunk_block(self@[j as int], 1));
        }
        let left = self.shrink(j, 1);
        let mut s = src;
        if left == 0 {
            proof {
                lemma_total_remove(self@, j as int);
            }
            self.remove(j);
            s = s - 1;
        }
        assert(self@[s as int] == old(self)@[src as int]);
        assert(total_size(self@) == total_size(old(self)@) - 1);
        // place the unit at the free block's former position
        let merge = j > 0 && (match self.0[j - 1] {
            Block::File { id: pid, .. } => pid == id,
            Block::Free { .. } => false,
        });
        if merge {
            proof {
                lemma_block_le_total(self@, j - 1);
                lemma_total_update(self@, j - 1, grown_block(self@[j - 1], 1));
            }
            self.grow(j - 1, 1);
        } else {
            proof {
                lemma_total_insert(self@, j as int, Block::File { id, size: 1 });
            }
            self.insert(j, Block::File { id, size: 1 });
            s = s + 1;
        }
        assert(self@[s as int] == old(self)@[src as int]);
        assert(total_size(self@) == total_size(old(self)@));
        // the file shrinks, the freed unit becoming free space after it
        proof {
            lemma_total_update(self@, s as int, shrunk_block(self@[s as int], 1));
        }
        self.shrink(s, 1);
        assert(total_size(self@) == total_size(old(self)@) - 1);
        if s + 1 < self.0.len() && (match self.0[s + 1] {
            Block::Free { .. } => true,
            _ => false,
        }) {
            proof {
                lemma_block_le_total(self@, s + 1 as int);
                lemma_total_update(self@, s + 1 as int, grown_block(self@[s + 1 as int], 1));
            }
            self.grow(s + 1, 1);
        } else {
            self.insert(s + 1, Block::Free { size: 1 });
        }
        // the file's block goes away with its last unit
        if size == 1 {
            self.remove(s);
        }
        s
    }

    /// Move the whole file at `src` into the free block at `j`, converting
    /// its former slot into free space; returns the former slot's index.
    #[verifier::rlimit(100)]
    fn whole_step(&mut self, j: usize, src: usize) -> (new_src: usize)
        requires
            wf_blocks(old(self)@),
            total_size(old(self)@) <= u64::MAX,
            total_size(old(self)@) + 2 <= usize::MAX,
            j < src < old(self)@.len(),
            is_free_block(old(self)@[j as int]),
            !is_free_block(old(self)@[src as int]),
            block_size(old(self)@[j as int]) >= block_size(old(self)@[src as int]),
        ensures
            final(self)@ == spec_whole_step(old(self)@, j as int, src as int).0,
            new_src as int == spec_whole_step(old(self)@, j as int, src as int).1,
    {
        proof {
            lemma_len_le_total(old(self)@);
        }
        let (id, size) = match self.0[src] {
            Block::File { id, size } => (id, size),
            Block::Free { .. } => {
                proof {
                    assert(false);
                }
                (0, 0)
            },
        };
        // the free block loses the file's size, and goes away when empty
        proof {
            lemma_total_update(self@, j as int, shrunk_block(self@[j as int], size));
        }
        let left = self.shrink(j, size);
        let mut s = src;
        if left == 0 {
            proof {
                lemma_total_remove(self@, j as int);
            }
            self.remove(j);
            s = s - 1;
        }
        assert(self@[s as int] == old(self)@[src as int]);
        assert(total_size(self@) == total_size(old(self)@) - size);
        // the file is re-inserted at the free block's former position
        let merge = j > 0 && (match self.0[j - 1] {
            Block::File { id: pid, .. } => pid == id,
            Block::Free { .. } => false,
        });
        if merge {
            proof {
                lemma_pair_le_total(self@, j - 1 as int, s as int);
            }
            self.grow(j - 1, size);
        } else {
            self.insert(j, Block::File { id, size });
            s = s + 1;
        }
        assert(self@[s as int] == old(self)@[src as int]);
        // the former slot is freed in place, deliberately left unmerged
        self.free(s);
        s
    }
}

impl FileSystem {
    /// Move the file at `src` out one unit at a time; returns the index
    /// where processing ended and whether the whole pass must stop because
    /// no free block precedes the file.
    fn unit_moves(&mut self, src: usize) -> (r: (usize, bool))
        requires
            wf_blocks(old(self)@),
            total_size(old(self)@) <= u64::MAX,
            total_size(old(self)@) + 2 <= usize::MAX,
            src < old(self)@.len(),
            !is_free_block(old(self)@[src as int]),
        ensures
            final(self)@ == spec_unit_moves(old(self)@, src as int).0,
            r.0 as int == spec_unit_moves(old(self)@, src as int).1,
            r.1 == spec_unit_moves(old(self)@, src as int).2,
    {
        let ghost orig = old(self)@;
        let ghost t0 = total_size(old(self)@);
        let mut s = src;
        loop
            invariant
                orig == old(self)@,
                t0 == total_size(old(self)@),
                wf_blocks(self@),
                total_size(self@) == t0,
                t0 <= u64::MAX,
                t0 + 2 <= usize::MAX,
                s < self@.len(),
                !is_free_block(self@[s as int]),
                spec_unit_moves(orig, src as int) == spec_unit_moves(self@, s as int),
            decreases block_size(self@[s as int]),
        {
            let size = match self.0[s] {
                Block::File { size, .. } => size,
                Block::Free { .. } => {
                    proof {
                        assert(false);
                    }
                    0
                },
            };
            match self.find_first_fit(s, 1) {
                None => {
                    return (s, true);
                },
                Some(j) => {
                    proof {
                        lemma_first_fit_from_props(self@, 0, s as int, 1);
                        lemma_unit_step_props(self@, j as int, s as int);
                        lemma_unit_step_src(self@, j as int, s as int);
                    }
                    let ns = self.unit_step(j, s);
                    if size == 1 {
                        return (ns, false);
                    }
                    s = ns;
                },
            }
        }
    }

    /// One full compaction pass: walk the blocks from the high end of the
    /// region toward the low end and relocate each occupied block at most
    /// once, in descending id order, as `policy` directs.
    pub fn solve(&mut self, policy: Policy)
        requires
            wf_blocks(old(self)@),
            total_size(old(self)@) <= u64::MAX,
            total_size(old(self)@) + 2 <= usize::MAX,
        ensures
            final(self)@ == spec_compact(old(self)@, policy),
            wf_blocks(final(self)@),
            total_size(final(self)@) == total_size(old(self)@),
            policy == Policy::WholeMove && unique_file_ids(old(self)@) ==> occ_pairs(
                final(self)@,
            ) == occ_pairs(old(self)@),
    {
        let ghost t0 = total_size(old(self)@);
        let ghost goal = spec_compact(old(self)@, policy);
        let mut cursor: usize = self.0.len();
        let mut wm: Option<u64> = None;
        while cursor > 0
            invariant
                t0 == total_size(old(self)@),
                goal == spec_compact(old(self)@, policy),
                wf_blocks(self@),
                total_size(self@) == t0,
                t0 <= u64::MAX,
                t0 + 2 <= usize::MAX,
                cursor <= self@.len(),
                spec_compact_from(self@, cursor as int, wm, policy) == goal,
                policy == Policy::WholeMove && unique_file_ids(old(self)@) ==> occ_pairs(self@)
                    == occ_pairs(old(self)@) && unique_file_ids(self@),
            decreases wm_measure(self@, wm), cursor,
        {
            cursor = cursor - 1;
            let b = self.0[cursor];
            let elig = match (b, wm) {
                (Block::File { .. }, None) => true,
                (Block::File { id, .. }, Some(w)) => id < w,
                _ => false,
            };
            if elig {
                let (id, size) = match b {
                    Block::File { id, size } => (id, size),
                    Block::Free { .. } => {
                        proof {
                            assert(false);
                        }
                        (0, 0)
                    },
                };
                proof {
                    if wm is None {
                        lemma_max_file_id_bound(self@, cursor as int);
                    }
                }
                match policy {
                    Policy::WholeMove => {
                        match self.find_first_fit(cursor, size) {
                            Some(j) => {
                                proof {
                                    lemma_first_fit_from_props(self@, 0, cursor as int, size);
                                    lemma_whole_step_props(self@, j as int, cursor as int);
                                    if unique_file_ids(old(self)@) {
                                        lemma_whole_step_stable(self@, j as int, cursor as int);
                                    }
                                }
                                let ns = self.whole_step(j, cursor);
                                cursor = ns;
                            },
                            None => {},
                        }
                    },
                    Policy::UnitMove => {
                        proof {
                            lemma_unit_moves_props(self@, cursor as int);
                        }
                        let moved = self.unit_moves(cursor);
                        if moved.1 {
                            return ;
                        }
                        cursor = moved.0;
                    },
                }
                wm = Some(id);
            }
        }
    }
}

/// Whether the block at `i` and the one before it are occupied by the same id.
pub open spec fn can_merge(bs: Seq<Block>, i: int) -> bool {
    &&& 0 < i < bs.len()
    &&& match (bs[i - 1], bs[i]) {
        (Block::File { id: pid, .. }, Block::File { id, .. }) => pid == id,
        _ => false,
    }
}

pub open spec fn spec_merge(bs: Seq<Block>, i: int) -> Seq<Block> {
    if can_merge(bs, i) {
        bs.update(i - 1, grown_block(bs[i - 1], block_size(bs[i]) as u64)).remove(i)
    } else {
        bs
    }
}

// --- how each structural operation changes the unit total ---

pub proof fn lemma_total_update(bs: Seq<Block>, i: int, b: Block)
    requires
        0 <= i < bs.len(),
    ensures
        total_size(bs.update(i, b)) + block_size(bs[i]) == total_size(bs) + block_size(b),
    decreases bs.len(),
{
    if i == 0 {
        assert(bs.update(0, b).drop_first() =~= bs.drop_first());
    } else {
        assert(bs.update(i, b).drop_first() =~= bs.drop_first().update(i - 1, b));
        lemma_total_update(bs.drop_first(), i - 1, b);
    }
}

pub proof fn lemma_total_insert(bs: Seq<Block>, i: int, b: Block)
    requires
        0 <= i <= bs.len(),
    ensures
        total_size(bs.insert(i, b)) == total_size(bs) + block_size(b),
    decreases bs.len(),
{
    if i == 0 {
        assert(bs.insert(0, b).drop_first() =~= bs);
        assert(bs.insert(0, b)[0] == b);
    } else {
        assert(bs.insert(i, b).drop_first() =~= bs.drop_first().insert(i - 1, b));
        assert(bs.insert(i, b)[0] == bs[0]);
        lemma_total_insert(bs.drop_first(), i - 1, b);
    }
}

pub proof fn lemma_total_remove(bs: Seq<Block>, i: int)
    requires
        0 <= i < bs.len(),
    ensures
        total_size(bs.remove(i)) + block_size(bs[i]) == total_size(bs),
    decreases bs.len(),
{
    if i == 0 {
        assert(bs.remove(0) =~= bs.drop_first());
    } else {
        assert(bs.remove(i).drop_first() =~= bs.drop_first().remove(i - 1));
        assert(bs.remove(i)[0] == bs[0]);
        lemma_total_remove(bs.drop_first(), i - 1);
    }
}

/// A single block never covers more units than the whole region.
pub proof fn lemma_block_le_total(bs: Seq<Block>, i: int)
    requires
        0 <= i < bs.len(),
    ensures
        block_size(bs[i]) <= total_size(bs),
    decreases bs.len(),
{
    if i > 0 {
        lemma_block_le_total(bs.drop_first(), i - 1);
    }
}

/// Two distinct blocks never cover more units than the whole region.
pub proof fn lemma_pair_le_total(bs: Seq<Block>, i: int, j: int)
    requires
        0 <= i < j < bs.len(),
    ensures
        block_size(bs[i]) + block_size(bs[j]) <= total_size(bs),
    decreases bs.len(),
{
    if i == 0 {
        lemma_block_le_total(bs.drop_first(), j - 1);
    } else {
        lemma_pair_le_total(bs.drop_first(), i - 1, j - 1);
    }
}

// --- the two relocation policies, as functions on the block sequence ---

pub open spec fn file_id(b: Block) -> u64 {
    match b {
        Block::File { id, .. } => id,
        Block::Free { .. } => 0,
    }
}

/// The least index `j` with `from <= j < bound` holding a free block of
/// capacity at least `need` (first fit), if any.
pub open spec fn first_fit_from(bs: Seq<Block>, from: int, bound: int, need: u64) -> Option<int>
    decreases bound - from,
{
    if from < 0 || from >= bound || bound > bs.len() {
        None
    } else if is_free_block(bs[from]) && block_size(bs[from]) >= need {
        Some(from)
    } else {
        first_fit_from(bs, from + 1, bound, need)
    }
}

/// The first free block of capacity at least `need` strictly before `bound`.
pub open spec fn first_fit(bs: Seq<Block>, bound: int, need: u64) -> Option<int> {
    first_fit_from(bs, 0, bound, need)
}

/// One unit of the file at `src` moves into the free block at `j < src`:
/// the free block shrinks by one and is removed when empty; one unit of the
/// file's id is placed at the free block's former position, merged into an
/// immediately preceding block of the same id when one is there; the file
/// shrinks by one, the freed unit becoming free space immediately after it;
/// and the file's block is removed once it is empty.  Returns the new
/// sequence and the index of the file (of its former slot, once removed).
pub open spec fn spec_unit_step(bs: Seq<Block>, j: int, src: int) -> (Seq<Block>, int) {
    let id = file_id(bs[src]);
    let bs1 = bs.update(j, Block::Free { size: (block_size(bs[j]) - 1) as u64 });
    let (bs2, src2) = if block_size(bs[j]) == 1 {
        (bs1.remove(j), src - 1)
    } else {
        (bs1, src)
    };
    let (bs3, src3) = if j > 0 && is_file_with_id(bs2[j - 1], id) {
        (bs2.update(j - 1, grown_block(bs2[j - 1], 1)), src2)
    } else {
        (bs2.insert(j, Block::File { id, size: 1 }), src2 + 1)
    };
    let bs4 = bs3.update(src3, shrunk_block(bs3[src3], 1));
    let bs5 = if src3 + 1 < bs4.len() && is_free_block(bs4[src3 + 1]) {
        bs4.update(src3 + 1, grown_block(bs4[src3 + 1], 1))
    } else {
        bs4.insert(src3 + 1, Block::Free { size: 1 })
    };
    if block_size(bs4[src3]) == 0 {
        (bs5.remove(src3), src3)
    } else {
        (bs5, src3)
    }
}

/// What `first_fit_from` finds: a free block of sufficient capacity, with
/// none before it in the scanned range.
pub proof fn lemma_first_fit_from_props(bs: Seq<Block>, from: int, bound: int, need: u64)
    requires
        0 <= from,
        bound <= bs.len(),
    ensures
        match first_fit_from(bs, from, bound, need) {
            Some(j) => {
                &&& from <= j < bound
                &&& is_free_block(bs[j])
                &&& block_size(bs[j]) >= need
                &&& forall|k: int|
                    from <= k < j ==> !(is_free_block(#[trigger] bs[k]) && block_size(bs[k])
                        >= need)
            },
            None => forall|k: int|
                from <= k < bound ==> !(is_free_block(#[trigger] bs[k]) && block_size(bs[k])
                    >= need),
        },
    decreases bound - from,
{
    if from < bound {
        if !(is_free_block(bs[from]) && block_size(bs[from]) >= need) {
            lemma_first_fit_from_props(bs, from + 1, bound, need);
        }
    }
}

/// The shape of a single unit move: the source file keeps its identity, one
/// unit smaller, at the returned index (until its last unit moves, when its
/// block disappears).
pub proof fn lemma_unit_step_src(bs: Seq<Block>, j: int, src: int)
    requires
        0 <= j < src < bs.len(),
        is_free_block(bs[j]),
        block_size(bs[j]) >= 1,
        !is_free_block(bs[src]),
        block_size(bs[src]) >= 1,
    ensures
        block_size(bs[src]) >= 2 ==> {
            let stepped = spec_unit_step(bs, j, src);
            &&& 0 <= stepped.1 < stepped.0.len()
            &&& stepped.0[stepped.1] == (Block::File {
                id: file_id(bs[src]),
                size: (block_size(bs[src]) - 1) as u64,
            })
        },
{
    let id = file_id(bs[src]);
    let bs1 = bs.update(j, Block::Free { size: (block_size(bs[j]) - 1) as u64 });
    let (bs2, src2): (Seq<Block>, int) = if block_size(bs[j]) == 1 {
        (bs1.remove(j), src - 1)
    } else {
        (bs1, src)
    };
    assert(bs2[src2] == bs[src]);
    assert(0 <= j <= src2 < bs2.len());
    let (bs3, src3): (Seq<Block>, int) = if j > 0 && is_file_with_id(bs2[j - 1], id) {
        (bs2.update(j - 1, grown_block(bs2[j - 1], 1)), src2)
    } else {
        (bs2.insert(j, Block::File { id, size: 1 }), src2 + 1)
    };
    assert(bs3[src3] == bs[src]);
    let bs4 = bs3.update(src3, shrunk_block(bs3[src3], 1));
    assert(bs4[src3] == shrunk_block(bs[src], 1));
    let bs5 = if src3 + 1 < bs4.len() && is_free_block(bs4[src3 + 1]) {
        bs4.update(src3 + 1, grown_block(bs4[src3 + 1], 1))
    } else {
        bs4.insert(src3 + 1, Block::Free { size: 1 })
    };
    assert(bs5[src3] == bs4[src3]);
}

/// A single unit move conserves the unit total, leaves no empty block, and
/// keeps the store no more than one block longer.
#[verifier::rlimit(100)]
pub proof fn lemma_unit_step_props(bs: Seq<Block>, j: int, src: int)
    requires
        wf_blocks(bs),
        total_size(bs) <= u64::MAX,
        0 <= j < src < bs.len(),
        is_free_block(bs[j]),
        !is_free_block(bs[src]),
    ensures
        ({
            let stepped = spec_unit_step(bs, j, src);
            &&& total_size(stepped.0) == total_size(bs)
            &&& wf_blocks(stepped.0)
            &&& stepped.0.len() <= bs.len() + 2
            &&& 0 <= stepped.1 < stepped.0.len()
        }),
{
    let id = file_id(bs[src]);
    let size = block_size(bs[src]);
    let cap = block_size(bs[j]);
    let bs1 = bs.update(j, Block::Free { size: (cap - 1) as u64 });
    lemma_total_update(bs, j, Block::Free { size: (cap - 1) as u64 });
    let (bs2, src2): (Seq<Block>, int) = if cap == 1 {
        (bs1.remove(j), src - 1)
    } else {
        (bs1, src)
    };
    if cap == 1 {
        lemma_total_remove(bs1, j);
    }
    assert(total_size(bs2) == total_size(bs) - 1);
    assert(bs2[src2] == bs[src]);
    assert(forall|i: int|
        0 <= i < bs2.len() && i != j ==> block_size(#[trigger] bs2[i]) >= 1);
    let (bs3, src3): (Seq<Block>, int) = if j > 0 && is_file_with_id(bs2[j - 1], id) {
        (bs2.update(j - 1, grown_block(bs2[j - 1], 1)), src2)
    } else {
        (bs2.insert(j, Block::File { id, size: 1 }), src2 + 1)
    };
    if j > 0 && is_file_with_id(bs2[j - 1], id) {
        lemma_block_le_total(bs2, j - 1);
        lemma_total_update(bs2, j - 1, grown_block(bs2[j - 1], 1));
    } else {
        lemma_total_insert(bs2, j, Block::File { id, size: 1 });
    }
    assert(total_size(bs3) == total_size(bs));
    assert(bs3[src3] == bs[src]);
    assert(forall|i: int|
        0 <= i < bs3.len() && i != j + 1 ==> block_size(#[trigger] bs3[i]) >= 1);
    let bs4 = bs3.update(src3, shrunk_block(bs3[src3], 1));
    lemma_total_update(bs3, src3, shrunk_block(bs3[src3], 1));
    assert(total_size(bs4) == total_size(bs) - 1);
    assert(block_size(bs4[src3]) == size - 1);
    let bs5 = if src3 + 1 < bs4.len() && is_free_block(bs4[src3 + 1]) {
        bs4.update(src3 + 1, grown_block(bs4[src3 + 1], 1))
    } else {
        bs4.insert(src3 + 1, Block::Free { size: 1 })
    };
    if src3 + 1 < bs4.len() && is_free_block(bs4[src3 + 1]) {
        lemma_block_le_total(bs4, src3 + 1);
        lemma_total_update(bs4, src3 + 1, grown_block(bs4[src3 + 1], 1));
    } else {
        lemma_total_insert(bs4, src3 + 1, Block::Free { size: 1 });
    }
    assert(total_size(bs5) == total_size(bs));
    assert(bs5[src3] == bs4[src3]);
    assert(forall|i: int|
        0 <= i < bs5.len() && i != src3 ==> block_size(#[trigger] bs5[i]) >= 1);
    if block_size(bs4[src3]) == 0 {
        lemma_total_remove(bs5, src3);
        assert(wf_blocks(bs5.remove(src3))) by {
            assert(forall|i: int|
                0 <= i < bs5.remove(src3).len() ==> block_size(#[trigger] bs5.remove(src3)[i])
                    >= 1);
        }
    }
}

/// Move units of the file at `src` one at a time, each into the first free
/// block to its left, until the file is exhausted or no free block precedes
/// it.  Returns the new sequence, the index where processing ended, and
/// whether the whole pass must stop for want of free space.
pub open spec fn spec_unit_moves(bs: Seq<Block>, src: int) -> (Seq<Block>, int, bool)
    decreases (if 0 <= src < bs.len() { block_size(bs[src]) } else { 0 }),
    via spec_unit_moves_decreases
{
    if !(0 <= src < bs.len() && !is_free_block(bs[src]) && block_size(bs[src]) >= 1) {
        (bs, src, false)
    } else {
        match first_fit(bs, src, 1) {
            None => (bs, src, true),
            Some(j) => {
                let stepped = spec_unit_step(bs, j, src);
                if block_size(bs[src]) == 1 {
                    (stepped.0, stepped.1, false)
                } else {
                    spec_unit_moves(stepped.0, stepped.1)
                }
            },
        }
    }
}

#[via_fn]
proof fn spec_unit_moves_decreases(bs: Seq<Block>, src: int) {
    if 0 <= src < bs.len() && !is_free_block(bs[src]) && block_size(bs[src]) >= 1 {
        match first_fit(bs, src, 1) {
            Some(j) => {
                lemma_first_fit_from_props(bs, 0, src, 1);
                lemma_unit_step_src(bs, j, src);
            },
            None => {},
        }
    }
}

/// Moving a file out unit by unit conserves the unit total and leaves no
/// empty block.
pub proof fn lemma_unit_moves_props(bs: Seq<Block>, src: int)
    requires
        wf_blocks(bs),
        total_size(bs) <= u64::MAX,
        0 <= src < bs.len(),
        !is_free_block(bs[src]),
    ensures
        ({
            let moved = spec_unit_moves(bs, src);
            &&& total_size(moved.0) == total_size(bs)
            &&& wf_blocks(moved.0)
            &&& 0 <= moved.1 < moved.0.len()
        }),
    decreases block_size(bs[src]),
{
    match first_fit(bs, src, 1) {
        None => {},
        Some(j) => {
            lemma_first_fit_from_props(bs, 0, src as int, 1);
            lemma_unit_step_props(bs, j, src);
            let stepped = spec_unit_step(bs, j, src);
            if block_size(bs[src]) == 1 {
            } else {
                lemma_unit_step_src(bs, j, src);
                lemma_unit_moves_props(stepped.0, stepped.1);
            }
        },
    }
}

/// The file at `src` moves as a whole into the free block at `j < src`: the
/// free block shrinks by the file's size and is removed when empty; the file
/// is re-inserted at the free block's former position, merged into an
/// immediately preceding block of the same id when one is there; and its
/// former slot is converted in place into a free block of the same size,
/// deliberately left unmerged with neighbouring free blocks.  Returns the
/// new sequence and the index of the former slot.
pub open spec fn spec_whole_step(bs: Seq<Block>, j: int, src: int) -> (Seq<Block>, int) {
    let id = file_id(bs[src]);
    let size = block_size(bs[src]) as u64;
    let bs1 = bs.update(j, Block::Free { size: (block_size(bs[j]) - size) as u64 });
    let (bs2, src2) = if block_size(bs[j]) == size as nat {
        (bs1.remove(j), src - 1)
    } else {
        (bs1, src)
    };
    let (bs3, src3) = if j > 0 && is_file_with_id(bs2[j - 1], id) {
        (bs2.update(j - 1, grown_block(bs2[j - 1], size)), src2)
    } else {
        (bs2.insert(j, Block::File { id, size }), src2 + 1)
    };
    (bs3.update(src3, Block::Free { size }), src3)
}

/// Moving a whole file conserves the unit total, leaves no empty block, and
/// converts the file's former slot (the returned index) into free space.
#[verifier::rlimit(100)]
pub proof fn lemma_whole_step_props(bs: Seq<Block>, j: int, src: int)
    requires
        wf_blocks(bs),
        total_size(bs) <= u64::MAX,
        0 <= j < src < bs.len(),
        is_free_block(bs[j]),
        !is_free_block(bs[src]),
        block_size(bs[j]) >= block_size(bs[src]),
    ensures
        ({
            let stepped = spec_whole_step(bs, j, src);
            &&& total_size(stepped.0) == total_size(bs)
            &&& wf_blocks(stepped.0)
            &&& stepped.0.len() <= bs.len() + 1
            &&& 0 <= stepped.1 < stepped.0.len()
        }),
{
    let id = file_id(bs[src]);
    let size = block_size(bs[src]) as u64;
    let cap = block_size(bs[j]);
    let bs1 = bs.update(j, Block::Free { size: (cap - size) as u64 });
    lemma_total_update(bs, j, Block::Free { size: (cap - size) as u64 });
    let (bs2, src2): (Seq<Block>, int) = if cap == size as nat {
        (bs1.remove(j), src - 1)
    } else {
        (bs1, src)
    };
    if cap == size as nat {
        lemma_total_remove(bs1, j);
    }
    assert(total_size(bs2) == total_size(bs) - size);
    assert(bs2[src2] == bs[src]);
    assert(forall|i: int|
        0 <= i < bs2.len() && i != j ==> block_size(#[trigger] bs2[i]) >= 1);
    let (bs3, src3): (Seq<Block>, int) = if j > 0 && is_file_with_id(bs2[j - 1], id) {
        (bs2.update(j - 1, grown_block(bs2[j - 1], size)), src2)
    } else {
        (bs2.insert(j, Block::File { id, size }), src2 + 1)
    };
    if j > 0 && is_file_with_id(bs2[j - 1], id) {
        lemma_block_le_total(bs2, j - 1);
        lemma_total_update(bs2, j - 1, grown_block(bs2[j - 1], size));
    } else {
        lemma_total_insert(bs2, j, Block::File { id, size });
    }
    assert(total_size(bs3) == total_size(bs));
    assert(bs3[src3] == bs[src]);
    assert(forall|i: int|
        0 <= i < bs3.len() && i != j + 1 ==> block_size(#[trigger] bs3[i]) >= 1);
    lemma_total_update(bs3, src3, Block::Free { size });
}

// --- the compactor driver ---

/// The greatest file id present, or -1 when there is none.
pub open spec fn max_file_id(bs: Seq<Block>) -> int
    decreases bs.len(),
{
    if bs.len() == 0 {
        -1
    } else {
        let rest = max_file_id(bs.drop_first());
        match bs[0] {
            Block::File { id, .. } => if id > rest { id as int } else { rest },
            Block::Free { .. } => rest,
        }
    }
}

pub proof fn lemma_max_file_id_bound(bs: Seq<Block>, i: int)
    requires
        0 <= i < bs.len(),
        !is_free_block(bs[i]),
    ensures
        file_id(bs[i]) <= max_file_id(bs),
    decreases bs.len(),
{
    if i > 0 {
        lemma_max_file_id_bound(bs.drop_first(), i - 1);
    }
}

/// A file is eligible for relocation while its id is below the watermark;
/// `None` stands for the initial watermark, one above every id present.
pub open spec fn eligible(b: Block, wm: Option<u64>) -> bool {
    match b {
        Block::File { id, .. } => match wm {
            None => true,
            Some(w) => id < w,
        },
        Block::Free { .. } => false,
    }
}

pub open spec fn wm_measure(bs: Seq<Block>, wm: Option<u64>) -> int {
    match wm {
        None => max_file_id(bs) + 2,
        Some(w) => w + 1,
    }
}

/// One right-to-left pass of the compactor from `cursor` down: free blocks
/// and already-processed files are skipped; an eligible file lowers the
/// watermark to its id and is relocated by the active policy, and the walk
/// resumes just left of its (possibly shifted) slot.  A `UnitMove` file with
/// no free block to its left stops the whole pass.
pub open spec fn spec_compact_from(
    bs: Seq<Block>,
    cursor: int,
    wm: Option<u64>,
    policy: Policy,
) -> Seq<Block>
    decreases wm_measure(bs, wm), cursor,
    via spec_compact_from_decreases
{
    if cursor <= 0 || cursor > bs.len() {
        bs
    } else {
        let c = cursor - 1;
        if eligible(bs[c], wm) {
            let id = file_id(bs[c]);
            match policy {
                Policy::WholeMove => {
                    let next = match first_fit(bs, c, block_size(bs[c]) as u64) {
                        Some(j) => spec_whole_step(bs, j, c),
                        None => (bs, c),
                    };
                    spec_compact_from(next.0, next.1, Some(id), policy)
                },
                Policy::UnitMove => {
                    let moved = spec_unit_moves(bs, c);
                    if moved.2 {
                        moved.0
                    } else {
                        spec_compact_from(moved.0, moved.1, Some(id), policy)
                    }
                },
            }
        } else {
            spec_compact_from(bs, c, wm, policy)
        }
    }
}

#[via_fn]
proof fn spec_compact_from_decreases(bs: Seq<Block>, cursor: int, wm: Option<u64>, policy: Policy) {
    if 0 < cursor <= bs.len() {
        let c = cursor - 1;
        if eligible(bs[c], wm) {
            if wm is None {
                lemma_max_file_id_bound(bs, c);
            }
        }
    }
}

/// The result of one full compaction pass under `policy`.
pub open spec fn spec_compact(bs: Seq<Block>, policy: Policy) -> Seq<Block> {
    spec_compact_from(bs, bs.len() as int, None, policy)
}

// --- the checksum, computed block by block ---

/// What one file block of `size` units starting at absolute position `pos`
/// contributes to the checksum.
pub open spec fn file_contrib(id: u64, size: u64, pos: nat) -> nat
    decreases size,
{
    if size == 0 {
        0
    } else {
        pos * (id as nat) + file_contrib(id, (size - 1) as u64, pos + 1)
    }
}

/// The checksum of the blocks from `i` on, the first of which starts at
/// absolute position `pos`.
pub open spec fn checksum_from(bs: Seq<Block>, i: int, pos: nat) -> nat
    decreases bs.len() - i,
{
    if i < 0 || i >= bs.len() {
        0
    } else {
        match bs[i] {
            Block::File { id, size } => file_contrib(id, size, pos) + checksum_from(
                bs,
                i + 1,
                pos + size as nat,
            ),
            Block::Free { size } => checksum_from(bs, i + 1, pos + size as nat),
        }
    }
}

pub proof fn lemma_weighted_sum_append(a: Seq<Option<u64>>, b: Seq<Option<u64>>, pos: nat)
    ensures
        weighted_sum(a + b, pos) == weighted_sum(a, pos) + weighted_sum(b, (pos + a.len()) as nat),
    decreases a.len(),
{
    if a.len() == 0 {
        assert(a + b =~= b);
    } else {
        assert((a + b)[0] == a[0]);
        assert((a + b).drop_first() =~= a.drop_first() + b);
        lemma_weighted_sum_append(a.drop_first(), b, (pos + 1) as nat);
    }
}

pub proof fn lemma_weighted_sum_file(id: u64, size: u64, pos: nat)
    ensures
        weighted_sum(Seq::new(size as nat, |i: int| Some(id)), pos) == file_contrib(
            id,
            size,
            pos,
        ),
    decreases size,
{
    let s = Seq::new(size as nat, |i: int| Some(id));
    if size > 0 {
        assert(s.drop_first() =~= Seq::new((size - 1) as nat, |i: int| Some(id)));
        lemma_weighted_sum_file(id, (size - 1) as u64, (pos + 1) as nat);
    }
}

pub proof fn lemma_weighted_sum_free(size: u64, pos: nat)
    ensures
        weighted_sum(Seq::new(size as nat, |i: int| None::<u64>), pos) == 0,
    decreases size,
{
    let s = Seq::new(size as nat, |i: int| None::<u64>);
    if size > 0 {
        assert(s.drop_first() =~= Seq::new((size - 1) as nat, |i: int| None::<u64>));
        lemma_weighted_sum_free((size - 1) as u64, (pos + 1) as nat);
    }
}

/// The unit-by-unit checksum equals the block-by-block one.
pub proof fn lemma_checksum_from(bs: Seq<Block>, i: int, pos: nat)
    requires
        0 <= i <= bs.len(),
    ensures
        weighted_sum(units_of(bs.skip(i)), pos) == checksum_from(bs, i, pos),
    decreases bs.len() - i,
{
    if i == bs.len() {
        assert(bs.skip(i) =~= Seq::<Block>::empty());
    } else {
        let tail = bs.skip(i);
        assert(tail[0] == bs[i]);
        assert(tail.drop_first() =~= bs.skip(i + 1));
        lemma_weighted_sum_append(
            expand_block(bs[i]),
            units_of(bs.skip(i + 1)),
            pos,
        );
        match bs[i] {
            Block::File { id, size } => {
                lemma_weighted_sum_file(id, size, pos);
            },
            Block::Free { size } => {
                lemma_weighted_sum_free(size, pos);
            },
        }
        lemma_checksum_from(bs, i + 1, (pos + block_size(bs[i])) as nat);
    }
}

/// The checksum of the whole region, starting at block 0, position 0.
pub proof fn lemma_checksum_is_checksum_from(bs: Seq<Block>)
    ensures
        spec_checksum(bs) == checksum_from(bs, 0, 0),
{
    assert(bs.skip(0) =~= bs);
    lemma_checksum_from(bs, 0, 0);
}

impl FileSystem {
    /// The position-weighted checksum of the layout: every unit is numbered
    /// from position zero, and each occupied unit contributes its position
    /// times its file's id.
    pub fn checksum(&self) -> (r: u64)
        requires
            spec_checksum(self@) <= u64::MAX,
            total_size(self@) <= u64::MAX,
        ensures
            r as nat == spec_checksum(self@),
    {
        proof {
            lemma_checksum_is_checksum_from(self@);
            lemma_total_from(self@, 0);
            assert(self@.skip(0) =~= self@);
        }
        let n = self.0.len();
        let mut acc: u64 = 0;
        let mut pos: u64 = 0;
        let mut i: usize = 0;
        while i < n
            invariant
                n == self@.len(),
                i <= n,
                spec_checksum(self@) == acc + checksum_from(self@, i as int, pos as nat),
                spec_checksum(self@) <= u64::MAX,
                total_size(self@) <= u64::MAX,
                acc <= spec_checksum(self@),
                pos + total_from(self@, i as int) <= total_size(self@),
            decreases n - i,
        {
            match self.0[i] {
                Block::File { id, size } => {
                    let mut k: u64 = 0;
                    while k < size
                        invariant
                            n == self@.len(),
                            i < n,
                            self@[i as int] == (Block::File { id, size }),
                            k <= size,
                            spec_checksum(self@) == acc + file_contrib(
                                id,
                                (size - k) as u64,
                                pos as nat,
                            ) + checksum_from(self@, i as int + 1, (pos + (size - k)) as nat),
                            spec_checksum(self@) <= u64::MAX,
                            total_size(self@) <= u64::MAX,
                            acc <= spec_checksum(self@),
                            pos + (size - k) + total_from(self@, i as int + 1) <= total_size(
                                self@,
                            ),
                        decreases size - k,
                    {
                        acc = acc + pos * id;
                        pos = pos + 1;
                        k = k + 1;
                    }
                },
                Block::Free { size } => {
                    pos = pos + size;
                },
            }
            i = i + 1;
        }
        acc
    }
}

// --- building the initial layout from the dense digit string ---

pub open spec fn is_digit_byte(c: u8) -> bool {
    48 <= c <= 57
}

/// The block described by the digit at (digit-)index `d`: run lengths
/// alternate occupied/free, and each occupied run's id counts the occupied
/// runs before it.
pub open spec fn parsed_block(d: nat, v: u64) -> Block {
    if d % 2 == 0 {
        Block::File { id: (d / 2) as u64, size: v }
    } else {
        Block::Free { size: v }
    }
}

/// The blocks described by the digits of `s` from position `k` on, `d`
/// digits coming before it; zero-length runs are dropped entirely, and
/// non-digit bytes are ignored.
pub open spec fn parse_from(s: Seq<u8>, k: int, d: nat) -> Seq<Block>
    decreases s.len() - k,
{
    if k < 0 || k >= s.len() {
        Seq::empty()
    } else if !is_digit_byte(s[k]) {
        parse_from(s, k + 1, d)
    } else {
        let v = (s[k] - 48) as u64;
        let rest = parse_from(s, k + 1, (d + 1) as nat);
        if v == 0 {
            rest
        } else {
            seq![parsed_block(d, v)] + rest
        }
    }
}

/// The initial block layout of a dense digit string.
pub open spec fn spec_parse(s: Seq<u8>) -> Seq<Block> {
    parse_from(s, 0, 0)
}

/// A parsed layout has no empty blocks, and covers at most nine units per
/// input byte.
pub proof fn lemma_parse_wf(s: Seq<u8>, k: int, d: nat)
    ensures
        wf_blocks(parse_from(s, k, d)),
        total_size(parse_from(s, k, d)) <= 9 * (if k < s.len() { s.len() - k } else { 0 }),
    decreases s.len() - k,
{
    if 0 <= k < s.len() {
        if !is_digit_byte(s[k]) {
            lemma_parse_wf(s, k + 1, d);
        } else {
            lemma_parse_wf(s, k + 1, (d + 1) as nat);
            let v = (s[k] - 48) as u64;
            let rest = parse_from(s, k + 1, (d + 1) as nat);
            if v != 0 {
                let whole = seq![parsed_block(d, v)] + rest;
                assert(whole[0] == parsed_block(d, v));
                assert(whole.drop_first() =~= rest);
                assert(forall|i: int|
                    0 <= i < whole.len() ==> block_size(#[trigger] whole[i]) >= 1) by {
                    assert(forall|i: int|
                        1 <= i < whole.len() ==> whole[i] == rest[i - 1]);
                }
            }
        }
    }
}

impl FileSystem {
    /// Build the initial layout from a dense digit string: each digit is one
    /// run length, runs alternate occupied/free, and zero-length runs are
    /// dropped rather than stored as empty blocks.
    pub fn from_digits(input: &str) -> (fs: FileSystem)
        ensures
            fs@ == spec_parse(input.spec_bytes()),
            wf_blocks(fs@),
            total_size(fs@) <= 9 * input.spec_bytes().len(),
    {
        proof {
            lemma_parse_wf(input.spec_bytes(), 0, 0);
        }
        let s = input.as_bytes();
        let ghost sq = input.spec_bytes();
        let n = s.len();
        let mut blocks: Vec<Block> = Vec::new();
        let mut d: usize = 0;
        let mut i: usize = 0;
        while i < n
            invariant
                sq == input.spec_bytes(),
                s@ == sq,
                n == sq.len(),
                i <= n,
                d <= i,
                spec_parse(sq) == blocks@ + parse_from(sq, i as int, d as nat),
            decreases n - i,
        {
            let c = s[i];
            if 48 <= c && c <= 57 {
                let v = (c - 48) as u64;
                if v != 0 {
                    let b = if d % 2 == 0 {
                        Block::File { id: (d / 2) as u64, size: v }
                    } else {
                        Block::Free { size: v }
                    };
                    blocks.push(b);
                    proof {
                        assert(blocks@ + parse_from(sq, i + 1, (d + 1) as nat) =~= blocks@.drop_last()
                            + (seq![parsed_block(d as nat, v)] + parse_from(
                            sq,
                            i + 1,
                            (d + 1) as nat,
                        )));
                    }
                }
                d = d + 1;
            }
            i = i + 1;
        }
        proof {
            assert(blocks@ + parse_from(sq, n as int, d as nat) =~= blocks@);
        }
        FileSystem(blocks)
    }
}

/// The unit total of the blocks from `i` on.
pub open spec fn total_from(bs: Seq<Block>, i: int) -> nat
    decreases bs.len() - i,
{
    if i < 0 || i >= bs.len() {
        0
    } else {
        block_size(bs[i]) + total_from(bs, i + 1)
    }
}

pub proof fn lemma_total_from(bs: Seq<Block>, i: int)
    requires
        0 <= i <= bs.len(),
    ensures
        total_from(bs, i) == total_size(bs.skip(i)),
    decreases bs.len() - i,
{
    if i == bs.len() {
        assert(bs.skip(i) =~= Seq::<Block>::empty());
    } else {
        assert(bs.skip(i)[0] == bs[i]);
        assert(bs.skip(i).drop_first() =~= bs.skip(i + 1));
        lemma_total_from(bs, i + 1);
    }
}

// --- stability of occupied blocks (ids and sizes) ---

pub open spec fn pairs_of(b: Block) -> Multiset<(u64, u64)> {
    match b {
        Block::File { id, size } => Multiset::empty().insert((id, size)),
        Block::Free { .. } => Multiset::empty(),
    }
}

/// The multiset of (id, size) pairs of the occupied blocks.
pub open spec fn occ_pairs(bs: Seq<Block>) -> Multiset<(u64, u64)>
    decreases bs.len(),
{
    if bs.len() == 0 {
        Multiset::empty()
    } else {
        pairs_of(bs[0]).add(occ_pairs(bs.drop_first()))
    }
}

pub open spec fn ids_of(b: Block) -> Multiset<u64> {
    match b {
        Block::File { id, .. } => Multiset::empty().insert(id),
        Block::Free { .. } => Multiset::empty(),
    }
}

/// The multiset of ids of the occupied blocks.
pub open spec fn occ_ids(bs: Seq<Block>) -> Multiset<u64>
    decreases bs.len(),
{
    if bs.len() == 0 {
        Multiset::empty()
    } else {
        ids_of(bs[0]).add(occ_ids(bs.drop_first()))
    }
}

/// No id occupies two distinct blocks.
pub open spec fn unique_file_ids(bs: Seq<Block>) -> bool {
    forall|id: u64| occ_ids(bs).count(id) <= 1
}

pub proof fn lemma_occ_update(bs: Seq<Block>, i: int, b: Block)
    requires
        0 <= i < bs.len(),
    ensures
        occ_pairs(bs.update(i, b)).add(pairs_of(bs[i])) =~= occ_pairs(bs).add(pairs_of(b)),
        occ_ids(bs.update(i, b)).add(ids_of(bs[i])) =~= occ_ids(bs).add(ids_of(b)),
    decreases bs.len(),
{
    if i == 0 {
        assert(bs.update(0, b).drop_first() =~= bs.drop_first());
        assert(bs.update(0, b)[0] == b);
        assert forall|p: (u64, u64)|
            occ_pairs(bs.update(i, b)).add(pairs_of(bs[i])).count(p) == occ_pairs(bs).add(
                pairs_of(b),
            ).count(p) by {
            assert(occ_pairs(bs.update(0, b)).count(p) == pairs_of(b).count(p) + occ_pairs(
                bs.drop_first(),
            ).count(p));
            assert(occ_pairs(bs).count(p) == pairs_of(bs[0]).count(p) + occ_pairs(
                bs.drop_first(),
            ).count(p));
        }
        assert forall|v: u64|
            occ_ids(bs.update(i, b)).add(ids_of(bs[i])).count(v) == occ_ids(bs).add(
                ids_of(b),
            ).count(v) by {
            assert(occ_ids(bs.update(0, b)).count(v) == ids_of(b).count(v) + occ_ids(
                bs.drop_first(),
            ).count(v));
            assert(occ_ids(bs).count(v) == ids_of(bs[0]).count(v) + occ_ids(
                bs.drop_first(),
            ).count(v));
        }
    } else {
        assert(bs.update(i, b).drop_first() =~= bs.drop_first().update(i - 1, b));
        lemma_occ_update(bs.drop_first(), i - 1, b);
        assert(bs.update(i, b)[0] == bs[0]);
        assert(bs.drop_first()[i - 1] == bs[i]);
        assert forall|p: (u64, u64)|
            occ_pairs(bs.update(i, b)).add(pairs_of(bs[i])).count(p) == occ_pairs(bs).add(
                pairs_of(b),
            ).count(p) by {
            assert(occ_pairs(bs.update(i, b)).count(p) == pairs_of(bs[0]).count(p) + occ_pairs(
                bs.drop_first().update(i - 1, b),
            ).count(p));
            assert(occ_pairs(bs).count(p) == pairs_of(bs[0]).count(p) + occ_pairs(
                bs.drop_first(),
            ).count(p));
            assert(occ_pairs(bs.drop_first().update(i - 1, b)).add(
                pairs_of(bs.drop_first()[i - 1]),
            ).count(p) == occ_pairs(bs.drop_first()).add(pairs_of(b)).count(p));
        }
        assert forall|v: u64|
            occ_ids(bs.update(i, b)).add(ids_of(bs[i])).count(v) == occ_ids(bs).add(
                ids_of(b),
            ).count(v) by {
            assert(occ_ids(bs.update(i, b)).count(v) == ids_of(bs[0]).count(v) + occ_ids(
                bs.drop_first().update(i - 1, b),
            ).count(v));
            assert(occ_ids(bs).count(v) == ids_of(bs[0]).count(v) + occ_ids(
                bs.drop_first(),
            ).count(v));
            assert(occ_ids(bs.drop_first().update(i - 1, b)).add(
                ids_of(bs.drop_first()[i - 1]),
            ).count(v) == occ_ids(bs.drop_first()).add(ids_of(b)).count(v));
        }
    }
}

pub proof fn lemma_occ_insert(bs: Seq<Block>, i: int, b: Block)
    requires
        0 <= i <= bs.len(),
    ensures
        occ_pairs(bs.insert(i, b)) =~= occ_pairs(bs).add(pairs_of(b)),
        occ_ids(bs.insert(i, b)) =~= occ_ids(bs).add(ids_of(b)),
    decreases bs.len(),
{
    if i == 0 {
        assert(bs.insert(0, b).drop_first() =~= bs);
        assert(bs.insert(0, b)[0] == b);
    } else {
        assert(bs.insert(i, b).drop_first() =~= bs.drop_first().insert(i - 1, b));
        assert(bs.insert(i, b)[0] == bs[0]);
        lemma_occ_insert(bs.drop_first(), i - 1, b);
    }
}

pub proof fn lemma_occ_remove(bs: Seq<Block>, i: int)
    requires
        0 <= i < bs.len(),
    ensures
        occ_pairs(bs.remove(i)).add(pairs_of(bs[i])) =~= occ_pairs(bs),
        occ_ids(bs.remove(i)).add(ids_of(bs[i])) =~= occ_ids(bs),
    decreases bs.len(),
{
    if i == 0 {
        assert(bs.remove(0) =~= bs.drop_first());
    } else {
        assert(bs.remove(i).drop_first() =~= bs.drop_first().remove(i - 1));
        assert(bs.remove(i)[0] == bs[0]);
        lemma_occ_remove(bs.drop_first(), i - 1);
    }
}

/// An occupied block's id is counted at least once.
pub proof fn lemma_one_file_count(bs: Seq<Block>, i: int)
    requires
        0 <= i < bs.len(),
        !is_free_block(bs[i]),
    ensures
        occ_ids(bs).count(file_id(bs[i])) >= 1,
    decreases bs.len(),
{
    if i > 0 {
        lemma_one_file_count(bs.drop_first(), i - 1);
    }
}

/// Two distinct occupied blocks with the same id are counted at least twice.
pub proof fn lemma_two_files_count(bs: Seq<Block>, i: int, j: int)
    requires
        0 <= i < j < bs.len(),
        !is_free_block(bs[i]),
        !is_free_block(bs[j]),
        file_id(bs[i]) == file_id(bs[j]),
    ensures
        occ_ids(bs).count(file_id(bs[i])) >= 2,
    decreases bs.len(),
{
    if i == 0 {
        lemma_one_file_count(bs.drop_first(), j - 1);
    } else {
        lemma_two_files_count(bs.drop_first(), i - 1, j - 1);
    }
}

/// A whole-block move neither splits a file nor changes any (id, size)
/// pair: the moved block reappears with the same id and size, and ids stay
/// unique.
pub proof fn lemma_whole_step_stable(bs: Seq<Block>, j: int, src: int)
    requires
        wf_blocks(bs),
        total_size(bs) <= u64::MAX,
        unique_file_ids(bs),
        0 <= j < src < bs.len(),
        is_free_block(bs[j]),
        !is_free_block(bs[src]),
        block_size(bs[j]) >= block_size(bs[src]),
    ensures
        occ_pairs(spec_whole_step(bs, j, src).0) =~= occ_pairs(bs),
        unique_file_ids(spec_whole_step(bs, j, src).0),
{
    let id = file_id(bs[src]);
    let size = block_size(bs[src]) as u64;
    let cap = block_size(bs[j]);
    let bs1 = bs.update(j, Block::Free { size: (cap - size) as u64 });
    lemma_occ_update(bs, j, Block::Free { size: (cap - size) as u64 });
    let (bs2, src2): (Seq<Block>, int) = if cap == size as nat {
        (bs1.remove(j), src - 1)
    } else {
        (bs1, src)
    };
    if cap == size as nat {
        lemma_occ_remove(bs1, j);
    }
    let nf = Block::Free { size: (cap - size) as u64 };
    assert forall|p: (u64, u64)| occ_pairs(bs2).count(p) == occ_pairs(bs).count(p) by {
        assert(occ_pairs(bs1).add(pairs_of(bs[j])).count(p) == occ_pairs(bs).add(
            pairs_of(nf),
        ).count(p));
        if cap == size as nat {
            assert(occ_pairs(bs2).add(pairs_of(bs1[j])).count(p) == occ_pairs(bs1).count(p));
        }
    }
    assert forall|v: u64| occ_ids(bs2).count(v) == occ_ids(bs).count(v) by {
        assert(occ_ids(bs1).add(ids_of(bs[j])).count(v) == occ_ids(bs).add(ids_of(nf)).count(v));
        if cap == size as nat {
            assert(occ_ids(bs2).add(ids_of(bs1[j])).count(v) == occ_ids(bs1).count(v));
        }
    }
    assert(bs2[src2] == bs[src]);
    // a same-id neighbour of the target would be a second block with the
    // moved file's id, which uniqueness rules out
    if j > 0 && is_file_with_id(bs2[j - 1], id) {
        assert(bs2[j - 1] == bs[j - 1]);
        lemma_two_files_count(bs, j - 1, src);
        assert(false);
    }
    let bs3 = bs2.insert(j, Block::File { id, size });
    let src3 = src2 + 1;
    lemma_occ_insert(bs2, j, Block::File { id, size });
    assert(bs3[src3] == bs[src]);
    lemma_occ_update(bs3, src3, Block::Free { size });
    let fin = bs3.update(src3, Block::Free { size });
    assert(bs[src] == (Block::File { id, size }));
    assert forall|p: (u64, u64)| occ_pairs(fin).count(p) == occ_pairs(bs).count(p) by {
        assert(occ_pairs(bs3).count(p) == occ_pairs(bs2).add(
            pairs_of(Block::File { id, size }),
        ).count(p));
        assert(occ_pairs(fin).add(pairs_of(bs3[src3])).count(p) == occ_pairs(bs3).add(
            pairs_of(Block::Free { size }),
        ).count(p));
    }
    assert forall|v: u64| occ_ids(fin).count(v) == occ_ids(bs).count(v) by {
        assert(occ_ids(bs3).count(v) == occ_ids(bs2).add(
            ids_of(Block::File { id, size }),
        ).count(v));
        assert(occ_ids(fin).add(ids_of(bs3[src3])).count(v) == occ_ids(bs3).add(
            ids_of(Block::Free { size }),
        ).count(v));
    }
    assert(occ_pairs(fin) =~= occ_pairs(bs));
    assert(occ_ids(fin) =~= occ_ids(bs));
}

/// In a well-formed store the block count is bounded by the unit total.
pub proof fn lemma_len_le_total(bs: Seq<Block>)
    requires
        wf_blocks(bs),
    ensures
        bs.len() <= total_size(bs),
    decreases bs.len(),
{
    if bs.len() > 0 {
        assert(wf_blocks(bs.drop_first())) by {
            assert(forall|i: int|
                0 <= i < bs.drop_first().len() ==> #[trigger] bs.drop_first()[i] == bs[i + 1]);
        }
        lemma_len_le_total(bs.drop_first());
    }
}

// --- the two public entry points ---

/// Machine limits under which a compaction pass and its checksum fit the
/// fixed-width integer types.
pub open spec fn fits_in_machine(bs: Seq<Block>, policy: Policy) -> bool {
    &&& total_size(bs) <= u64::MAX
    &&& total_size(bs) + 2 <= usize::MAX
    &&& spec_checksum(spec_compact(bs, policy)) <= u64::MAX
}

/// Compact the layout of the dense digit string unit by unit and return the
/// position-weighted checksum of the result.
pub fn part_one(input: &str) -> (r: Option<u64>)
    requires
        fits_in_machine(spec_parse(input.spec_bytes()), Policy::UnitMove),
    ensures
        r == Some(
            (spec_checksum(spec_compact(spec_parse(input.spec_bytes()), Policy::UnitMove)) as u64),
        ),
{
    let mut fs = FileSystem::from_digits(input);
    fs.solve(Policy::UnitMove);
    Some(fs.checksum())
}

/// Compact the layout of the dense digit string whole block by whole block
/// and return the position-weighted checksum of the result.
pub fn part_two(input: &str) -> (r: Option<u64>)
    requires
        fits_in_machine(spec_parse(input.spec_bytes()), Policy::WholeMove),
    ensures
        r == Some(
            (spec_checksum(spec_compact(spec_parse(input.spec_bytes()), Policy::WholeMove)) as u64),
        ),
{
    let mut fs = FileSystem::from_digits(input);
    fs.solve(Policy::WholeMove);
    Some(fs.checksum())
}

} // verus!
