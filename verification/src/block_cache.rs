//! The finished blocks of terrain, kept per position and level of detail.

use crate::block_position;
use crate::geometry::Point3;
use crate::lod::{LODIndex, LOD_COUNT};
use std::collections::HashMap;
use vstd::prelude::*;

verus! {

broadcast use vstd::std_specs::hash::group_hash_axioms;

/// The number under which the block at `position` and `lod` is kept:
/// the coordinates, each moved into `0..2^32`, and the level as the digits
/// of one number.
pub closed spec fn slot_of(position: Point3<i32>, lod: LODIndex) -> int {
    (((position.x + 0x8000_0000) * 0x1_0000_0000 + (position.y + 0x8000_0000)) * 0x1_0000_0000 + (
    position.z + 0x8000_0000)) * 4 + lod.0
}

/// Blocks with different positions or levels are kept under different
/// numbers.
proof fn lemma_slot_fixes_key(p: Point3<i32>, l: LODIndex, q: Point3<i32>, m: LODIndex)
    requires
        l.valid(),
        m.valid(),
        slot_of(p, l) == slot_of(q, m),
    ensures
        p == q,
        l == m,
{
}

fn slot(position: &Point3<i32>, lod: LODIndex) -> (r: u128)
    requires
        lod.valid(),
    ensures
        r == slot_of(*position, lod),
{
    let x: u128 = (position.x as i64 + 0x8000_0000) as u128;
    let y: u128 = (position.y as i64 + 0x8000_0000) as u128;
    let z: u128 = (position.z as i64 + 0x8000_0000) as u128;
    ((x * 0x1_0000_0000 + y) * 0x1_0000_0000 + z) * 4 + lod.0 as u128
}

/// The blocks that were generated and are still current.
///
/// A block is kept for one position and one level of detail; blocks of
/// one position at different levels know nothing of each other.
pub struct BlockCache<B> {
    blocks: HashMap<u128, B>,
}

impl<B> View for BlockCache<B> {
    type V = Map<(Point3<i32>, LODIndex), B>;

    /// The kept blocks, each under its position and level of detail.
    closed spec fn view(&self) -> Map<(Point3<i32>, LODIndex), B> {
        Map::new(
            |k: (Point3<i32>, LODIndex)|
                k.1.valid() && self.blocks@.contains_key(slot_of(k.0, k.1) as u128),
            |k: (Point3<i32>, LODIndex)| self.blocks@[slot_of(k.0, k.1) as u128],
        )
    }
}

impl<B> BlockCache<B> {
    /// Blocks are kept at levels of detail only.
    pub proof fn lemma_kept_levels(&self, key: (Point3<i32>, LODIndex))
        requires
            self@.contains_key(key),
        ensures
            key.1.valid(),
    {
    }

    /// A cache without blocks.
    pub fn new() -> (cache: Self)
        ensures
            cache@ == Map::<(Point3<i32>, LODIndex), B>::empty(),
    {
        let cache = BlockCache { blocks: HashMap::new() };
        assert(cache@ =~= Map::<(Point3<i32>, LODIndex), B>::empty());
        cache
    }

    /// The block kept for `position` at `lod`, if there is one.
    pub fn get(&self, position: &block_position::T, lod: LODIndex) -> (r: Option<&B>)
        ensures
            match r {
                Some(block) => self@.get((position@, lod)) == Some(*block),
                None => self@.get((position@, lod)) is None,
            },
    {
        if !lod.is_valid() {
            return None;
        }
        let k = slot(position.as_pnt(), lod);
        self.blocks.get(&k)
    }

    /// Whether a block is kept for `position` at `lod`.
    pub fn contains(&self, position: &block_position::T, lod: LODIndex) -> (r: bool)
        ensures
            r == self@.contains_key((position@, lod)),
    {
        if !lod.is_valid() {
            return false;
        }
        let k = slot(position.as_pnt(), lod);
        self.blocks.contains_key(&k)
    }

    /// Keeps `block` for `position` at `lod`, in place of the block that
    /// was kept for them.
    pub fn insert(&mut self, position: &block_position::T, lod: LODIndex, block: B)
        requires
            lod.valid(),
        ensures
            final(self)@ == old(self)@.insert((position@, lod), block),
    {
        let k = slot(position.as_pnt(), lod);
        self.blocks.insert(k, block);
        proof {
            assert forall|q: (Point3<i32>, LODIndex)|
                q.1.valid() && q != (position@, lod) implies slot_of(q.0, q.1) != slot_of(
                position@,
                lod,
            ) by {
                if slot_of(q.0, q.1) == slot_of(position@, lod) {
                    lemma_slot_fixes_key(q.0, q.1, position@, lod);
                }
            }
            assert(self@ =~= old(self)@.insert((position@, lod), block));
        }
    }

    /// Drops every block.
    pub fn clear(&mut self)
        ensures
            final(self)@ == Map::<(Point3<i32>, LODIndex), B>::empty(),
    {
        self.blocks.clear();
        assert(self@ =~= Map::<(Point3<i32>, LODIndex), B>::empty());
    }

    /// Drops the blocks kept for `position`, at every level of detail.
    pub fn forget(&mut self, position: &block_position::T)
        ensures
            forall|k: (Point3<i32>, LODIndex)|
                final(self)@.get(k) == if k.0 == position@ {
                    None
                } else {
                    old(self)@.get(k)
                },
    {
        let mut level: u32 = 0;
        while level < LOD_COUNT
            invariant
                level <= LOD_COUNT,
                forall|k: (Point3<i32>, LODIndex)|
                    self@.get(k) == if k.0 == position@ && k.1.0 < level {
                        None
                    } else {
                        old(self)@.get(k)
                    },
            decreases LOD_COUNT - level,
        {
            let ghost before = self@;
            let lod = LODIndex(level);
            let k = slot(position.as_pnt(), lod);
            self.blocks.remove(&k);
            proof {
                assert forall|q: (Point3<i32>, LODIndex)| self@.get(q) == if q == (position@, lod) {
                    None
                } else {
                    before.get(q)
                } by {
                    if q.1.valid() && slot_of(q.0, q.1) == slot_of(position@, lod) {
                        lemma_slot_fixes_key(q.0, q.1, position@, lod);
                    }
                }
            }
            level = level + 1;
        }
    }
}

} // verus!
