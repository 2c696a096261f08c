//! The work of the terrain generator: it fills the voxel tree, makes blocks
//! of it, and keeps them until an edit outdates them.

use crate::block_cache::BlockCache;
use crate::block_position;
use crate::bounds;
use crate::brush;
use crate::error::Error;
use crate::geometry::Point3;
use crate::lod::LODIndex;
use crate::protocol::{LoadReason, ServerToGaia};
use crate::server_update::{requested, Action, GaiaToServer};
use crate::terrain;
use crate::terrain_block;
use vstd::prelude::*;

verus! {

/// Whether the block at `position` was made of `voxels`: they list what
/// `held` holds for the cubes that the block is sampled at, and `mesh`
/// made `block` of them.
pub open spec fn meshed<V, B, M: FnOnce(&Vec<(bounds::T, V)>) -> B>(
    mesh: M,
    position: Point3<i32>,
    lod: LODIndex,
    held: Map<bounds::T, V>,
    block: B,
) -> bool {
    exists|voxels: Vec<(bounds::T, V)>|
        terrain::lists(position, lod, held, voxels@) && #[trigger] call_ensures(
            mesh,
            (&voxels,),
            block,
        )
}

/// Serves one request to the terrain generator.
///
/// The voxels of the block are taken from the tree or sampled into it,
/// `mesh` makes the block of them, and the block is kept in place of an
/// older one. The answer names the request that it completes. For a block
/// outside the world nothing is sampled, made or kept.
pub fn apply_server_to_gaia<V, S, B, M>(
    up: ServerToGaia,
    terrain: &mut terrain::T<V, S>,
    blocks: &mut BlockCache<B>,
    mesh: M,
) -> (r: Result<GaiaToServer, Error>) where
    V: Copy,
    S: Fn(&bounds::T) -> V,
    M: FnOnce(&Vec<(bounds::T, V)>) -> B,

    requires
        old(terrain).well_formed(),
        forall|voxels: Vec<(bounds::T, V)>| call_requires(mesh, (&voxels,)),
    ensures
        final(terrain).well_formed(),
        final(terrain).mosaic == old(terrain).mosaic,
        final(terrain).lg_extent == old(terrain).lg_extent,
        match (up, r) {
            (ServerToGaia::Load(position, lod, reason), Ok(done)) => {
                &&& done == GaiaToServer::Loaded(position, lod, reason)
                &&& old(terrain).holds_block(position@, lod)
                &&& terrain::assembled(
                    old(terrain).mosaic,
                    position@,
                    lod,
                    old(terrain).voxels@,
                    final(terrain).voxels@,
                )
                &&& terrain::accessed(position@, lod, old(terrain).voxels, final(terrain).voxels)
                &&& final(blocks)@.contains_key((position@, lod))
                &&& final(blocks)@ == old(blocks)@.insert(
                    (position@, lod),
                    final(blocks)@[(position@, lod)],
                )
                &&& meshed(
                    mesh,
                    position@,
                    lod,
                    final(terrain).voxels@,
                    final(blocks)@[(position@, lod)],
                )
            },
            (ServerToGaia::Load(position, lod, _), Err(e)) => {
                &&& e == Error::OutOfRange
                &&& !old(terrain).holds_block(position@, lod)
                &&& final(terrain).voxels == old(terrain).voxels
                &&& *final(blocks) == *old(blocks)
            },
        },
{
    match up {
        ServerToGaia::Load(position, lod, reason) => {
            match terrain.assemble(&position, lod) {
                Err(e) => Err(e),
                Ok(voxels) => {
                    let block = mesh(&voxels);
                    blocks.insert(&position, lod, block);
                    proof {
                        assert(blocks@ =~= old(blocks)@.insert(
                            (position@, lod),
                            blocks@[(position@, lod)],
                        ));
                    }
                    Ok(GaiaToServer::Loaded(position, lod, reason))
                },
            }
        },
    }
}

/// Whether the brush outdates the blocks at `position`: it touches a cube
/// inside the block, or one too large to lie inside any block.
pub open spec fn outdated<E>(brush: brush::T<E>, position: Point3<i32>) -> bool {
    exists|c: bounds::T| #[trigger]
        brush.touches(c) && (c.lg_size > terrain_block::LG_WIDTH || c.within(
            terrain_block::footprint(position),
        ))
}

/// Whether `after` are the kept blocks `before` without those that the
/// brush outdates.
pub open spec fn dropped<B, E>(
    brush: brush::T<E>,
    before: Map<(Point3<i32>, LODIndex), B>,
    after: Map<(Point3<i32>, LODIndex), B>,
) -> bool {
    forall|k: (Point3<i32>, LODIndex)|
        after.get(k) == if outdated(brush, k.0) {
            None
        } else {
            before.get(k)
        }
}

/// A block that is asked for after a brush touched a cube inside it is
/// generated anew: the block that was kept before the brush is never sent.
pub proof fn lemma_request_after_brush<W, R, B, E>(
    brush: brush::T<E>,
    before: Map<(Point3<i32>, LODIndex), B>,
    after: Map<(Point3<i32>, LODIndex), B>,
    lg_extent: i16,
    position: block_position::T,
    lod: LODIndex,
    touched: bounds::T,
)
    requires
        dropped(brush, before, after),
        brush.touches(touched),
        touched.within(terrain_block::footprint(position@)),
        !terrain::out_of_range(lg_extent, position@, lod),
    ensures
        requested::<W, R, B>(after, lg_extent, position, lod) == Action::<W, R>::Generate(
            ServerToGaia::Load(position, lod, LoadReason::ForClient),
        ),
{
    assert(outdated(brush, position@));
    assert(after.get((position@, lod)) is None);
}

/// Applies a brush to the terrain and drops the blocks that it outdates,
/// so that they are made anew, of the edited voxels, when next asked for.
/// Returns the touched cubes.
pub fn apply_brush<V, S, B, E>(
    terrain: &mut terrain::T<V, S>,
    blocks: &mut BlockCache<B>,
    brush: &brush::T<E>,
) -> (changed: Vec<bounds::T>) where S: Fn(&bounds::T) -> V, E: Fn(&V) -> V
    requires
        old(terrain).well_formed(),
        forall|v: V| call_requires(brush.edit, (&v,)),
    ensures
        final(terrain).well_formed(),
        final(terrain).mosaic == old(terrain).mosaic,
        final(terrain).lg_extent == old(terrain).lg_extent,
        brush::brushed(*brush, old(terrain).mosaic, old(terrain).voxels@, final(terrain).voxels@),
        brush::reports(*brush, changed@),
        brush::accessed(*brush, old(terrain).voxels, final(terrain).voxels),
        dropped(*brush, old(blocks)@, final(blocks)@),
{
    let changed = terrain.brush(brush);
    if brush.lg_size > terrain_block::LG_WIDTH {
        if changed.len() > 0 {
            blocks.clear();
            proof {
                assert(brush.touches(changed@[0]));
            }
        } else {
            assert forall|k: (Point3<i32>, LODIndex)| !outdated(*brush, k.0) by {
                if outdated(*brush, k.0) {
                    let c = choose|c: bounds::T| #[trigger]
                        brush.touches(c) && (c.lg_size > terrain_block::LG_WIDTH || c.within(
                            terrain_block::footprint(k.0),
                        ));
                    assert(changed@.contains(c));
                }
            }
        }
        return changed;
    }
    let mut i: usize = 0;
    while i < changed.len()
        invariant
            i <= changed.len(),
            brush.lg_size <= terrain_block::LG_WIDTH,
            brush::reports(*brush, changed@),
            forall|k: (Point3<i32>, LODIndex)|
                blocks@.get(k) == if exists|j: int|
                    0 <= j < i && (#[trigger] changed@[j]).within(terrain_block::footprint(k.0)) {
                    None
                } else {
                    old(blocks)@.get(k)
                },
        decreases changed.len() - i,
    {
        let ghost before = blocks@;
        let position = block_position::containing_voxel(&changed[i]);
        blocks.forget(&position);
        proof {
            let c = changed@[i as int];
            assert forall|k: (Point3<i32>, LODIndex)|
                blocks@.get(k) == if exists|j: int|
                    0 <= j < i + 1 && (#[trigger] changed@[j]).within(
                        terrain_block::footprint(k.0),
                    ) {
                    None
                } else {
                    old(blocks)@.get(k)
                } by {
                if c.within(terrain_block::footprint(k.0)) {
                    assert(k.0 == position@);
                } else {
                    assert(k.0 != position@);
                    if exists|j: int|
                        0 <= j < i + 1 && (#[trigger] changed@[j]).within(
                            terrain_block::footprint(k.0),
                        ) {
                        let j = choose|j: int|
                            0 <= j < i + 1 && (#[trigger] changed@[j]).within(
                                terrain_block::footprint(k.0),
                            );
                        assert(j < i);
                    }
                }
            }
        }
        i = i + 1;
    }
    proof {
        assert forall|k: (Point3<i32>, LODIndex)|
            outdated(*brush, k.0) == exists|j: int|
                0 <= j < changed.len() && (#[trigger] changed@[j]).within(
                    terrain_block::footprint(k.0),
                ) by {
            if outdated(*brush, k.0) {
                let c = choose|c: bounds::T| #[trigger]
                    brush.touches(c) && (c.lg_size > terrain_block::LG_WIDTH || c.within(
                        terrain_block::footprint(k.0),
                    ));
                assert(changed@.contains(c));
                let j = choose|j: int| 0 <= j < changed@.len() && changed@[j] == c;
                assert(changed@[j].within(terrain_block::footprint(k.0)));
            }
            if exists|j: int|
                0 <= j < changed.len() && (#[trigger] changed@[j]).within(
                    terrain_block::footprint(k.0),
                ) {
                let j = choose|j: int|
                    0 <= j < changed.len() && (#[trigger] changed@[j]).within(
                        terrain_block::footprint(k.0),
                    );
                assert(brush.touches(changed@[j]));
            }
        }
    }
    changed
}

} // verus!
