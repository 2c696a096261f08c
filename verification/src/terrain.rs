//! The world's terrain: a voxel tree that is filled from a field sampler on
//! demand.

use crate::block_position;
use crate::bounds;
use crate::brush;
use crate::error::Error;
use crate::geometry::Point3;
use crate::lod::LODIndex;
use crate::terrain_block;
use crate::tree;
use vstd::prelude::*;

verus! {

/// This struct contains and lazily generates the world's terrain.
///
/// `mosaic` is the field sampler: it gives the voxel of any cube, and is
/// only ever asked for a cube that the tree holds no voxel for.
pub struct T<V, S> {
    pub mosaic: S,
    pub voxels: tree::T<V>,
    /// The world spans `[-2^lg_extent, 2^lg_extent)` along each axis.
    pub lg_extent: i16,
}

/// Whether `after` holds for `b` the voxel that `before` held for it or,
/// where `before` held none, one that `mosaic` gives for `b`.
pub open spec fn settled<V, S: Fn(&bounds::T) -> V>(
    mosaic: S,
    before: Map<bounds::T, V>,
    after: Map<bounds::T, V>,
    b: bounds::T,
) -> bool {
    &&& after.contains_key(b)
    &&& match before.get(b) {
        Some(v) => after[b] == v,
        None => call_ensures(mosaic, (&b,), after[b]),
    }
}

/// Whether `b` is one of the cubes that a block at `position` is sampled
/// at for the level of detail `lod`: a cube of the level's sample size
/// inside the block.
pub open spec fn sampled(position: Point3<i32>, lod: LODIndex, b: bounds::T) -> bool {
    &&& b.lg_size == terrain_block::lg_sample_size(lod)
    &&& b.within(terrain_block::footprint(position))
}

/// The cubes that a block is sampled at fill, along each axis, as many
/// places as the block has samples, from the block's own place on.
pub proof fn lemma_sampled_range(position: Point3<i32>, lod: LODIndex, b: bounds::T)
    requires
        lod.valid(),
        b.lg_size == terrain_block::lg_sample_size(lod),
    ensures
        sampled(position, lod, b) == {
            &&& position.x * terrain_block::edge_samples(lod) <= b.x < (position.x + 1)
                * terrain_block::edge_samples(lod)
            &&& position.y * terrain_block::edge_samples(lod) <= b.y < (position.y + 1)
                * terrain_block::edge_samples(lod)
            &&& position.z * terrain_block::edge_samples(lod) <= b.z < (position.z + 1)
                * terrain_block::edge_samples(lod)
        },
{
    vstd::arithmetic::power2::lemma2_to64();
    let k = terrain_block::lg_edge_samples(lod) as nat;
    assert(vstd::arithmetic::power2::pow2(k) == terrain_block::edge_samples(lod));
    assert(terrain_block::LG_WIDTH - b.lg_size == k);
    crate::scale::lemma_shifted_range(b.x as int, k, position.x as int);
    crate::scale::lemma_shifted_range(b.y as int, k, position.y as int);
    crate::scale::lemma_shifted_range(b.z as int, k, position.z as int);
}

/// Whether the cubes that a block at `position` is sampled at for the
/// level of detail `lod` can be addressed and listed: the box of cubes
/// has corners with 32-bit coordinates.
pub open spec fn addressable(position: Point3<i32>, lod: LODIndex) -> bool {
    &&& i32::MIN <= position.x * terrain_block::edge_samples(lod)
    &&& i32::MIN <= position.y * terrain_block::edge_samples(lod)
    &&& i32::MIN <= position.z * terrain_block::edge_samples(lod)
    &&& (position.x + 1) * terrain_block::edge_samples(lod) <= i32::MAX
    &&& (position.y + 1) * terrain_block::edge_samples(lod) <= i32::MAX
    &&& (position.z + 1) * terrain_block::edge_samples(lod) <= i32::MAX
}

/// Computes [`addressable`].
pub fn is_addressable(position: &Point3<i32>, lod: LODIndex) -> (r: bool)
    requires
        lod.valid(),
    ensures
        r == addressable(*position, lod),
{
    let n: i64 = terrain_block::edge_samples_of(lod) as i64;
    let low: i64 = i32::MIN as i64;
    let high: i64 = i32::MAX as i64;
    assert(1 <= n <= 32);
    assert(position.x * n == position.x * terrain_block::edge_samples(lod));
    low <= position.x as i64 * n && low <= position.y as i64 * n && low <= position.z as i64 * n
        && (position.x as i64 + 1) * n <= high && (position.y as i64 + 1) * n <= high && (
    position.z as i64 + 1) * n <= high
}

/// Whether the block at `position` lies in a world that spans
/// `[-2^lg_extent, 2^lg_extent)` along each axis.
pub open spec fn block_in_world(lg_extent: i16, position: Point3<i32>) -> bool {
    terrain_block::footprint(position).near_origin(lg_extent as int)
}

/// Computes [`block_in_world`].
pub fn is_block_in_world(lg_extent: i16, position: &Point3<i32>) -> (r: bool)
    ensures
        r == block_in_world(lg_extent, *position),
{
    let footprint = bounds::T::new(position.x, position.y, position.z, terrain_block::LG_WIDTH);
    footprint.is_near_origin(lg_extent as i32)
}

/// Whether a request for the block at `position` and `lod` is out of
/// range: the block lies outside the world, or the cubes that it is
/// sampled at for this level of detail have no addresses. A level that is
/// none puts no request out of range.
pub open spec fn out_of_range(lg_extent: i16, position: Point3<i32>, lod: LODIndex) -> bool {
    ||| !block_in_world(lg_extent, position)
    ||| lod.valid() && !addressable(position, lod)
}

/// Computes [`out_of_range`].
pub fn is_out_of_range(lg_extent: i16, position: &Point3<i32>, lod: LODIndex) -> (r: bool)
    ensures
        r == out_of_range(lg_extent, *position, lod),
{
    !is_block_in_world(lg_extent, position) || (lod.is_valid() && !is_addressable(position, lod))
}

/// Whether the block at `position` can be sampled at `lod`: `lod` is a
/// level of detail, and a request for the block at this level is in range.
pub open spec fn samplable(lg_extent: i16, position: Point3<i32>, lod: LODIndex) -> bool {
    lod.valid() && !out_of_range(lg_extent, position, lod)
}

/// Computes [`samplable`].
pub fn is_samplable(lg_extent: i16, position: &Point3<i32>, lod: LODIndex) -> (r: bool)
    ensures
        r == samplable(lg_extent, *position, lod),
{
    lod.is_valid() && !is_out_of_range(lg_extent, position, lod)
}

impl<V, S: Fn(&bounds::T) -> V> T<V, S> {
    /// What every terrain satisfies: its tree is well formed and its
    /// sampler gives a voxel for every cube.
    pub open spec fn well_formed(&self) -> bool {
        &&& self.voxels.well_formed()
        &&& forall|b: bounds::T| call_requires(self.mosaic, (&b,))
    }

    /// Whether the cube `b` lies in the world.
    pub open spec fn holds(&self, b: bounds::T) -> bool {
        b.near_origin(self.lg_extent as int)
    }

    /// Whether the block at `position` lies in the world and can be
    /// sampled at `lod`.
    pub open spec fn holds_block(&self, position: Point3<i32>, lod: LODIndex) -> bool {
        samplable(self.lg_extent, position, lod)
    }

    /// Terrain without voxels, to be sampled from `mosaic`, in a world of
    /// half-width `2^lg_extent`.
    pub fn new(mosaic: S, lg_extent: i16) -> (terrain: Self)
        requires
            forall|b: bounds::T| call_requires(mosaic, (&b,)),
        ensures
            terrain.well_formed(),
            terrain.mosaic == mosaic,
            terrain.lg_extent == lg_extent,
            terrain.voxels@ == Map::<bounds::T, V>::empty(),
    {
        T { mosaic, voxels: tree::T::new(), lg_extent }
    }

    /// Load the voxel at a given position, and hand it to `f`.
    ///
    /// The voxel is taken from the tree where the tree holds it. Else it is
    /// sampled, once, and kept. Outside the world nothing is loaded: the
    /// tree stays as it is.
    pub fn load<F, R>(&mut self, bounds: &bounds::T, f: F) -> (r: Result<R, Error>) where
        F: FnOnce(&V) -> R,

        requires
            old(self).well_formed(),
            forall|v: V| call_requires(f, (&v,)),
        ensures
            final(self).well_formed(),
            final(self).mosaic == old(self).mosaic,
            final(self).lg_extent == old(self).lg_extent,
            match r {
                Ok(seen) => {
                    &&& old(self).holds(*bounds)
                    &&& old(self).voxels.accessed(final(self).voxels, *bounds)
                    &&& loaded(old(self).mosaic, old(self).voxels@, final(self).voxels@, *bounds)
                    &&& call_ensures(f, (&final(self).voxels@[*bounds],), seen)
                },
                Err(e) => {
                    &&& e == Error::OutOfRange
                    &&& !old(self).holds(*bounds)
                    &&& final(self).voxels == old(self).voxels
                },
            },
    {
        if !bounds.is_near_origin(self.lg_extent as i32) {
            return Err(Error::OutOfRange);
        }
        let slot = self.voxels.get_or_create(bounds);
        if slot.is_none() {
            let voxel = (self.mosaic)(bounds);
            *slot = Some(voxel);
        }
        let seen = match slot {
            Some(voxel) => f(voxel),
            None => vstd::pervasive::unreached(),
        };
        proof {
            assert(final(self).voxels@ =~= old(self).voxels@.insert(
                *bounds,
                final(self).voxels@[*bounds],
            ));
        }
        Ok(seen)
    }

    /// Apply a voxel brush to the terrain.
    ///
    /// Every cube that the brush touches gets the edit of its voxel, which
    /// is sampled first where the tree did not hold it. Returns the touched
    /// cubes: the changed voxels.
    pub fn brush<E>(&mut self, brush: &brush::T<E>) -> (changed: Vec<bounds::T>) where
        E: Fn(&V) -> V,

        requires
            old(self).well_formed(),
            forall|v: V| call_requires(brush.edit, (&v,)),
        ensures
            final(self).well_formed(),
            final(self).mosaic == old(self).mosaic,
            final(self).lg_extent == old(self).lg_extent,
            brush::brushed(*brush, old(self).mosaic, old(self).voxels@, final(self).voxels@),
            brush::reports(*brush, changed@),
            brush::accessed(*brush, old(self).voxels, final(self).voxels),
    {
        self.voxels.brush(brush, &self.mosaic)
    }
}

/// Whether `after` is `before` with the voxel of `b` loaded: taken as it
/// was or, where there was none, sampled and kept; and nothing else changed.
pub open spec fn loaded<V, S: Fn(&bounds::T) -> V>(
    mosaic: S,
    before: Map<bounds::T, V>,
    after: Map<bounds::T, V>,
    b: bounds::T,
) -> bool {
    &&& settled(mosaic, before, after, b)
    &&& after == before.insert(b, after[b])
}

/// Loading a voxel a second time, with no edit in between, gives the voxel
/// that the first load gave and leaves the tree as it is, whatever the
/// sampler would give now: the voxel is sampled once.
pub proof fn lemma_load_twice<V, S: Fn(&bounds::T) -> V>(
    mosaic: S,
    before: Map<bounds::T, V>,
    once: Map<bounds::T, V>,
    twice: Map<bounds::T, V>,
    b: bounds::T,
)
    requires
        loaded(mosaic, before, once, b),
        loaded(mosaic, once, twice, b),
    ensures
        twice == once,
        twice[b] == once[b],
{
    assert(twice =~= once);
}

/// A voxel that is loaded after a brush touched it is the voxel that the
/// brush left: the edit of what was there or would have been sampled.
pub proof fn lemma_load_after_brush<V, S: Fn(&bounds::T) -> V, E: Fn(&V) -> V>(
    brush: brush::T<E>,
    mosaic: S,
    before: Map<bounds::T, V>,
    brushed: Map<bounds::T, V>,
    after: Map<bounds::T, V>,
    b: bounds::T,
)
    requires
        brush::brushed(brush, mosaic, before, brushed),
        brush.touches(b),
        loaded(mosaic, brushed, after, b),
    ensures
        after == brushed,
        brush::edited(brush.edit, mosaic, before, after, b),
{
    assert(brush::edited(brush.edit, mosaic, before, brushed, b));
    assert(after =~= brushed);
}

/// Whether `after` is `before` with the voxels of the block at `position`
/// loaded for `lod`: each taken as it was or, where there was none,
/// sampled and kept; and nothing else changed.
pub open spec fn assembled<V, S: Fn(&bounds::T) -> V>(
    mosaic: S,
    position: Point3<i32>,
    lod: LODIndex,
    before: Map<bounds::T, V>,
    after: Map<bounds::T, V>,
) -> bool {
    &&& forall|b: bounds::T| sampled(position, lod, b) ==> settled(mosaic, before, after, b)
    &&& forall|b: bounds::T| !sampled(position, lod, b) ==> after.get(b) == before.get(b)
}

/// Making a block a second time, with no edit in between, samples
/// nothing: every voxel is found as the first time left it.
pub proof fn lemma_assemble_twice<V, S: Fn(&bounds::T) -> V>(
    mosaic: S,
    position: Point3<i32>,
    lod: LODIndex,
    before: Map<bounds::T, V>,
    once: Map<bounds::T, V>,
    twice: Map<bounds::T, V>,
)
    requires
        assembled(mosaic, position, lod, before, once),
        assembled(mosaic, position, lod, once, twice),
    ensures
        twice == once,
{
    assert forall|b: bounds::T| twice.get(b) == once.get(b) by {
        if sampled(position, lod, b) {
            assert(settled(mosaic, before, once, b));
            assert(settled(mosaic, once, twice, b));
        }
    }
    assert(twice =~= once) by {
        assert forall|b: bounds::T| twice.contains_key(b) == once.contains_key(b) by {
            assert(twice.get(b) == once.get(b));
        }
        assert forall|b: bounds::T| twice.contains_key(b) implies twice[b] == once[b] by {
            assert(twice.get(b) == once.get(b));
        }
    }
}

/// Whether a block at `position` is sampled, for `lod`, at a cube that `q`
/// holds, or at `q` itself.
pub open spec fn samples_within(position: Point3<i32>, lod: LODIndex, q: bounds::T) -> bool {
    exists|c: bounds::T| #[trigger] sampled(position, lod, c) && c.within(q)
}

/// Whether a block at `position` is sampled, for `lod`, at a cube outside
/// the world of half-width `2^lg_half_width`.
pub open spec fn samples_beyond(position: Point3<i32>, lod: LODIndex, lg_half_width: int) -> bool {
    exists|c: bounds::T| #[trigger] sampled(position, lod, c) && !c.near_origin(lg_half_width)
}

/// Whether `after` has the size and the nodes of the tree `before` once
/// every cube was accessed that a block at `position` is sampled at for
/// `lod`. The tree has doubled until it holds them all, and no further.
/// Its nodes are those that it had, those of the sampled cubes and of
/// every cube of the tree that holds one, and those of the eight cubes
/// that touch the origin at each scale that a doubling added.
pub open spec fn accessed<V>(
    position: Point3<i32>,
    lod: LODIndex,
    before: tree::T<V>,
    after: tree::T<V>,
) -> bool {
    &&& before.lg_size() <= after.lg_size()
    &&& !samples_beyond(position, lod, after.lg_size())
    &&& after.lg_size() == before.lg_size() || samples_beyond(
        position,
        lod,
        after.lg_size() - 1,
    )
    &&& forall|q: bounds::T| #[trigger]
        after.has_node(q) == {
            ||| before.has_node(q)
            ||| q.lg_size <= after.lg_size() && samples_within(position, lod, q)
            ||| q.rooted(0) && before.lg_size() < q.lg_size <= after.lg_size()
        }
}

/// Whether `voxels` lists the cubes that a block at `position` is sampled
/// at for `lod`, each once and with the voxel that `held` holds for it,
/// with `x` changing slowest and `z` fastest.
pub open spec fn lists<V>(
    position: Point3<i32>,
    lod: LODIndex,
    held: Map<bounds::T, V>,
    voxels: Seq<(bounds::T, V)>,
) -> bool {
    &&& forall|i: int|
        0 <= i < voxels.len() ==> sampled(position, lod, (#[trigger] voxels[i]).0) && held.get(
            voxels[i].0,
        ) == Some(voxels[i].1)
    &&& forall|b: bounds::T|
        sampled(position, lod, b) ==> exists|i: int|
            0 <= i < voxels.len() && (#[trigger] voxels[i]).0 == b
    &&& forall|i: int, j: int|
        0 <= i < j < voxels.len() ==> brush::precedes(
            (#[trigger] voxels[i]).0,
            (#[trigger] voxels[j]).0,
        )
}

/// A block that is made after a brush touched one of its cubes lists the
/// voxel that the brush left for that cube.
pub proof fn lemma_assemble_after_brush<V, S: Fn(&bounds::T) -> V, E: Fn(&V) -> V>(
    brush: brush::T<E>,
    mosaic: S,
    position: Point3<i32>,
    lod: LODIndex,
    before: Map<bounds::T, V>,
    brushed: Map<bounds::T, V>,
    after: Map<bounds::T, V>,
    voxels: Seq<(bounds::T, V)>,
    b: bounds::T,
)
    requires
        brush::brushed(brush, mosaic, before, brushed),
        brush.touches(b),
        sampled(position, lod, b),
        assembled(mosaic, position, lod, brushed, after),
        lists(position, lod, after, voxels),
    ensures
        brush::edited(brush.edit, mosaic, before, brushed, b),
        voxels.contains((b, brushed[b])),
{
    assert(brush::edited(brush.edit, mosaic, before, brushed, b));
    assert(settled(mosaic, brushed, after, b));
    let i = choose|i: int| 0 <= i < voxels.len() && (#[trigger] voxels[i]).0 == b;
    assert(after.get(voxels[i].0) == Some(voxels[i].1));
    assert(voxels[i] == (b, brushed[b]));
}

impl<V: Copy, S: Fn(&bounds::T) -> V> T<V, S> {
    /// The voxels of the block at `position`, at the density of `lod`.
    ///
    /// Lists every cube that the block is sampled at together with its
    /// voxel, which is taken from the tree or, where the tree did not hold
    /// it, sampled and kept. Outside the world nothing is sampled: the tree
    /// stays as it is.
    pub fn assemble(&mut self, position: &block_position::T, lod: LODIndex) -> (r: Result<
        Vec<(bounds::T, V)>,
        Error,
    >)
        requires
            old(self).well_formed(),
        ensures
            final(self).well_formed(),
            final(self).mosaic == old(self).mosaic,
            final(self).lg_extent == old(self).lg_extent,
            match r {
                Ok(voxels) => {
                    &&& old(self).holds_block(position@, lod)
                    &&& assembled(
                        old(self).mosaic,
                        position@,
                        lod,
                        old(self).voxels@,
                        final(self).voxels@,
                    )
                    &&& lists(position@, lod, final(self).voxels@, voxels@)
                    &&& accessed(position@, lod, old(self).voxels, final(self).voxels)
                },
                Err(e) => {
                    &&& e == Error::OutOfRange
                    &&& !old(self).holds_block(position@, lod)
                    &&& final(self).voxels == old(self).voxels
                },
            },
    {
        let at = *position.as_pnt();
        if !is_samplable(self.lg_extent, &at, lod) {
            return Err(Error::OutOfRange);
        }
        let n: i32 = terrain_block::edge_samples_of(lod) as i32;
        let keep = |v: &V| -> (r: V)
            ensures
                r == *v,
            { *v };
        let every = brush::T {
            bounds: brush::Bounds {
                low: Point3::new(at.x * n, at.y * n, at.z * n),
                high: Point3::new((at.x + 1) * n, (at.y + 1) * n, (at.z + 1) * n),
            },
            edit: keep,
            lg_size: terrain_block::lg_sample_size_of(lod),
        };
        assert forall|b: bounds::T| every.touches(b) == sampled(at, lod, b) by {
            assert(at.x * n == at.x * terrain_block::edge_samples(lod));
            assert((at.x + 1) * n == (at.x + 1) * terrain_block::edge_samples(lod));
            if b.lg_size == terrain_block::lg_sample_size(lod) {
                lemma_sampled_range(at, lod, b);
            }
        }
        let cubes = self.voxels.brush(&every, &self.mosaic);
        proof {
            assert forall|b: bounds::T| sampled(at, lod, b) implies settled(
                old(self).mosaic,
                old(self).voxels@,
                self.voxels@,
                b,
            ) by {
                assert(every.touches(b));
                assert(brush::edited(
                    every.edit,
                    old(self).mosaic,
                    old(self).voxels@,
                    self.voxels@,
                    b,
                ));
            }
            assert forall|b: bounds::T| !sampled(at, lod, b) implies self.voxels@.get(b) == old(
                self,
            ).voxels@.get(b) by {
                assert(!every.touches(b));
            }
            assert forall|l: int| brush::overflows(every, l) == samples_beyond(at, lod, l) by {
                if brush::overflows(every, l) {
                    let c = choose|c: bounds::T| #[trigger]
                        every.touches(c) && !c.near_origin(l);
                    assert(sampled(at, lod, c));
                }
                if samples_beyond(at, lod, l) {
                    let c = choose|c: bounds::T| #[trigger]
                        sampled(at, lod, c) && !c.near_origin(l);
                    assert(every.touches(c));
                }
            }
            assert forall|q: bounds::T| brush::covers(every, q) == samples_within(at, lod, q) by {
                if brush::covers(every, q) {
                    let c = choose|c: bounds::T| #[trigger] every.touches(c) && c.within(q);
                    assert(sampled(at, lod, c));
                }
                if samples_within(at, lod, q) {
                    let c = choose|c: bounds::T| #[trigger] sampled(at, lod, c) && c.within(q);
                    assert(every.touches(c));
                }
            }
            assert(accessed(at, lod, old(self).voxels, self.voxels));
        }
        let ghost before = self.voxels;
        let mut voxels: Vec<(bounds::T, V)> = Vec::new();
        let mut i: usize = 0;
        while i < cubes.len()
            invariant
                i <= cubes.len(),
                voxels.len() == i,
                self.voxels.well_formed(),
                self.voxels == before,
                brush::reports(every, cubes@),
                forall|j: int|
                    0 <= j < cubes.len() ==> self.voxels@.contains_key(#[trigger] cubes[j]),
                forall|j: int|
                    0 <= j < i ==> (#[trigger] voxels[j]).0 == cubes[j] && self.voxels@.get(
                        cubes[j],
                    ) == Some(voxels[j].1),
            decreases cubes.len() - i,
        {
            let cube = cubes[i];
            match self.voxels.get(&cube) {
                Some(voxel) => {
                    voxels.push((cube, *voxel));
                },
                None => {
                    assert(false);
                },
            }
            i = i + 1;
        }
        proof {
            assert forall|b: bounds::T| sampled(at, lod, b) implies exists|j: int|
                0 <= j < voxels.len() && (#[trigger] voxels[j]).0 == b by {
                assert(every.touches(b));
                assert(cubes@.contains(b));
                let j = choose|j: int| 0 <= j < cubes@.len() && cubes@[j] == b;
                assert(voxels[j].0 == b);
            }
            assert forall|j: int, k: int| 0 <= j < k < voxels.len() implies brush::precedes(
                (#[trigger] voxels[j]).0,
                (#[trigger] voxels[k]).0,
            ) by {
                assert(brush::precedes(cubes[j], cubes[k]));
            }
        }
        Ok(voxels)
    }
}

} // verus!
