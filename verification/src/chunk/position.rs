//! A position in "chunk coordinates".

use crate::bounds;
use crate::chunk::{VoxelBounds, LG_WIDTH};
use crate::geometry::Point3;
use crate::grid::{fast, middle, slow};
use vstd::arithmetic::power2::pow2;
use vstd::prelude::*;

verus! {

/// The largest lg of the number of voxels along an axis of a chunk for
/// which the number of voxels in the chunk still fits every machine.
pub const MAX_LG_SAMPLES: u16 = 10;

/// The place of a chunk: its coordinates on the grid of chunks, and the
/// size of the voxels that it is sampled at. A chunk takes up the same
/// space at every voxel size; with larger voxels it has fewer of them.
#[derive(Debug, Copy, Clone, PartialEq, Eq, Hash, Structural)]
pub struct T {
    pub coords: Point3<i32>,
    pub lg_voxel_size: i16,
}

impl T {
    /// lg of the number of voxels along an axis of the chunk.
    pub open spec fn lg_samples(self) -> int {
        LG_WIDTH - self.lg_voxel_size
    }

    /// The number of voxels along an axis of the chunk.
    pub open spec fn samples(self) -> int {
        pow2(self.lg_samples() as nat) as int
    }

    /// Whether the chunk can be sampled: its voxels are no larger than the
    /// chunk, their number fits every machine, and their coordinates are
    /// 32-bit numbers.
    pub open spec fn valid(self) -> bool {
        &&& 0 <= self.lg_samples() <= MAX_LG_SAMPLES
        &&& i32::MIN <= self.coords.x * self.samples()
        &&& i32::MIN <= self.coords.y * self.samples()
        &&& i32::MIN <= self.coords.z * self.samples()
        &&& self.coords.x * self.samples() + self.samples() - 1 <= i32::MAX
        &&& self.coords.y * self.samples() + self.samples() - 1 <= i32::MAX
        &&& self.coords.z * self.samples() + self.samples() - 1 <= i32::MAX
    }

    /// The cube of the voxel `(x, y, z)` of the chunk, counted from the
    /// chunk's low corner.
    pub open spec fn voxel(self, x: int, y: int, z: int) -> bounds::T {
        bounds::T {
            x: (self.coords.x * self.samples() + x) as i32,
            y: (self.coords.y * self.samples() + y) as i32,
            z: (self.coords.z * self.samples() + z) as i32,
            lg_size: self.lg_voxel_size,
        }
    }

    /// The cube that the chunk takes up, whatever the size of its voxels.
    pub open spec fn footprint(self) -> bounds::T {
        bounds::T {
            x: self.coords.x,
            y: self.coords.y,
            z: self.coords.z,
            lg_size: LG_WIDTH as i16,
        }
    }

    /// The cube of the voxel that a chunk stores at place `i`: `z` changes
    /// fastest and `x` slowest.
    pub open spec fn stored(self, i: int) -> bounds::T {
        self.voxel(slow(i, self.samples()), middle(i, self.samples()), fast(i, self.samples()))
    }

    /// The cube of the voxel that has place `i` when `x` changes fastest
    /// and `z` slowest.
    pub open spec fn swept(self, i: int) -> bounds::T {
        self.voxel(fast(i, self.samples()), middle(i, self.samples()), slow(i, self.samples()))
    }

    /// Computes [`T::valid`].
    pub fn is_valid(&self) -> (r: bool)
        ensures
            r == self.valid(),
    {
        let lg: i32 = LG_WIDTH as i32 - self.lg_voxel_size as i32;
        if lg < 0 || lg > MAX_LG_SAMPLES as i32 {
            return false;
        }
        let n: i64 = samples_of(lg as u32) as i64;
        let low: i64 = i32::MIN as i64;
        let high: i64 = i32::MAX as i64;
        assert(1 <= n <= 1024) by {
            lemma_samples_bounds(lg as nat);
        }
        assert(-0x8000_0000 * 1024 <= self.coords.x * n <= 0x8000_0000 * 1024 && -0x8000_0000 * 1024
            <= self.coords.y * n <= 0x8000_0000 * 1024 && -0x8000_0000 * 1024 <= self.coords.z * n
            <= 0x8000_0000 * 1024) by (nonlinear_arith)
            requires
                1 <= n <= 1024,
                -0x8000_0000 <= self.coords.x < 0x8000_0000,
                -0x8000_0000 <= self.coords.y < 0x8000_0000,
                -0x8000_0000 <= self.coords.z < 0x8000_0000,
        ;
        low <= self.coords.x as i64 * n && low <= self.coords.y as i64 * n && low
            <= self.coords.z as i64 * n && self.coords.x as i64 * n + n - 1 <= high
            && self.coords.y as i64 * n + n - 1 <= high && self.coords.z as i64 * n + n - 1
            <= high
    }

    /// Computes [`T::samples`].
    pub fn edge_samples(&self) -> (n: u32)
        requires
            self.valid(),
        ensures
            n == self.samples(),
            1 <= n <= 1024,
    {
        let lg: u32 = (LG_WIDTH as i32 - self.lg_voxel_size as i32) as u32;
        proof {
            lemma_samples_bounds(lg as nat);
        }
        samples_of(lg)
    }

    /// Computes [`T::voxel`].
    pub fn voxel_at(&self, x: u32, y: u32, z: u32) -> (b: bounds::T)
        requires
            self.valid(),
            x < self.samples(),
            y < self.samples(),
            z < self.samples(),
        ensures
            b == self.voxel(x as int, y as int, z as int),
            b.x == self.coords.x * self.samples() + x,
            b.y == self.coords.y * self.samples() + y,
            b.z == self.coords.z * self.samples() + z,
    {
        let n: i64 = self.edge_samples() as i64;
        bounds::T::new(
            (self.coords.x as i64 * n + x as i64) as i32,
            (self.coords.y as i64 * n + y as i64) as i32,
            (self.coords.z as i64 * n + z as i64) as i32,
            self.lg_voxel_size,
        )
    }

    /// Return an iterator for the bounds of the voxels in a chunk.
    pub fn voxels(&self) -> (iter: VoxelBounds<'_>)
        requires
            self.valid(),
        ensures
            iter.well_formed(),
            iter.chunk() == *self,
            iter@ == VoxelBounds::all(*self),
    {
        VoxelBounds::new(self)
    }
}

/// The voxels of a chunk are the cubes of the chunk's voxel size inside
/// the chunk.
pub proof fn lemma_voxels_fill_footprint(p: T, b: bounds::T)
    requires
        p.valid(),
        b.lg_size == p.lg_voxel_size,
    ensures
        b.within(p.footprint()) == exists|x: int, y: int, z: int|
            0 <= x < p.samples() && 0 <= y < p.samples() && 0 <= z < p.samples() && b
                == #[trigger] p.voxel(x, y, z),
{
    let k = p.lg_samples() as nat;
    let n = p.samples();
    crate::scale::lemma_shifted_range(b.x as int, k, p.coords.x as int);
    crate::scale::lemma_shifted_range(b.y as int, k, p.coords.y as int);
    crate::scale::lemma_shifted_range(b.z as int, k, p.coords.z as int);
    assert((p.coords.x + 1) * n == p.coords.x * n + n && (p.coords.y + 1) * n == p.coords.y * n
        + n && (p.coords.z + 1) * n == p.coords.z * n + n) by (nonlinear_arith);
    if b.within(p.footprint()) {
        let (x, y, z) = (b.x - p.coords.x * n, b.y - p.coords.y * n, b.z - p.coords.z * n);
        assert(b == p.voxel(x, y, z));
    }
}

/// Two to the power of at most `MAX_LG_SAMPLES` is at most 1024.
pub proof fn lemma_samples_bounds(lg: nat)
    requires
        lg <= MAX_LG_SAMPLES,
    ensures
        1 <= pow2(lg) <= 1024,
{
    vstd::arithmetic::power2::lemma2_to64();
    vstd::arithmetic::power2::lemma_pow2_pos(lg);
    if lg < 10 {
        vstd::arithmetic::power2::lemma_pow2_strictly_increases(lg, 10);
    }
}

fn samples_of(lg: u32) -> (n: u32)
    requires
        lg <= MAX_LG_SAMPLES,
    ensures
        n == pow2(lg as nat),
{
    proof {
        lemma_samples_bounds(lg as nat);
        vstd::bits::lemma_u32_shl_is_mul(1, lg);
    }
    1u32 << lg
}

} // verus!
