//! Position data structure for terrain blocks.

use crate::bounds;
use crate::geometry::{Point3, Vector3};
use crate::scale::{checked_raise, floor_shift, lemma_shifted_raised, raised, shifted};
use crate::terrain_block;
use vstd::prelude::*;
use vstd::std_specs::ops::AddSpecImpl;

verus! {

/// Position of blocks on an "infinite" regular grid.
/// The position is implicitly in units of `terrain_block::WIDTH`.
#[derive(Debug, PartialEq, Eq, Hash, Copy, Clone, Structural)]
pub struct T(Point3<i32>);

impl View for T {
    type V = Point3<i32>;

    /// The grid coordinates of the block.
    closed spec fn view(&self) -> Point3<i32> {
        self.0
    }
}

/// The grid coordinate of the block that holds the world coordinate `w`:
/// the floor of `w / WIDTH`, so that the grid is seamless across the origin.
pub open spec fn block_of(w: int) -> int {
    w / (terrain_block::WIDTH as int)
}

/// The world coordinate at which the block with grid coordinate `c` begins.
pub open spec fn world_of(c: int) -> int {
    c * terrain_block::WIDTH
}

/// The grid coordinate of the block that holds the low end of the cells
/// with coordinate `x` at scale `lg_size`: the floor of
/// `x * 2^lg_size / WIDTH`.
pub open spec fn block_of_cell(x: int, lg_size: int) -> int {
    if lg_size <= terrain_block::LG_WIDTH {
        shifted(x, (terrain_block::LG_WIDTH - lg_size) as nat)
    } else {
        raised(x, (lg_size - terrain_block::LG_WIDTH) as nat)
    }
}

/// Whether the block that holds the low corner of the cube has 32-bit
/// grid coordinates. It has for every cube that is no larger than a block.
pub open spec fn on_block_grid(bounds: bounds::T) -> bool {
    bounds.lg_size > terrain_block::LG_WIDTH ==> {
        &&& i32::MIN <= block_of_cell(bounds.x as int, bounds.lg_size as int) <= i32::MAX
        &&& i32::MIN <= block_of_cell(bounds.y as int, bounds.lg_size as int) <= i32::MAX
        &&& i32::MIN <= block_of_cell(bounds.z as int, bounds.lg_size as int) <= i32::MAX
    }
}

/// Computes [`on_block_grid`].
pub fn is_on_block_grid(bounds: &bounds::T) -> (r: bool)
    ensures
        r == on_block_grid(*bounds),
{
    if bounds.lg_size <= terrain_block::LG_WIDTH {
        return true;
    }
    let k: u32 = (bounds.lg_size as i32 - terrain_block::LG_WIDTH as i32) as u32;
    checked_raise(bounds.x, k).is_some() && checked_raise(bounds.y, k).is_some() && checked_raise(
        bounds.z,
        k,
    ).is_some()
}

/// The block that holds the low corner of a cube.
///
/// A cube no larger than a block lies in that block; a larger cube begins
/// with it.
pub fn containing_voxel(bounds: &bounds::T) -> (position: T)
    requires
        on_block_grid(*bounds),
    ensures
        position@.x == block_of_cell(bounds.x as int, bounds.lg_size as int),
        position@.y == block_of_cell(bounds.y as int, bounds.lg_size as int),
        position@.z == block_of_cell(bounds.z as int, bounds.lg_size as int),
        bounds.lg_size <= terrain_block::LG_WIDTH ==> bounds.within(
            terrain_block::footprint(position@),
        ),
        bounds.lg_size > terrain_block::LG_WIDTH ==> terrain_block::footprint(position@).within(
            *bounds,
        ),
{
    if bounds.lg_size <= terrain_block::LG_WIDTH {
        let k: u32 = (terrain_block::LG_WIDTH as i32 - bounds.lg_size as i32) as u32;
        new(floor_shift(bounds.x, k), floor_shift(bounds.y, k), floor_shift(bounds.z, k))
    } else {
        let k: u32 = (bounds.lg_size as i32 - terrain_block::LG_WIDTH as i32) as u32;
        proof {
            lemma_shifted_raised(bounds.x as int, k as nat);
            lemma_shifted_raised(bounds.y as int, k as nat);
            lemma_shifted_raised(bounds.z as int, k as nat);
        }
        match (checked_raise(bounds.x, k), checked_raise(bounds.y, k), checked_raise(bounds.z, k)) {
            (Some(x), Some(y), Some(z)) => new(x, y, z),
            _ => vstd::pervasive::unreached(),
        }
    }
}

impl T {
    /// The grid coordinates of the block.
    pub fn as_pnt(&self) -> (pnt: &Point3<i32>)
        ensures
            *pnt == self@,
    {
        &self.0
    }

    /// The grid coordinates of the block, for writing.
    pub fn as_mut_pnt(&mut self) -> (pnt: &mut Point3<i32>)
        ensures
            *pnt == old(self)@,
            final(self)@ == *final(pnt),
    {
        &mut self.0
    }

    /// The world position at which the block begins.
    pub fn to_world_position(&self) -> (world: Point3<i64>)
        ensures
            world.x == world_of(self@.x as int),
            world.y == world_of(self@.y as int),
            world.z == world_of(self@.z as int),
    {
        let width: i64 = terrain_block::WIDTH as i64;
        assert(width == 8);
        Point3::new(self.0.x as i64 * width, self.0.y as i64 * width, self.0.z as i64 * width)
    }
}

/// The block at the given grid coordinates.
pub fn new(x: i32, y: i32, z: i32) -> (position: T)
    ensures
        position@ == (Point3 { x, y, z }),
{
    T(Point3::new(x, y, z))
}

/// The block at the given grid coordinates.
pub fn of_pnt(p: &Point3<i32>) -> (position: T)
    ensures
        position@ == *p,
{
    T(*p)
}

/// The block that holds a world position, given by the floors of its
/// coordinates.
pub fn of_world_position(world_position: &Point3<i32>) -> (position: T)
    ensures
        position@.x == block_of(world_position.x as int),
        position@.y == block_of(world_position.y as int),
        position@.z == block_of(world_position.z as int),
{
    proof {
        lemma_block_of_is_shifted(world_position.x as int);
        lemma_block_of_is_shifted(world_position.y as int);
        lemma_block_of_is_shifted(world_position.z as int);
    }
    let k: u32 = terrain_block::LG_WIDTH as u32;
    new(
        floor_shift(world_position.x, k),
        floor_shift(world_position.y, k),
        floor_shift(world_position.z, k),
    )
}

impl AddSpecImpl<Vector3<i32>> for T {
    open spec fn obeys_add_spec() -> bool {
        true
    }

    open spec fn add_req(self, rhs: Vector3<i32>) -> bool {
        &&& i32::MIN <= self@.x + rhs.x <= i32::MAX
        &&& i32::MIN <= self@.y + rhs.y <= i32::MAX
        &&& i32::MIN <= self@.z + rhs.z <= i32::MAX
    }

    open spec fn add_spec(self, rhs: Vector3<i32>) -> T {
        of_point(
            Point3 {
                x: (self@.x + rhs.x) as i32,
                y: (self@.y + rhs.y) as i32,
                z: (self@.z + rhs.z) as i32,
            },
        )
    }
}

impl core::ops::Add<Vector3<i32>> for T {
    type Output = T;

    /// The block `rhs` blocks away.
    fn add(self, rhs: Vector3<i32>) -> T {
        T(Point3::new(self.0.x + rhs.x, self.0.y + rhs.y, self.0.z + rhs.z))
    }
}

/// The position with the grid coordinates `p`.
pub closed spec fn of_point(p: Point3<i32>) -> T {
    T(p)
}

/// A position is its grid coordinates, nothing more.
pub proof fn lemma_of_point(p: Point3<i32>)
    ensures
        of_point(p)@ == p,
{
}

/// The block of a world coordinate is the coordinate seen `LG_WIDTH`
/// levels coarser.
pub proof fn lemma_block_of_is_shifted(w: int)
    ensures
        block_of(w) == shifted(w, terrain_block::LG_WIDTH as nat),
{
    vstd::arithmetic::power2::lemma2_to64();
}

/// A block begins inside itself, and every position of a block leads back
/// to that block: going from a world position to its block, to where that
/// block begins and to the block of that place ends at the same block.
pub proof fn lemma_world_round_trip(w: int)
    ensures
        block_of(world_of(block_of(w))) == block_of(w),
{
    lemma_block_of_world_of(block_of(w));
}

/// The block that holds the place where a block begins is that block.
pub proof fn lemma_block_of_world_of(c: int)
    ensures
        block_of(world_of(c)) == c,
{
    vstd::arithmetic::div_mod::lemma_fundamental_div_mod_converse(
        world_of(c),
        terrain_block::WIDTH as int,
        c,
        0,
    );
}

/// A world position lies in its block: between where the block begins and
/// where the next one does.
pub proof fn lemma_block_holds_position(w: int)
    ensures
        world_of(block_of(w)) <= w < world_of(block_of(w) + 1),
{
    vstd::arithmetic::div_mod::lemma_fundamental_div_mod(w, terrain_block::WIDTH as int);
}

} // verus!
