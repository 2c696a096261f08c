//! Addresses of axis-aligned cubes at power-of-two scales.

use crate::scale::{bit_at, bit_of, floor_shift, lemma_shifted_step, shifted};
use vstd::prelude::*;

verus! {

/// The cube `[x * 2^lg_size, (x + 1) * 2^lg_size)` along each axis.
///
/// `lg_size` alone fixes the scale: it is negative for cubes smaller than a
/// unit cube and positive for coarser ones. Distinct values address distinct
/// cubes.
#[derive(Debug, PartialEq, Eq, Hash, Copy, Clone, Structural)]
pub struct T {
    pub x: i32,
    pub y: i32,
    pub z: i32,
    pub lg_size: i16,
}

/// Number of children of a cube: one per half along each axis.
pub const OCTANTS: u8 = 8;

impl T {
    /// Which of the eight children of its ancestor `k + 1` levels up holds
    /// this cube: the bits `k` of `x`, `y` and `z`, most significant first.
    pub open spec fn octant(self, k: nat) -> int {
        4 * bit_at(self.x as int, k) + 2 * bit_at(self.y as int, k) + bit_at(self.z as int, k)
    }

    /// Whether the ancestor `k` levels up is one of the eight cubes that
    /// touch the origin: every coordinate lies in `[-2^k, 2^k)`.
    pub open spec fn rooted(self, k: nat) -> bool {
        &&& -1 <= shifted(self.x as int, k) <= 0
        &&& -1 <= shifted(self.y as int, k) <= 0
        &&& -1 <= shifted(self.z as int, k) <= 0
    }

    /// Whether this cube lies in the cube of half-width `2^lg_half_width`
    /// centred on the origin.
    pub open spec fn near_origin(self, lg_half_width: int) -> bool {
        &&& self.lg_size <= lg_half_width
        &&& self.rooted((lg_half_width - self.lg_size) as nat)
    }

    /// Whether this cube lies inside `outer`, or is `outer` itself.
    pub open spec fn within(self, outer: T) -> bool {
        &&& self.lg_size <= outer.lg_size
        &&& shifted(self.x as int, (outer.lg_size - self.lg_size) as nat) == outer.x
        &&& shifted(self.y as int, (outer.lg_size - self.lg_size) as nat) == outer.y
        &&& shifted(self.z as int, (outer.lg_size - self.lg_size) as nat) == outer.z
    }

    /// Whether one of the two cubes is the parent of the other: one level
    /// coarser, and holding it.
    pub open spec fn adjacent(self, other: T) -> bool {
        ||| self.lg_size + 1 == other.lg_size && self.within(other)
        ||| other.lg_size + 1 == self.lg_size && other.within(self)
    }

    /// The cube one level coarser that holds this one, as far as there is
    /// a coarser level.
    pub open spec fn parent_of(self) -> Option<T> {
        if self.lg_size < i16::MAX {
            Some(
                T {
                    x: shifted(self.x as int, 1) as i32,
                    y: shifted(self.y as int, 1) as i32,
                    z: shifted(self.z as int, 1) as i32,
                    lg_size: (self.lg_size + 1) as i16,
                },
            )
        } else {
            None
        }
    }

    /// The cube one level finer in octant `octant` of this one, as far as
    /// there is a finer level and the cube has 32-bit coordinates there.
    pub open spec fn child_of(self, octant: int) -> Option<T> {
        let x = 2 * self.x + octant / 4;
        let y = 2 * self.y + (octant / 2) % 2;
        let z = 2 * self.z + octant % 2;
        if self.lg_size > i16::MIN && i32::MIN <= x <= i32::MAX && i32::MIN <= y <= i32::MAX
            && i32::MIN <= z <= i32::MAX {
            Some(T { x: x as i32, y: y as i32, z: z as i32, lg_size: (self.lg_size - 1) as i16 })
        } else {
            None
        }
    }

    /// The cube with the given coordinates and scale.
    pub fn new(x: i32, y: i32, z: i32, lg_size: i16) -> (b: T)
        ensures
            b == (T { x, y, z, lg_size }),
    {
        T { x, y, z, lg_size }
    }

    /// Computes [`T::octant`].
    pub fn octant_at(&self, k: u32) -> (r: u8)
        ensures
            r == self.octant(k as nat),
            r < OCTANTS,
    {
        4 * bit_of(self.x, k) + 2 * bit_of(self.y, k) + bit_of(self.z, k)
    }

    /// Computes [`T::near_origin`].
    pub fn is_near_origin(&self, lg_half_width: i32) -> (r: bool)
        ensures
            r == self.near_origin(lg_half_width as int),
    {
        let lg: i32 = self.lg_size as i32;
        if lg > lg_half_width {
            return false;
        }
        let k: u32 = (lg_half_width as i64 - lg as i64) as u32;
        let x: i32 = floor_shift(self.x, k);
        let y: i32 = floor_shift(self.y, k);
        let z: i32 = floor_shift(self.z, k);
        -1 <= x && x <= 0 && -1 <= y && y <= 0 && -1 <= z && z <= 0
    }

    /// Computes [`T::parent_of`].
    pub fn parent(&self) -> (r: Option<T>)
        ensures
            r == self.parent_of(),
            r is Some ==> self.within(r->0) && self.octant(0) < OCTANTS && r->0.child_of(
                self.octant(0),
            ) == Some(*self),
    {
        if self.lg_size == i16::MAX {
            return None;
        }
        proof {
            lemma_shifted_step(self.x as int, 0);
            lemma_shifted_step(self.y as int, 0);
            lemma_shifted_step(self.z as int, 0);
            crate::scale::lemma_shifted_zero(self.x as int);
            crate::scale::lemma_shifted_zero(self.y as int);
            crate::scale::lemma_shifted_zero(self.z as int);
        }
        Some(
            T {
                x: floor_shift(self.x, 1),
                y: floor_shift(self.y, 1),
                z: floor_shift(self.z, 1),
                lg_size: self.lg_size + 1,
            },
        )
    }

    /// Computes [`T::child_of`].
    pub fn child(&self, octant: u8) -> (r: Option<T>)
        requires
            octant < OCTANTS,
        ensures
            r == self.child_of(octant as int),
            r is Some ==> r->0.parent_of() == Some(*self) && r->0.octant(0) == octant,
    {
        if self.lg_size == i16::MIN {
            return None;
        }
        let x: i64 = 2 * (self.x as i64) + (octant / 4) as i64;
        let y: i64 = 2 * (self.y as i64) + ((octant / 2) % 2) as i64;
        let z: i64 = 2 * (self.z as i64) + (octant % 2) as i64;
        let low: i64 = i32::MIN as i64;
        let high: i64 = i32::MAX as i64;
        if x < low || x > high || y < low || y > high || z < low || z > high {
            return None;
        }
        proof {
            lemma_shifted_step(x as int, 0);
            lemma_shifted_step(y as int, 0);
            lemma_shifted_step(z as int, 0);
            crate::scale::lemma_shifted_zero(x as int);
            crate::scale::lemma_shifted_zero(y as int);
            crate::scale::lemma_shifted_zero(z as int);
        }
        Some(T { x: x as i32, y: y as i32, z: z as i32, lg_size: self.lg_size - 1 })
    }

    /// Computes [`T::adjacent`], in constant time.
    pub fn is_adjacent(&self, other: &T) -> (r: bool)
        ensures
            r == self.adjacent(*other),
    {
        let a: i32 = self.lg_size as i32;
        let b: i32 = other.lg_size as i32;
        (a + 1 == b && other.contains(self)) || (b + 1 == a && self.contains(other))
    }

    /// Computes [`T::within`], in constant time.
    pub fn contains(&self, inner: &T) -> (r: bool)
        ensures
            r == inner.within(*self),
    {
        if inner.lg_size > self.lg_size {
            return false;
        }
        let k: u32 = (self.lg_size as i32 - inner.lg_size as i32) as u32;
        floor_shift(inner.x, k) == self.x && floor_shift(inner.y, k) == self.y && floor_shift(
            inner.z,
            k,
        ) == self.z
    }
}

/// A cube is fixed by its scale, by the origin-touching cube above it and
/// by its octants on the way down from there.
pub proof fn lemma_octants_fix_cube(a: T, b: T, k: nat)
    requires
        a.lg_size == b.lg_size,
        a.rooted(k),
        b.rooted(k),
        forall|j: nat| j <= k ==> a.octant(j) == b.octant(j),
    ensures
        a == b,
{
    assert forall|j: nat| j <= k implies bit_at(a.x as int, j) == bit_at(b.x as int, j) && bit_at(
        a.y as int,
        j,
    ) == bit_at(b.y as int, j) && bit_at(a.z as int, j) == bit_at(b.z as int, j) by {
        assert(a.octant(j) == b.octant(j));
        lemma_shifted_step(a.x as int, j);
        lemma_shifted_step(a.y as int, j);
        lemma_shifted_step(a.z as int, j);
        lemma_shifted_step(b.x as int, j);
        lemma_shifted_step(b.y as int, j);
        lemma_shifted_step(b.z as int, j);
    }
    lemma_bits_fix_coordinate(a.x as int, b.x as int, k);
    lemma_bits_fix_coordinate(a.y as int, b.y as int, k);
    lemma_bits_fix_coordinate(a.z as int, b.z as int, k);
}

/// A cube near the origin of a small world is near the origin of every
/// larger one.
pub proof fn lemma_near_origin_grows(c: T, lg_half_width: int, larger: int)
    requires
        c.near_origin(lg_half_width),
        lg_half_width <= larger,
    ensures
        c.near_origin(larger),
{
    let k = (lg_half_width - c.lg_size) as nat;
    let m = (larger - lg_half_width) as nat;
    crate::scale::lemma_shifted_twice(c.x as int, k, m);
    crate::scale::lemma_shifted_twice(c.y as int, k, m);
    crate::scale::lemma_shifted_twice(c.z as int, k, m);
    vstd::arithmetic::power2::lemma_pow2_pos(m);
    crate::scale::lemma_shifted_near_origin(shifted(c.x as int, k), m);
    crate::scale::lemma_shifted_near_origin(shifted(c.y as int, k), m);
    crate::scale::lemma_shifted_near_origin(shifted(c.z as int, k), m);
}

/// What holds a cube near the origin and is coarser than the world
/// touches the origin.
pub proof fn lemma_above_world(c: T, q: T, lg_half_width: int)
    requires
        c.near_origin(lg_half_width),
        c.within(q),
        q.lg_size >= lg_half_width,
    ensures
        q.rooted(0),
{
    let k = (lg_half_width - c.lg_size) as nat;
    let m = (q.lg_size - lg_half_width) as nat;
    crate::scale::lemma_shifted_twice(c.x as int, k, m);
    crate::scale::lemma_shifted_twice(c.y as int, k, m);
    crate::scale::lemma_shifted_twice(c.z as int, k, m);
    vstd::arithmetic::power2::lemma_pow2_pos(m);
    crate::scale::lemma_shifted_near_origin(shifted(c.x as int, k), m);
    crate::scale::lemma_shifted_near_origin(shifted(c.y as int, k), m);
    crate::scale::lemma_shifted_near_origin(shifted(c.z as int, k), m);
    crate::scale::lemma_shifted_zero(q.x as int);
    crate::scale::lemma_shifted_zero(q.y as int);
    crate::scale::lemma_shifted_zero(q.z as int);
}

/// Cubes in the same octant agree bit by bit.
pub proof fn lemma_octant_bits(a: T, j: nat, b: T, k: nat)
    requires
        a.octant(j) == b.octant(k),
    ensures
        bit_at(a.x as int, j) == bit_at(b.x as int, k),
        bit_at(a.y as int, j) == bit_at(b.y as int, k),
        bit_at(a.z as int, j) == bit_at(b.z as int, k),
{
    lemma_shifted_step(a.x as int, j);
    lemma_shifted_step(a.y as int, j);
    lemma_shifted_step(a.z as int, j);
    lemma_shifted_step(b.x as int, k);
    lemma_shifted_step(b.y as int, k);
    lemma_shifted_step(b.z as int, k);
}

/// Two coordinates in `[-2^k, 2^k)` that agree on the bits `0..=k` are equal.
pub proof fn lemma_bits_fix_coordinate(x: int, y: int, k: nat)
    requires
        -1 <= shifted(x, k) <= 0,
        -1 <= shifted(y, k) <= 0,
        forall|j: nat| j <= k ==> bit_at(x, j) == bit_at(y, j),
    ensures
        x == y,
{
    assert(bit_at(x, k) == bit_at(y, k));
    assert(shifted(x, k) == shifted(y, k));
    lemma_low_bits_fix_coordinate(x, y, k);
}

/// Two coordinates that agree `k` levels up and on the bits below are equal.
proof fn lemma_low_bits_fix_coordinate(x: int, y: int, k: nat)
    requires
        shifted(x, k) == shifted(y, k),
        forall|j: nat| j < k ==> bit_at(x, j) == bit_at(y, j),
    ensures
        x == y,
    decreases k,
{
    if k == 0 {
        crate::scale::lemma_shifted_zero(x);
        crate::scale::lemma_shifted_zero(y);
    } else {
        let j = (k - 1) as nat;
        lemma_shifted_step(x, j);
        lemma_shifted_step(y, j);
        assert(bit_at(x, j) == bit_at(y, j));
        lemma_low_bits_fix_coordinate(x, y, j);
    }
}

} // verus!
