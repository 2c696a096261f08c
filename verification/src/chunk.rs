//! Chunk type

use crate::bounds;
use crate::geometry::{copy_of, Point3};
use crate::grid::{flat, lemma_flat_cell, lemma_flat_next, volume};
use vstd::prelude::*;

pub mod position;

verus! {

broadcast use vstd::function::group_function_axioms;

/// Width of a chunk, in voxels of unit size
pub const WIDTH: u32 = 32;

/// Base-2 log of the chunk width
pub const LG_WIDTH: u16 = 5;

/// The voxels of one chunk, `z` changing fastest and `x` slowest.
#[derive(Debug)]
pub struct T<V> {
    pub position: position::T,
    pub voxels: Vec<V>,
}

impl<V: Copy> Clone for T<V> {
    fn clone(&self) -> (chunk: Self)
        ensures
            chunk.position == self.position,
            chunk.voxels@ == self.voxels@,
    {
        T { position: self.position, voxels: copy_of(&self.voxels) }
    }
}

impl<V> T<V> {
    /// Whether the chunk holds one voxel for each of its cubes.
    pub open spec fn well_formed(&self) -> bool {
        &&& self.position.valid()
        &&& self.voxels@.len() == volume(self.position.samples())
    }

    /// Whether `p` names a voxel of the chunk, counted from the chunk's
    /// low corner.
    pub open spec fn has(&self, p: Point3<i32>) -> bool {
        &&& 0 <= p.x < self.position.samples()
        &&& 0 <= p.y < self.position.samples()
        &&& 0 <= p.z < self.position.samples()
    }

    /// The place of the voxel `p` among the chunk's voxels.
    pub open spec fn place(&self, p: Point3<i32>) -> int {
        flat(p.x as int, p.y as int, p.z as int, self.position.samples())
    }

    fn idx(&self, p: &Point3<i32>) -> (i: usize)
        requires
            self.well_formed(),
            self.has(*p),
        ensures
            i == self.place(*p),
            i < self.voxels@.len(),
    {
        let n: usize = self.position.edge_samples() as usize;
        proof {
            lemma_flat_cell(p.x as int, p.y as int, p.z as int, n as int);
            assert(0 <= p.x * n <= 1023 * 1024 && 0 <= (p.x * n + p.y) * n <= 1024 * 1024 * 1024)
                by (nonlinear_arith)
                requires
                    0 <= p.x < n,
                    0 <= p.y < n,
                    n <= 1024,
            ;
        }
        (p.x as usize * n + p.y as usize) * n + p.z as usize
    }

    /// The voxel `p` of the chunk.
    pub fn get<'a>(&'a self, p: &Point3<i32>) -> (voxel: &'a V)
        requires
            self.well_formed(),
            self.has(*p),
        ensures
            *voxel == self.voxels@[self.place(*p)],
    {
        let idx = self.idx(p);
        &self.voxels[idx]
    }

    /// The voxel `p` of the chunk, for writing.
    pub fn get_mut<'a>(&'a mut self, p: &Point3<i32>) -> (voxel: &'a mut V)
        requires
            old(self).well_formed(),
            old(self).has(*p),
        ensures
            *voxel == old(self).voxels@[old(self).place(*p)],
            final(self).position == old(self).position,
            final(self).voxels@ == old(self).voxels@.update(old(self).place(*p), *final(voxel)),
    {
        let idx = self.idx(p);
        &mut self.voxels[idx]
    }

    /// Iterate through the voxels in this chunk.
    pub fn voxels(&self) -> (iter: Voxels<'_, V>)
        requires
            self.well_formed(),
        ensures
            iter.well_formed(),
            iter.chunk() == self,
            iter@ == Voxels::all(*self),
    {
        Voxels::new(self)
    }
}

/// Construct a chunk from a position and an initialization callback.
///
/// The callback is asked for the voxel of each cube of the chunk, in the
/// order in which the chunk stores them.
pub fn of_callback<V, F>(p: &position::T, mut f: F) -> (chunk: T<V>) where
    F: FnMut(bounds::T) -> V,

    requires
        p.valid(),
        forall|b: bounds::T| call_requires(f, (b,)),
    ensures
        chunk.well_formed(),
        chunk.position == *p,
        forall|i: int|
            0 <= i < chunk.voxels@.len() ==> call_ensures(
                f,
                (p.stored(i),),
                #[trigger] chunk.voxels@[i],
            ),
{
    let mut voxels: Vec<V> = Vec::new();
    let samples: u32 = p.edge_samples();
    let ghost n = samples as int;
    let ghost callback = f;
    let mut x: u32 = 0;
    while x < samples
        invariant
            p.valid(),
            samples == p.samples(),
            n == samples,
            x <= samples,
            voxels@.len() == flat(x as int, 0, 0, n),
            f == callback,
            forall|b: bounds::T| call_requires(f, (b,)),
            forall|i: int|
                0 <= i < voxels@.len() ==> call_ensures(f, (p.stored(i),), #[trigger] voxels@[i]),
        decreases samples - x,
    {
        let mut y: u32 = 0;
        while y < samples
            invariant
                p.valid(),
                samples == p.samples(),
                n == samples,
                x < samples,
                y <= samples,
                voxels@.len() == flat(x as int, y as int, 0, n),
                f == callback,
                forall|b: bounds::T| call_requires(f, (b,)),
                forall|i: int|
                    0 <= i < voxels@.len() ==> call_ensures(
                        f,
                        (p.stored(i),),
                        #[trigger] voxels@[i],
                    ),
            decreases samples - y,
        {
            let mut z: u32 = 0;
            while z < samples
                invariant
                    p.valid(),
                    samples == p.samples(),
                    n == samples,
                    x < samples,
                    y < samples,
                    z <= samples,
                    voxels@.len() == flat(x as int, y as int, z as int, n),
                    f == callback,
                    forall|b: bounds::T| call_requires(f, (b,)),
                    forall|i: int|
                        0 <= i < voxels@.len() ==> call_ensures(
                            f,
                            (p.stored(i),),
                            #[trigger] voxels@[i],
                        ),
                decreases samples - z,
            {
                let bounds = p.voxel_at(x, y, z);
                proof {
                    lemma_flat_cell(x as int, y as int, z as int, n);
                    assert(p.stored(voxels@.len() as int) == bounds);
                }
                let voxel = f(bounds);
                voxels.push(voxel);
                z = z + 1;
            }
            assert(flat(x as int, y + 1, 0, n) == flat(x as int, y as int, n, n))
                by (nonlinear_arith);
            y = y + 1;
        }
        assert(flat(x + 1, 0, 0, n) == flat(x as int, n, 0, n)) by (nonlinear_arith);
        x = x + 1;
    }
    assert(flat(n, 0, 0, n) == volume(n)) by (nonlinear_arith);
    T { position: *p, voxels }
}

/// An iterator for the bounds of the voxels inside a chunk, `x` changing
/// fastest and `z` slowest.
pub struct VoxelBounds<'a> {
    chunk: &'a position::T,
    current: Point3<u32>,
    done: bool,
}

impl<'a> View for VoxelBounds<'a> {
    type V = Seq<bounds::T>;

    /// The bounds that are still to come, the next one first.
    closed spec fn view(&self) -> Seq<bounds::T> {
        Self::all(*self.chunk).skip(self.place())
    }
}

impl<'a> VoxelBounds<'a> {
    /// The bounds of all the voxels of the chunk at `chunk`, in the
    /// iterator's order.
    pub open spec fn all(chunk: position::T) -> Seq<bounds::T> {
        Seq::new(volume(chunk.samples()) as nat, |i: int| chunk.swept(i))
    }

    /// The chunk whose voxels the iterator goes through.
    pub closed spec fn chunk(&self) -> position::T {
        *self.chunk
    }

    /// How many bounds the iterator has given out.
    spec fn place(&self) -> int {
        if self.done {
            volume(self.chunk.samples())
        } else {
            flat(
                self.current.z as int,
                self.current.y as int,
                self.current.x as int,
                self.chunk.samples(),
            )
        }
    }

    /// What every iterator satisfies.
    pub closed spec fn well_formed(&self) -> bool {
        &&& self.chunk.valid()
        &&& !self.done ==> {
            &&& self.current.x < self.chunk.samples()
            &&& self.current.y < self.chunk.samples()
            &&& self.current.z < self.chunk.samples()
        }
    }

    /// An iterator that has all the bounds of the chunk before it.
    pub fn new<'b: 'a>(chunk: &'b position::T) -> (iter: Self)
        requires
            chunk.valid(),
        ensures
            iter.well_formed(),
            iter.chunk() == *chunk,
            iter@ == Self::all(*chunk),
    {
        proof {
            position::lemma_samples_bounds(chunk.lg_samples() as nat);
        }
        let iter = VoxelBounds { chunk, current: Point3::new(0, 0, 0), done: false };
        assert(iter.place() == 0) by (nonlinear_arith)
            requires
                iter.place() == flat(0, 0, 0, chunk.samples()),
        ;
        assert(iter@ =~= Self::all(*chunk));
        iter
    }

    /// The next bounds, if any are left.
    pub fn next(&mut self) -> (r: Option<bounds::T>)
        requires
            old(self).well_formed(),
        ensures
            final(self).well_formed(),
            final(self).chunk() == old(self).chunk(),
            match r {
                Some(b) => old(self)@.len() > 0 && b == old(self)@[0] && final(self)@ == old(
                    self,
                )@.skip(1),
                None => old(self)@.len() == 0 && final(self)@ == old(self)@,
            },
    {
        if self.done {
            return None;
        }
        let samples: u32 = self.chunk.edge_samples();
        let ghost n = samples as int;
        let ghost before = self.place();
        let ghost (slowest, between, fastest) = (
            self.current.z as int,
            self.current.y as int,
            self.current.x as int,
        );
        let r = self.chunk.voxel_at(self.current.x, self.current.y, self.current.z);
        proof {
            lemma_flat_cell(
                self.current.z as int,
                self.current.y as int,
                self.current.x as int,
                n,
            );
            assert(Self::all(*self.chunk)[before] == r);
        }
        self.current.x = self.current.x + 1;
        if self.current.x >= samples {
            self.current.x = 0;
            self.current.y = self.current.y + 1;
            if self.current.y >= samples {
                self.current.y = 0;
                self.current.z = self.current.z + 1;
                if self.current.z >= samples {
                    self.done = true;
                }
            }
        }
        proof {
            lemma_flat_next(slowest, between, fastest, n);
            assert(self@ =~= old(self)@.skip(1));
        }
        Some(r)
    }
}

/// An iterator for the voxels inside a chunk, in the order in which the
/// chunk stores them: `z` changing fastest and `x` slowest.
pub struct Voxels<'a, V> {
    chunk: &'a T<V>,
    current: Point3<u32>,
    done: bool,
}

impl<'a, V> View for Voxels<'a, V> {
    type V = Seq<(bounds::T, V)>;

    /// The voxels that are still to come, each with its bounds, the next
    /// one first.
    closed spec fn view(&self) -> Seq<(bounds::T, V)> {
        Self::all(*self.chunk).skip(self.place())
    }
}

impl<'a, V> Voxels<'a, V> {
    /// All the voxels of `chunk` with their bounds, in the iterator's
    /// order.
    pub open spec fn all(chunk: T<V>) -> Seq<(bounds::T, V)> {
        Seq::new(chunk.voxels@.len(), |i: int| (chunk.position.stored(i), chunk.voxels@[i]))
    }

    /// The chunk whose voxels the iterator goes through.
    pub closed spec fn chunk(&self) -> &T<V> {
        self.chunk
    }

    /// How many voxels the iterator has given out.
    spec fn place(&self) -> int {
        if self.done {
            volume(self.chunk.position.samples())
        } else {
            flat(
                self.current.x as int,
                self.current.y as int,
                self.current.z as int,
                self.chunk.position.samples(),
            )
        }
    }

    /// What every iterator satisfies.
    pub closed spec fn well_formed(&self) -> bool {
        &&& self.chunk.well_formed()
        &&& !self.done ==> {
            &&& self.current.x < self.chunk.position.samples()
            &&& self.current.y < self.chunk.position.samples()
            &&& self.current.z < self.chunk.position.samples()
        }
    }

    /// An iterator that has all the voxels of the chunk before it.
    pub fn new<'b: 'a>(chunk: &'b T<V>) -> (iter: Self)
        requires
            chunk.well_formed(),
        ensures
            iter.well_formed(),
            iter.chunk() == chunk,
            iter@ == Self::all(*chunk),
    {
        proof {
            position::lemma_samples_bounds(chunk.position.lg_samples() as nat);
        }
        let iter = Voxels { chunk, current: Point3::new(0, 0, 0), done: false };
        assert(iter.place() == 0) by (nonlinear_arith)
            requires
                iter.place() == flat(0, 0, 0, chunk.position.samples()),
        ;
        assert(iter@ =~= Self::all(*chunk));
        iter
    }
}

impl<'a, V: Copy> Voxels<'a, V> {
    /// The next voxel and its bounds, if any are left.
    pub fn next(&mut self) -> (r: Option<(bounds::T, V)>)
        requires
            old(self).well_formed(),
        ensures
            final(self).well_formed(),
            final(self).chunk() == old(self).chunk(),
            match r {
                Some(item) => old(self)@.len() > 0 && item == old(self)@[0] && final(self)@
                    == old(self)@.skip(1),
                None => old(self)@.len() == 0 && final(self)@ == old(self)@,
            },
    {
        if self.done {
            return None;
        }
        let samples: u32 = self.chunk.position.edge_samples();
        let ghost n = samples as int;
        let ghost before = self.place();
        let ghost (slowest, between, fastest) = (
            self.current.x as int,
            self.current.y as int,
            self.current.z as int,
        );
        let bounds = self.chunk.position.voxel_at(self.current.x, self.current.y, self.current.z);
        let voxel = *self.chunk.get(
            &Point3::new(self.current.x as i32, self.current.y as i32, self.current.z as i32),
        );
        proof {
            lemma_flat_cell(
                self.current.x as int,
                self.current.y as int,
                self.current.z as int,
                n,
            );
            assert(Self::all(*self.chunk)[before] == (bounds, voxel));
        }
        self.current.z = self.current.z + 1;
        if self.current.z >= samples {
            self.current.z = 0;
            self.current.y = self.current.y + 1;
            if self.current.y >= samples {
                self.current.y = 0;
                self.current.x = self.current.x + 1;
                if self.current.x >= samples {
                    self.done = true;
                }
            }
        }
        proof {
            lemma_flat_next(slowest, between, fastest, n);
            assert(self@ =~= old(self)@.skip(1));
        }
        Some((bounds, voxel))
    }
}

} // verus!
