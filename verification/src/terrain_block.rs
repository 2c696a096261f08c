//! Small blocks of terrain: their size, their sampling at each level of
//! detail, and the mesh that is made of one.

use crate::bounds;
use crate::entity::EntityId;
use crate::error::Error;
use crate::geometry::{copy_of, Aabb3, Point3, Vector3};
use crate::lod::LODIndex;
use crate::serialize::{
    array_at,
    array_words,
    bytes_of,
    emit_array,
    lemma_array_at_words,
    lemma_array_round_trip,
    lemma_bytes_round_trip,
    lemma_words_of_is_bytes,
    of_bytes,
    read_array,
    to_bytes,
    words_of,
};
use vstd::prelude::*;

verus! {

/// lg(WIDTH)
pub const LG_WIDTH: i16 = 3;

/// The width of a block of terrain.
pub const WIDTH: i32 = 8;

/// lg(EDGE_SAMPLES)
pub const LG_EDGE_SAMPLES: [u16; 4] = [5, 2, 1, 0];

/// The number of voxels along an axis within a block, indexed by LOD.
pub const EDGE_SAMPLES: [u16; 4] = [32, 4, 2, 1];

/// The width of a voxel within a block, indexed by LOD.
pub const LG_SAMPLE_SIZE: [i16; 4] = [-2, 1, 2, 3];

/// lg of the number of voxels along an axis of a block at `lod`.
pub open spec fn lg_edge_samples(lod: LODIndex) -> int {
    if lod.0 == 0 {
        5
    } else if lod.0 == 1 {
        2
    } else if lod.0 == 2 {
        1
    } else {
        0
    }
}

/// The number of voxels along an axis of a block at `lod`.
pub open spec fn edge_samples(lod: LODIndex) -> int {
    if lod.0 == 0 {
        32
    } else if lod.0 == 1 {
        4
    } else if lod.0 == 2 {
        2
    } else {
        1
    }
}

/// lg of the width of a voxel of a block at `lod`: voxels times their
/// width make up the block's width.
pub open spec fn lg_sample_size(lod: LODIndex) -> int {
    LG_WIDTH - lg_edge_samples(lod)
}

/// Computes [`lg_edge_samples`].
pub fn lg_edge_samples_of(lod: LODIndex) -> (r: u16)
    requires
        lod.valid(),
    ensures
        r == lg_edge_samples(lod),
{
    LG_EDGE_SAMPLES[lod.0 as usize]
}

/// Computes [`edge_samples`].
pub fn edge_samples_of(lod: LODIndex) -> (r: u16)
    requires
        lod.valid(),
    ensures
        r == edge_samples(lod),
{
    EDGE_SAMPLES[lod.0 as usize]
}

/// Computes [`lg_sample_size`].
pub fn lg_sample_size_of(lod: LODIndex) -> (r: i16)
    requires
        lod.valid(),
    ensures
        r == lg_sample_size(lod),
{
    LG_SAMPLE_SIZE[lod.0 as usize]
}

/// `[T; 3]`, with named corners.
#[derive(Debug, PartialEq, Eq, Structural)]
pub struct Triangle<T> {
    pub v1: T,
    pub v2: T,
    pub v3: T,
}

impl<T: Copy> Copy for Triangle<T> {

}

impl<T: Copy> Clone for Triangle<T> {
    fn clone(&self) -> (t: Self)
        ensures
            t == *self,
    {
        *self
    }
}

/// Construct a triangle.
pub fn tri<T>(v1: T, v2: T, v3: T) -> (t: Triangle<T>)
    ensures
        t == (Triangle { v1, v2, v3 }),
{
    Triangle { v1, v2, v3 }
}

/// What a block of terrain holds: four arrays of per-triangle data.
pub struct Mesh<S> {
    pub vertex_coordinates: Seq<Triangle<Point3<S>>>,
    pub normals: Seq<Triangle<Vector3<S>>>,
    pub ids: Seq<EntityId>,
    pub bounds: Seq<(EntityId, Aabb3<S>)>,
}

impl<S> Mesh<S> {
    /// Whether the four arrays describe the same triangles: they are
    /// equally long.
    pub open spec fn well_formed(self) -> bool {
        &&& self.normals.len() == self.vertex_coordinates.len()
        &&& self.ids.len() == self.vertex_coordinates.len()
        &&& self.bounds.len() == self.vertex_coordinates.len()
    }
}

/// A small contiguous chunk of terrain, as a mesh of triangles.
///
/// The four arrays are ordered the same way: entry `i` of each describes
/// triangle `i`.
#[derive(Debug, PartialEq, Eq)]
pub struct TerrainBlock<S> {
    /// Position of each vertex.
    pub vertex_coordinates: Vec<Triangle<Point3<S>>>,
    /// Vertex normals.
    pub normals: Vec<Triangle<Vector3<S>>>,
    /// Entity IDs for each triangle.
    pub ids: Vec<EntityId>,
    /// Per-triangle bounding boxes.
    pub bounds: Vec<(EntityId, Aabb3<S>)>,
}

impl<S: Copy> Clone for TerrainBlock<S> {
    fn clone(&self) -> (block: Self)
        ensures
            block@ == self@,
    {
        TerrainBlock {
            vertex_coordinates: copy_of(&self.vertex_coordinates),
            normals: copy_of(&self.normals),
            ids: copy_of(&self.ids),
            bounds: copy_of(&self.bounds),
        }
    }
}

impl<S> View for TerrainBlock<S> {
    type V = Mesh<S>;

    open spec fn view(&self) -> Mesh<S> {
        Mesh {
            vertex_coordinates: self.vertex_coordinates@,
            normals: self.normals@,
            ids: self.ids@,
            bounds: self.bounds@,
        }
    }
}

impl<S> TerrainBlock<S> {
    /// Whether the four arrays describe the same triangles: they are
    /// equally long.
    pub open spec fn well_formed(&self) -> bool {
        self@.well_formed()
    }

    /// Construct an empty `TerrainBlock`.
    pub fn empty() -> (block: TerrainBlock<S>)
        ensures
            block.well_formed(),
            block.vertex_coordinates@.len() == 0,
    {
        TerrainBlock {
            vertex_coordinates: Vec::new(),
            normals: Vec::new(),
            ids: Vec::new(),
            bounds: Vec::new(),
        }
    }

    /// The block made of the four arrays, or `Malformed` where they differ
    /// in length.
    pub fn of_arrays(
        vertex_coordinates: Vec<Triangle<Point3<S>>>,
        normals: Vec<Triangle<Vector3<S>>>,
        ids: Vec<EntityId>,
        bounds: Vec<(EntityId, Aabb3<S>)>,
    ) -> (r: Result<TerrainBlock<S>, Error>)
        ensures
            match r {
                Ok(block) => {
                    &&& block.well_formed()
                    &&& block.vertex_coordinates == vertex_coordinates
                    &&& block.normals == normals
                    &&& block.ids == ids
                    &&& block.bounds == bounds
                },
                Err(e) => {
                    &&& e == Error::Malformed
                    &&& !(Mesh {
                        vertex_coordinates: vertex_coordinates@,
                        normals: normals@,
                        ids: ids@,
                        bounds: bounds@,
                    }).well_formed()
                },
            },
    {
        let n = vertex_coordinates.len();
        if normals.len() != n || ids.len() != n || bounds.len() != n {
            return Err(Error::Malformed);
        }
        Ok(TerrainBlock { vertex_coordinates, normals, ids, bounds })
    }

    /// Adds one triangle to the block: its corners, its normals, its id
    /// and its bounding box, each at the end of its array.
    pub fn push(
        &mut self,
        vertex_coordinates: Triangle<Point3<S>>,
        normals: Triangle<Vector3<S>>,
        id: EntityId,
        bounds: Aabb3<S>,
    )
        requires
            old(self).well_formed(),
        ensures
            final(self).well_formed(),
            final(self)@ == (Mesh {
                vertex_coordinates: old(self)@.vertex_coordinates.push(vertex_coordinates),
                normals: old(self)@.normals.push(normals),
                ids: old(self)@.ids.push(id),
                bounds: old(self)@.bounds.push((id, bounds)),
            }),
    {
        self.vertex_coordinates.push(vertex_coordinates);
        self.normals.push(normals);
        self.ids.push(id);
        self.bounds.push((id, bounds));
    }

    /// The number of triangles in the block.
    pub fn len(&self) -> (n: usize)
        requires
            self.well_formed(),
        ensures
            n == self.ids@.len(),
    {
        self.ids.len()
    }
}

/// A block as words: its four arrays, one after the other, each with the
/// number of its items before it. Coordinates stand as the bits of their
/// numbers.
pub open spec fn wire(mesh: Mesh<u32>) -> Seq<u32> {
    array_words(mesh.vertex_coordinates) + array_words(mesh.normals) + array_words(mesh.ids)
        + array_words(mesh.bounds)
}

/// The block that the words `source` stand for; nothing where they end
/// before the fourth array does or go on after it, or where the arrays
/// differ in length.
pub open spec fn parsed(source: Seq<u32>) -> Option<Mesh<u32>> {
    match array_at::<Triangle<Point3<u32>>>(source, 0) {
        None => None,
        Some((vertex_coordinates, normals_at)) => match array_at::<Triangle<Vector3<u32>>>(
            source,
            normals_at,
        ) {
            None => None,
            Some((normals, ids_at)) => match array_at::<EntityId>(source, ids_at) {
                None => None,
                Some((ids, bounds_at)) => match array_at::<(EntityId, Aabb3<u32>)>(
                    source,
                    bounds_at,
                ) {
                    None => None,
                    Some((bounds, end)) => {
                        let mesh = Mesh { vertex_coordinates, normals, ids, bounds };
                        if end == source.len() && mesh.well_formed() {
                            Some(mesh)
                        } else {
                            None
                        }
                    },
                },
            },
        },
    }
}

/// The words of a block stand for that block.
pub proof fn lemma_wire_round_trip(mesh: Mesh<u32>)
    requires
        mesh.well_formed(),
        mesh.ids.len() <= u32::MAX,
    ensures
        parsed(wire(mesh)) == Some(mesh),
{
    let a = array_words(mesh.vertex_coordinates);
    let b = array_words(mesh.normals);
    let c = array_words(mesh.ids);
    let d = array_words(mesh.bounds);
    let source = wire(mesh);
    let none = Seq::<u32>::empty();
    lemma_array_round_trip(none, mesh.vertex_coordinates, b + c + d);
    assert(source =~= none + a + (b + c + d));
    lemma_array_round_trip(a, mesh.normals, c + d);
    assert(source =~= a + b + (c + d));
    lemma_array_round_trip(a + b, mesh.ids, d);
    assert(source =~= a + b + c + d);
    lemma_array_round_trip(a + b + c, mesh.bounds, none);
    assert(source =~= a + b + c + d + none);
}

/// Words that stand for a block are the words of that block, and of no
/// other: a block is read from nothing but what it was written as.
pub proof fn lemma_parsed_is_wire(source: Seq<u32>)
    requires
        parsed(source) is Some,
    ensures
        parsed(source)->0.well_formed(),
        wire(parsed(source)->0) == source,
{
    let (vertex_coordinates, normals_at) = array_at::<Triangle<Point3<u32>>>(source, 0)->0;
    let (normals, ids_at) = array_at::<Triangle<Vector3<u32>>>(source, normals_at)->0;
    let (ids, bounds_at) = array_at::<EntityId>(source, ids_at)->0;
    let (bounds, end) = array_at::<(EntityId, Aabb3<u32>)>(source, bounds_at)->0;
    lemma_array_at_words::<Triangle<Point3<u32>>>(source, 0);
    lemma_array_at_words::<Triangle<Vector3<u32>>>(source, normals_at);
    lemma_array_at_words::<EntityId>(source, ids_at);
    lemma_array_at_words::<(EntityId, Aabb3<u32>)>(source, bounds_at);
    assert(source =~= source.subrange(0, normals_at) + source.subrange(normals_at, ids_at)
        + source.subrange(ids_at, bounds_at) + source.subrange(bounds_at, end));
}

/// The block that the bytes `source` stand for; nothing where they are
/// not whole words or the words stand for no block.
pub open spec fn parsed_bytes(source: Seq<u8>) -> Option<Mesh<u32>> {
    match words_of(source) {
        None => None,
        Some(words) => parsed(words),
    }
}

/// The bytes of a block stand for that block.
pub proof fn lemma_bytes_wire_round_trip(mesh: Mesh<u32>)
    requires
        mesh.well_formed(),
        mesh.ids.len() <= u32::MAX,
    ensures
        parsed_bytes(bytes_of(wire(mesh))) == Some(mesh),
{
    lemma_bytes_round_trip(wire(mesh));
    lemma_wire_round_trip(mesh);
}

/// Bytes that stand for a block are the bytes of that block, and of no
/// other.
pub proof fn lemma_parsed_bytes_is_wire(source: Seq<u8>)
    requires
        parsed_bytes(source) is Some,
    ensures
        parsed_bytes(source)->0.well_formed(),
        bytes_of(wire(parsed_bytes(source)->0)) == source,
{
    lemma_words_of_is_bytes(source);
    lemma_parsed_is_wire(words_of(source)->0);
}

impl TerrainBlock<u32> {
    /// The block as bytes, as it is sent.
    pub fn to_bytes(&self) -> (bytes: Vec<u8>)
        requires
            self.vertex_coordinates@.len() <= u32::MAX,
            self.normals@.len() <= u32::MAX,
            self.ids@.len() <= u32::MAX,
            self.bounds@.len() <= u32::MAX,
        ensures
            bytes@ == bytes_of(wire(self@)),
    {
        let mut words: Vec<u32> = Vec::new();
        self.emit(&mut words);
        assert(words@ =~= wire(self@));
        to_bytes(&words)
    }

    /// Reads the block that the bytes `source` stand for, as they were
    /// received. Bytes that stand for no block are `Malformed`.
    pub fn of_bytes(source: &[u8]) -> (r: Result<TerrainBlock<u32>, Error>)
        ensures
            match r {
                Ok(block) => parsed_bytes(source@) == Some(block@),
                Err(e) => e == Error::Malformed && parsed_bytes(source@) is None,
            },
    {
        match of_bytes(source) {
            Err(e) => Err(e),
            Ok(words) => TerrainBlock::read(&words),
        }
    }

    /// Appends the block to `dest`, as words.
    pub fn emit(&self, dest: &mut Vec<u32>)
        requires
            self.vertex_coordinates@.len() <= u32::MAX,
            self.normals@.len() <= u32::MAX,
            self.ids@.len() <= u32::MAX,
            self.bounds@.len() <= u32::MAX,
        ensures
            final(dest)@ == old(dest)@ + wire(self@),
    {
        emit_array(&self.vertex_coordinates, dest);
        emit_array(&self.normals, dest);
        emit_array(&self.ids, dest);
        emit_array(&self.bounds, dest);
        assert(dest@ =~= old(dest)@ + wire(self@));
    }

    /// Reads the block that the words `source` stand for. Words that stand
    /// for no block are `Malformed`.
    pub fn read(source: &Vec<u32>) -> (r: Result<TerrainBlock<u32>, Error>)
        ensures
            match r {
                Ok(block) => parsed(source@) == Some(block@),
                Err(e) => e == Error::Malformed && parsed(source@) is None,
            },
    {
        let (vertex_coordinates, normals_at) = match read_array::<Triangle<Point3<u32>>>(
            source,
            0,
        ) {
            Some(found) => found,
            None => {
                return Err(Error::Malformed);
            },
        };
        let (normals, ids_at) = match read_array::<Triangle<Vector3<u32>>>(source, normals_at) {
            Some(found) => found,
            None => {
                return Err(Error::Malformed);
            },
        };
        let (ids, bounds_at) = match read_array::<EntityId>(source, ids_at) {
            Some(found) => found,
            None => {
                return Err(Error::Malformed);
            },
        };
        let (bounds, end) = match read_array::<(EntityId, Aabb3<u32>)>(source, bounds_at) {
            Some(found) => found,
            None => {
                return Err(Error::Malformed);
            },
        };
        if end != source.len() {
            return Err(Error::Malformed);
        }
        TerrainBlock::of_arrays(vertex_coordinates, normals, ids, bounds)
    }
}

/// The cube that the block at `position` takes up.
pub open spec fn footprint(position: Point3<i32>) -> bounds::T {
    bounds::T { x: position.x, y: position.y, z: position.z, lg_size: LG_WIDTH }
}

} // verus!
