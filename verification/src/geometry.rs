//! Plain three-component points, displacements and boxes.

use vstd::prelude::*;

verus! {

/// A point in three-dimensional space.
#[derive(Debug, PartialEq, Eq, Hash, Structural)]
pub struct Point3<S> {
    pub x: S,
    pub y: S,
    pub z: S,
}

impl<S: Copy> Copy for Point3<S> {

}

impl<S: Copy> Clone for Point3<S> {
    fn clone(&self) -> (p: Self)
        ensures
            p == *self,
    {
        *self
    }
}

impl<S> Point3<S> {
    /// The point with the given coordinates.
    pub fn new(x: S, y: S, z: S) -> (p: Self)
        ensures
            p == (Point3 { x, y, z }),
    {
        Point3 { x, y, z }
    }
}

/// A displacement in three-dimensional space.
#[derive(Debug, PartialEq, Eq, Hash, Structural)]
pub struct Vector3<S> {
    pub x: S,
    pub y: S,
    pub z: S,
}

impl<S: Copy> Copy for Vector3<S> {

}

impl<S: Copy> Clone for Vector3<S> {
    fn clone(&self) -> (v: Self)
        ensures
            v == *self,
    {
        *self
    }
}

impl<S> Vector3<S> {
    /// The displacement with the given components.
    pub fn new(x: S, y: S, z: S) -> (v: Self)
        ensures
            v == (Vector3 { x, y, z }),
    {
        Vector3 { x, y, z }
    }
}

/// An axis-aligned box, given by two opposite corners.
#[derive(Debug, PartialEq, Eq, Hash, Structural)]
pub struct Aabb3<S> {
    pub min: Point3<S>,
    pub max: Point3<S>,
}

impl<S: Copy> Copy for Aabb3<S> {

}

impl<S: Copy> Clone for Aabb3<S> {
    fn clone(&self) -> (b: Self)
        ensures
            b == *self,
    {
        *self
    }
}

impl<S> Aabb3<S> {
    /// The box with the given corners.
    pub fn new(min: Point3<S>, max: Point3<S>) -> (b: Self)
        ensures
            b == (Aabb3 { min, max }),
    {
        Aabb3 { min, max }
    }
}

/// A copy of `items`.
pub fn copy_of<T: Copy>(items: &Vec<T>) -> (copy: Vec<T>)
    ensures
        copy@ == items@,
{
    let mut copy: Vec<T> = Vec::new();
    let mut i: usize = 0;
    while i < items.len()
        invariant
            i <= items@.len(),
            copy@ == items@.take(i as int),
        decreases items@.len() - i,
    {
        copy.push(items[i]);
        assert(copy@ =~= items@.take(i + 1));
        i = i + 1;
    }
    assert(items@.take(i as int) =~= items@);
    copy
}

} // verus!
