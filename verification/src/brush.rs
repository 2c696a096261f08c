//! Region-shaped edits of a voxel tree.

use crate::bounds;
use crate::geometry::Point3;
use crate::tree;
use vstd::prelude::*;

verus! {

/// A box of cubes of one scale: those with `low <= (x, y, z) < high` along
/// each axis.
#[derive(Debug, PartialEq, Eq, Copy, Clone, Structural)]
pub struct Bounds {
    pub low: Point3<i32>,
    pub high: Point3<i32>,
}

/// A brush: the edit to apply, the cubes to apply it to, and their scale.
pub struct T<E> {
    /// The cubes that the brush touches.
    pub bounds: Bounds,
    /// What the brush makes of the voxel of one cube.
    pub edit: E,
    /// The scale of the cubes that the brush touches.
    pub lg_size: i16,
}

/// Whether `a` comes before `b` when cubes are listed with `x` changing
/// slowest and `z` fastest.
pub open spec fn precedes(a: bounds::T, b: bounds::T) -> bool {
    a.x < b.x || (a.x == b.x && (a.y < b.y || (a.y == b.y && a.z < b.z)))
}

impl<E> T<E> {
    /// Whether the brush touches `b`.
    pub open spec fn touches(&self, b: bounds::T) -> bool {
        &&& b.lg_size == self.lg_size
        &&& self.bounds.low.x <= b.x < self.bounds.high.x
        &&& self.bounds.low.y <= b.y < self.bounds.high.y
        &&& self.bounds.low.z <= b.z < self.bounds.high.z
    }
}

/// Whether `after` holds for `b` what the edit makes of the voxel that
/// `before` held for `b` or, where it held none, of the voxel that
/// `generate` gives for `b`.
pub open spec fn edited<V, E: Fn(&V) -> V, G: Fn(&bounds::T) -> V>(
    edit: E,
    generate: G,
    before: Map<bounds::T, V>,
    after: Map<bounds::T, V>,
    b: bounds::T,
) -> bool {
    &&& after.contains_key(b)
    &&& exists|prior: V|
        {
            &&& match before.get(b) {
                Some(v) => prior == v,
                None => call_ensures(generate, (&b,), prior),
            }
            &&& #[trigger] call_ensures(edit, (&prior,), after[b])
        }
}

/// Whether the voxels `after` are the voxels `before` with the brush
/// applied once: every touched cube edited, every other one as it was.
pub open spec fn brushed<V, E: Fn(&V) -> V, G: Fn(&bounds::T) -> V>(
    brush: T<E>,
    generate: G,
    before: Map<bounds::T, V>,
    after: Map<bounds::T, V>,
) -> bool {
    &&& forall|b: bounds::T| !brush.touches(b) ==> after.get(b) == before.get(b)
    &&& forall|b: bounds::T|
        brush.touches(b) ==> edited(brush.edit, generate, before, after, b)
}

/// Whether `changed` lists the cubes that the brush touches, each once,
/// with `x` changing slowest and `z` fastest.
pub open spec fn reports<E>(brush: T<E>, changed: Seq<bounds::T>) -> bool {
    &&& forall|i: int| 0 <= i < changed.len() ==> brush.touches(#[trigger] changed[i])
    &&& forall|b: bounds::T| brush.touches(b) ==> changed.contains(b)
    &&& forall|i: int, j: int|
        0 <= i < j < changed.len() ==> precedes(#[trigger] changed[i], #[trigger] changed[j])
}

/// Whether the brush touches a cube that `q` holds, or `q` itself.
pub open spec fn covers<E>(brush: T<E>, q: bounds::T) -> bool {
    exists|c: bounds::T| #[trigger] brush.touches(c) && c.within(q)
}

/// Whether the brush touches a cube outside the world of half-width
/// `2^lg_half_width`.
pub open spec fn overflows<E>(brush: T<E>, lg_half_width: int) -> bool {
    exists|c: bounds::T| #[trigger] brush.touches(c) && !c.near_origin(lg_half_width)
}

/// Whether `after` has the size and the nodes of the tree `before` once
/// the brush accessed every cube that it touches. The tree has doubled
/// until it holds them all, and no further. Its nodes are those that it
/// had, those of the touched cubes and of every cube of the tree that
/// holds one, and those of the eight cubes that touch the origin at each
/// scale that a doubling added.
pub open spec fn accessed<V, E>(brush: T<E>, before: tree::T<V>, after: tree::T<V>) -> bool {
    &&& before.lg_size() <= after.lg_size()
    &&& !overflows(brush, after.lg_size())
    &&& after.lg_size() == before.lg_size() || overflows(brush, after.lg_size() - 1)
    &&& forall|q: bounds::T| #[trigger]
        after.has_node(q) == {
            ||| before.has_node(q)
            ||| q.lg_size <= after.lg_size() && covers(brush, q)
            ||| q.rooted(0) && before.lg_size() < q.lg_size <= after.lg_size()
        }
}

/// Whether editing an edited voxel again gives the same voxel.
pub open spec fn idempotent<V, E: Fn(&V) -> V>(edit: E) -> bool {
    forall|v: V, once: V, twice: V|
        #![trigger call_ensures(edit, (&v,), once), call_ensures(edit, (&once,), twice)]
        call_ensures(edit, (&v,), once) && call_ensures(edit, (&once,), twice) ==> twice == once
}

/// Applying a brush with an idempotent edit twice in a row leaves the
/// voxels that applying it once leaves.
pub proof fn lemma_brush_twice<V, E: Fn(&V) -> V, G: Fn(&bounds::T) -> V>(
    brush: T<E>,
    generate: G,
    before: Map<bounds::T, V>,
    once: Map<bounds::T, V>,
    twice: Map<bounds::T, V>,
)
    requires
        brushed(brush, generate, before, once),
        brushed(brush, generate, once, twice),
        idempotent(brush.edit),
    ensures
        twice == once,
{
    assert forall|b: bounds::T| twice.get(b) == once.get(b) by {
        if brush.touches(b) {
            assert(edited(brush.edit, generate, before, once, b));
            assert(edited(brush.edit, generate, once, twice, b));
            let first = choose|prior: V|
                {
                    &&& match before.get(b) {
                        Some(v) => prior == v,
                        None => call_ensures(generate, (&b,), prior),
                    }
                    &&& #[trigger] call_ensures(brush.edit, (&prior,), once[b])
                };
            let second = choose|prior: V|
                {
                    &&& match once.get(b) {
                        Some(v) => prior == v,
                        None => call_ensures(generate, (&b,), prior),
                    }
                    &&& #[trigger] call_ensures(brush.edit, (&prior,), twice[b])
                };
            assert(second == once[b]);
            assert(call_ensures(brush.edit, (&first,), once[b]));
            assert(call_ensures(brush.edit, (&once[b],), twice[b]));
        }
    }
    assert(twice =~= once) by {
        assert forall|b: bounds::T| twice.contains_key(b) == once.contains_key(b) by {
            assert(twice.get(b) == once.get(b));
        }
        assert forall|b: bounds::T| twice.contains_key(b) implies twice[b] == once[b] by {
            assert(twice.get(b) == once.get(b));
        }
    }
}

/// Whether the brush touches `b` and `b` comes before the cube at
/// `(x, y, z)`.
spec fn done<E>(brush: T<E>, b: bounds::T, x: int, y: int, z: int) -> bool {
    brush.touches(b) && (b.x < x || (b.x == x && (b.y < y || (b.y == y && b.z < z))))
}

/// What holds while the brush is being applied, with the cube at
/// `(x, y, z)` as the next one to edit.
spec fn underway<V, E: Fn(&V) -> V, G: Fn(&bounds::T) -> V>(
    brush: T<E>,
    generate: G,
    before: Map<bounds::T, V>,
    now: Map<bounds::T, V>,
    changed: Seq<bounds::T>,
    x: int,
    y: int,
    z: int,
) -> bool {
    &&& forall|b: bounds::T| !#[trigger] done(brush, b, x, y, z) ==> now.get(b) == before.get(b)
    &&& forall|b: bounds::T| #[trigger]
        done(brush, b, x, y, z) ==> edited(brush.edit, generate, before, now, b)
    &&& forall|i: int| 0 <= i < changed.len() ==> done(brush, #[trigger] changed[i], x, y, z)
    &&& forall|b: bounds::T| #[trigger] done(brush, b, x, y, z) ==> changed.contains(b)
    &&& forall|i: int, j: int|
        0 <= i < j < changed.len() ==> precedes(#[trigger] changed[i], #[trigger] changed[j])
}

/// Whether the brush has edited a cube that `q` holds, or `q` itself.
spec fn covered<E>(brush: T<E>, q: bounds::T, x: int, y: int, z: int) -> bool {
    exists|c: bounds::T| #[trigger] done(brush, c, x, y, z) && c.within(q)
}

/// Whether the brush has edited a cube outside the world of half-width
/// `2^lg_half_width`.
spec fn overflowed<E>(brush: T<E>, lg_half_width: int, x: int, y: int, z: int) -> bool {
    exists|c: bounds::T| #[trigger] done(brush, c, x, y, z) && !c.near_origin(lg_half_width)
}

/// What holds of the size and the nodes of the tree while the brush is
/// being applied, with the cube at `(x, y, z)` as the next one to edit.
spec fn spreading<V, E>(
    brush: T<E>,
    before: tree::T<V>,
    now: tree::T<V>,
    x: int,
    y: int,
    z: int,
) -> bool {
    &&& before.lg_size() <= now.lg_size()
    &&& !overflowed(brush, now.lg_size(), x, y, z)
    &&& now.lg_size() == before.lg_size() || overflowed(brush, now.lg_size() - 1, x, y, z)
    &&& forall|q: bounds::T| #[trigger]
        now.has_node(q) == {
            ||| before.has_node(q)
            ||| q.lg_size <= now.lg_size() && covered(brush, q, x, y, z)
            ||| q.rooted(0) && before.lg_size() < q.lg_size <= now.lg_size()
        }
}

/// Moving the cursor to a place before which the same cubes come keeps
/// the size and the nodes of the tree as they are described.
proof fn lemma_spreading_moves<V, E>(
    brush: T<E>,
    before: tree::T<V>,
    now: tree::T<V>,
    from: (int, int, int),
    to: (int, int, int),
)
    requires
        spreading(brush, before, now, from.0, from.1, from.2),
        forall|b: bounds::T|
            done(brush, b, from.0, from.1, from.2) == done(brush, b, to.0, to.1, to.2),
    ensures
        spreading(brush, before, now, to.0, to.1, to.2),
{
    assert forall|l: int|
        overflowed(brush, l, from.0, from.1, from.2) == overflowed(brush, l, to.0, to.1, to.2) by {
        if overflowed(brush, l, from.0, from.1, from.2) {
            let c = choose|c: bounds::T| #[trigger]
                done(brush, c, from.0, from.1, from.2) && !c.near_origin(l);
            assert(done(brush, c, to.0, to.1, to.2));
        }
        if overflowed(brush, l, to.0, to.1, to.2) {
            let c = choose|c: bounds::T| #[trigger]
                done(brush, c, to.0, to.1, to.2) && !c.near_origin(l);
            assert(done(brush, c, from.0, from.1, from.2));
        }
    }
    assert forall|q: bounds::T|
        covered(brush, q, from.0, from.1, from.2) == covered(brush, q, to.0, to.1, to.2) by {
        if covered(brush, q, from.0, from.1, from.2) {
            let c = choose|c: bounds::T| #[trigger]
                done(brush, c, from.0, from.1, from.2) && c.within(q);
            assert(done(brush, c, to.0, to.1, to.2));
        }
        if covered(brush, q, to.0, to.1, to.2) {
            let c = choose|c: bounds::T| #[trigger]
                done(brush, c, to.0, to.1, to.2) && c.within(q);
            assert(done(brush, c, from.0, from.1, from.2));
        }
    }
}

/// Accessing the cube under the cursor and moving on keeps the size and
/// the nodes of the tree as they are described.
proof fn lemma_spreading_steps<V, E>(
    brush: T<E>,
    before: tree::T<V>,
    earlier: tree::T<V>,
    now: tree::T<V>,
    cube: bounds::T,
)
    requires
        spreading(brush, before, earlier, cube.x as int, cube.y as int, cube.z as int),
        brush.touches(cube),
        earlier.accessed(now, cube),
    ensures
        spreading(brush, before, now, cube.x as int, cube.y as int, cube.z + 1),
{
    let (x, y, z) = (cube.x as int, cube.y as int, cube.z as int);
    assert(done(brush, cube, x, y, z + 1));
    assert forall|c: bounds::T| #[trigger] done(brush, c, x, y, z + 1) implies c.near_origin(
        now.lg_size(),
    ) by {
        if c != cube {
            assert(done(brush, c, x, y, z));
            assert(c.near_origin(earlier.lg_size()));
            bounds::lemma_near_origin_grows(c, earlier.lg_size(), now.lg_size());
        }
    }
    if now.lg_size() != before.lg_size() {
        if now.lg_size() == earlier.lg_size() {
            let c = choose|c: bounds::T| #[trigger]
                done(brush, c, x, y, z) && !c.near_origin(earlier.lg_size() - 1);
            assert(done(brush, c, x, y, z + 1));
        } else {
            assert(!cube.near_origin(now.lg_size() - 1));
        }
    }
    assert forall|q: bounds::T| #[trigger]
        now.has_node(q) == {
            ||| before.has_node(q)
            ||| q.lg_size <= now.lg_size() && covered(brush, q, x, y, z + 1)
            ||| q.rooted(0) && before.lg_size() < q.lg_size <= now.lg_size()
        } by {
        assert(earlier.has_node(q) == {
            ||| before.has_node(q)
            ||| q.lg_size <= earlier.lg_size() && covered(brush, q, x, y, z)
            ||| q.rooted(0) && before.lg_size() < q.lg_size <= earlier.lg_size()
        });
        if covered(brush, q, x, y, z) {
            let c = choose|c: bounds::T| #[trigger] done(brush, c, x, y, z) && c.within(q);
            assert(done(brush, c, x, y, z + 1));
            if q.lg_size > earlier.lg_size() {
                bounds::lemma_above_world(c, q, earlier.lg_size());
            }
        }
        if covered(brush, q, x, y, z + 1) {
            let c = choose|c: bounds::T| #[trigger] done(brush, c, x, y, z + 1) && c.within(q);
            if c != cube {
                assert(done(brush, c, x, y, z));
                if q.lg_size > earlier.lg_size() {
                    bounds::lemma_above_world(c, q, earlier.lg_size());
                }
            }
        }
    }
}

/// Moving the cursor to a place before which the same cubes come keeps
/// the brush underway.
proof fn lemma_underway_moves<V, E: Fn(&V) -> V, G: Fn(&bounds::T) -> V>(
    brush: T<E>,
    generate: G,
    before: Map<bounds::T, V>,
    now: Map<bounds::T, V>,
    changed: Seq<bounds::T>,
    from: (int, int, int),
    to: (int, int, int),
)
    requires
        underway(brush, generate, before, now, changed, from.0, from.1, from.2),
        forall|b: bounds::T|
            done(brush, b, from.0, from.1, from.2) == done(brush, b, to.0, to.1, to.2),
    ensures
        underway(brush, generate, before, now, changed, to.0, to.1, to.2),
{
    assert forall|b: bounds::T| !#[trigger] done(brush, b, to.0, to.1, to.2) implies now.get(b)
        == before.get(b) by {
        assert(!done(brush, b, from.0, from.1, from.2));
    }
    assert forall|b: bounds::T| #[trigger] done(brush, b, to.0, to.1, to.2) implies edited(
        brush.edit,
        generate,
        before,
        now,
        b,
    ) && changed.contains(b) by {
        assert(done(brush, b, from.0, from.1, from.2));
    }
    assert forall|i: int| 0 <= i < changed.len() implies done(
        brush,
        #[trigger] changed[i],
        to.0,
        to.1,
        to.2,
    ) by {
        assert(done(brush, changed[i], from.0, from.1, from.2));
    }
}

/// Editing the cube under the cursor and moving on keeps the brush
/// underway.
proof fn lemma_underway_steps<V, E: Fn(&V) -> V, G: Fn(&bounds::T) -> V>(
    brush: T<E>,
    generate: G,
    before: Map<bounds::T, V>,
    now: Map<bounds::T, V>,
    changed: Seq<bounds::T>,
    cube: bounds::T,
    prior: V,
    voxel: V,
)
    requires
        underway(
            brush,
            generate,
            before,
            now,
            changed,
            cube.x as int,
            cube.y as int,
            cube.z as int,
        ),
        brush.touches(cube),
        match now.get(cube) {
            Some(v) => prior == v,
            None => call_ensures(generate, (&cube,), prior),
        },
        call_ensures(brush.edit, (&prior,), voxel),
    ensures
        underway(
            brush,
            generate,
            before,
            now.insert(cube, voxel),
            changed.push(cube),
            cube.x as int,
            cube.y as int,
            cube.z + 1,
        ),
{
    let (x, y, z) = (cube.x as int, cube.y as int, cube.z as int);
    let next = now.insert(cube, voxel);
    let listed = changed.push(cube);
    assert(!done(brush, cube, x, y, z));
    assert(now.get(cube) == before.get(cube));
    assert forall|b: bounds::T| !#[trigger] done(brush, b, x, y, z + 1) implies next.get(b)
        == before.get(b) by {
        assert(!done(brush, b, x, y, z));
        assert(b != cube);
    }
    assert forall|b: bounds::T| #[trigger] done(brush, b, x, y, z + 1) implies edited(
        brush.edit,
        generate,
        before,
        next,
        b,
    ) && listed.contains(b) by {
        if b == cube {
            assert(next[cube] == voxel);
            assert(call_ensures(brush.edit, (&prior,), next[b]));
            assert(listed[changed.len() as int] == cube);
        } else {
            assert(done(brush, b, x, y, z));
            assert(edited(brush.edit, generate, before, now, b));
            let p = choose|p: V|
                {
                    &&& match before.get(b) {
                        Some(v) => p == v,
                        None => call_ensures(generate, (&b,), p),
                    }
                    &&& #[trigger] call_ensures(brush.edit, (&p,), now[b])
                };
            assert(call_ensures(brush.edit, (&p,), next[b]));
            let i = choose|i: int| 0 <= i < changed.len() && changed[i] == b;
            assert(listed[i] == b);
        }
    }
    assert forall|i: int| 0 <= i < listed.len() implies done(
        brush,
        #[trigger] listed[i],
        x,
        y,
        z + 1,
    ) by {
        if i < changed.len() {
            assert(done(brush, changed[i], x, y, z));
        }
    }
    assert forall|i: int, j: int| 0 <= i < j < listed.len() implies precedes(
        #[trigger] listed[i],
        #[trigger] listed[j],
    ) by {
        if j == changed.len() {
            assert(done(brush, changed[i], x, y, z));
        } else {
            assert(precedes(changed[i], changed[j]));
        }
    }
}

impl<V> tree::T<V> {
    /// Applies `brush` to the tree.
    ///
    /// Every cube that the brush touches gets the edit of its voxel; where
    /// the tree held no voxel for it yet, the edit of what `generate` gives
    /// for it. Nothing else changes. Returns the touched cubes, whose
    /// voxels are then to be read from the tree.
    pub fn brush<E, G>(&mut self, brush: &T<E>, generate: &G) -> (changed: Vec<bounds::T>) where
        E: Fn(&V) -> V,
        G: Fn(&bounds::T) -> V,

        requires
            old(self).well_formed(),
            forall|v: V| call_requires(brush.edit, (&v,)),
            forall|b: bounds::T| call_requires(*generate, (&b,)),
        ensures
            final(self).well_formed(),
            brushed(*brush, *generate, old(self)@, final(self)@),
            reports(*brush, changed@),
            accessed(*brush, *old(self), *final(self)),
    {
        let mut changed: Vec<bounds::T> = Vec::new();
        let low = brush.bounds.low;
        let high = brush.bounds.high;
        let mut x: i32 = low.x;
        while x < high.x
            invariant
                low == brush.bounds.low,
                high == brush.bounds.high,
                low.x <= x,
                self.well_formed(),
                spreading(*brush, *old(self), *self, x as int, low.y as int, low.z as int),
                forall|v: V| call_requires(brush.edit, (&v,)),
                forall|b: bounds::T| call_requires(*generate, (&b,)),
                underway(
                    *brush,
                    *generate,
                    old(self)@,
                    self@,
                    changed@,
                    x as int,
                    low.y as int,
                    low.z as int,
                ),
            decreases high.x - x,
        {
            let mut y: i32 = low.y;
            while y < high.y
                invariant
                    low == brush.bounds.low,
                    high == brush.bounds.high,
                    low.x <= x < high.x,
                    low.y <= y,
                    self.well_formed(),
                    spreading(*brush, *old(self), *self, x as int, y as int, low.z as int),
                    forall|v: V| call_requires(brush.edit, (&v,)),
                    forall|b: bounds::T| call_requires(*generate, (&b,)),
                    underway(
                        *brush,
                        *generate,
                        old(self)@,
                        self@,
                        changed@,
                        x as int,
                        y as int,
                        low.z as int,
                    ),
                decreases high.y - y,
            {
                let mut z: i32 = low.z;
                while z < high.z
                    invariant
                        low == brush.bounds.low,
                        high == brush.bounds.high,
                        low.x <= x < high.x,
                        low.y <= y < high.y,
                        low.z <= z,
                        self.well_formed(),
                        spreading(*brush, *old(self), *self, x as int, y as int, z as int),
                        forall|v: V| call_requires(brush.edit, (&v,)),
                        forall|b: bounds::T| call_requires(*generate, (&b,)),
                        underway(
                            *brush,
                            *generate,
                            old(self)@,
                            self@,
                            changed@,
                            x as int,
                            y as int,
                            z as int,
                        ),
                    decreases high.z - z,
                {
                    let cube = bounds::T::new(x, y, z, brush.lg_size);
                    let ghost tree = *self;
                    let ghost earlier = self@;
                    let ghost listed = changed@;
                    let ghost prior: V;
                    let slot = self.get_or_create(&cube);
                    let edit = &brush.edit;
                    let voxel = match &*slot {
                        Some(held) => {
                            proof {
                                prior = *held;
                            }
                            edit(held)
                        },
                        None => {
                            let fresh = generate(&cube);
                            proof {
                                prior = fresh;
                            }
                            edit(&fresh)
                        },
                    };
                    *slot = Some(voxel);
                    changed.push(cube);
                    proof {
                        lemma_underway_steps(
                            *brush,
                            *generate,
                            old(self)@,
                            earlier,
                            listed,
                            cube,
                            prior,
                            voxel,
                        );
                        lemma_spreading_steps(*brush, *old(self), tree, *self, cube);
                    }
                    z = z + 1;
                }
                proof {
                    lemma_underway_moves(
                        *brush,
                        *generate,
                        old(self)@,
                        self@,
                        changed@,
                        (x as int, y as int, z as int),
                        (x as int, y + 1, low.z as int),
                    );
                    lemma_spreading_moves(
                        *brush,
                        *old(self),
                        *self,
                        (x as int, y as int, z as int),
                        (x as int, y + 1, low.z as int),
                    );
                }
                y = y + 1;
            }
            proof {
                lemma_underway_moves(
                    *brush,
                    *generate,
                    old(self)@,
                    self@,
                    changed@,
                    (x as int, y as int, low.z as int),
                    (x + 1, low.y as int, low.z as int),
                );
                lemma_spreading_moves(
                    *brush,
                    *old(self),
                    *self,
                    (x as int, y as int, low.z as int),
                    (x + 1, low.y as int, low.z as int),
                );
            }
            x = x + 1;
        }
        proof {
            assert forall|b: bounds::T| !brush.touches(b) implies self@.get(b) == old(self)@.get(
                b,
            ) by {
                assert(!done(*brush, b, x as int, low.y as int, low.z as int));
            }
            assert forall|b: bounds::T| brush.touches(b) implies edited(
                brush.edit,
                *generate,
                old(self)@,
                self@,
                b,
            ) && changed@.contains(b) by {
                assert(done(*brush, b, x as int, low.y as int, low.z as int));
            }
            assert forall|i: int| 0 <= i < changed.len() implies brush.touches(
                #[trigger] changed[i],
            ) by {
                assert(done(*brush, changed[i], x as int, low.y as int, low.z as int));
            }
            let (cx, cy, cz) = (x as int, low.y as int, low.z as int);
            assert forall|c: bounds::T| done(*brush, c, cx, cy, cz) == brush.touches(c) by {}
            assert forall|l: int| overflowed(*brush, l, cx, cy, cz) == overflows(*brush, l) by {
                if overflowed(*brush, l, cx, cy, cz) {
                    let c = choose|c: bounds::T| #[trigger]
                        done(*brush, c, cx, cy, cz) && !c.near_origin(l);
                    assert(brush.touches(c));
                }
                if overflows(*brush, l) {
                    let c = choose|c: bounds::T| #[trigger]
                        brush.touches(c) && !c.near_origin(l);
                    assert(done(*brush, c, cx, cy, cz));
                }
            }
            assert forall|q: bounds::T| covered(*brush, q, cx, cy, cz) == covers(*brush, q) by {
                if covered(*brush, q, cx, cy, cz) {
                    let c = choose|c: bounds::T| #[trigger]
                        done(*brush, c, cx, cy, cz) && c.within(q);
                    assert(brush.touches(c));
                }
                if covers(*brush, q) {
                    let c = choose|c: bounds::T| #[trigger] brush.touches(c) && c.within(q);
                    assert(done(*brush, c, cx, cy, cz));
                }
            }
        }
        changed
    }
}

} // verus!
