//! A sparse octree of voxels, keyed by cube address.
//!
//! The tree covers a cube centred on the origin and doubles that cube
//! whenever an address outside it is asked for. Nodes come into being on
//! first access; a node that was only passed through holds no voxel yet.
//!
//! The nodes stand in one row and name their children by their place in
//! it, so that neither a walk nor the end of a tree takes more stack for a
//! deeper tree.

use crate::bounds;
use crate::scale::{bit_at, lemma_shifted_far, lemma_shifted_step, lemma_shifted_twice, shifted};
use vstd::prelude::*;

verus! {

/// Largest scale that a tree ever grows to: from there on it holds every
/// address.
pub const MAX_LG_SIZE: i32 = 32798;

/// The place of the root. The root is nobody's child, so where a child is
/// named its place says that there is none.
const ROOT: usize = 0;

/// Whether `path` names one octant per level.
spec fn is_path(path: Seq<int>) -> bool {
    forall|i: int| 0 <= i < path.len() ==> 0 <= #[trigger] path[i] < 8
}

/// The octants to take from the children of the ancestor `k + 1` levels
/// above `b` down to `b` itself.
spec fn route(b: bounds::T, k: nat) -> Seq<int> {
    Seq::new(k + 1, |i: int| b.octant((k - i) as nat))
}

/// The child of node `i` in octant `o`: its place, or that of the root
/// where there is none.
spec fn child(branches: Seq<[usize; 8]>, i: int, o: int) -> int {
    branches[i][o] as int
}

/// The node that the walk along `path` from node `from` ends on, if the
/// walk gets that far.
spec fn reach(branches: Seq<[usize; 8]>, from: int, path: Seq<int>) -> Option<int>
    decreases path.len(),
{
    if path.len() == 0 {
        Some(from)
    } else if child(branches, from, path[0]) == ROOT {
        None
    } else {
        reach(branches, child(branches, from, path[0]), path.skip(1))
    }
}

/// The voxel of the node that a walk ended on, if it got there and there
/// is one.
spec fn held<V>(data: Seq<Option<V>>, at: Option<int>) -> Option<V> {
    match at {
        Some(i) => data[i],
        None => None,
    }
}

/// The voxel stored for `b` in a tree of half-width `2^lg_size`.
spec fn stored<V>(lg_size: int, branches: Seq<[usize; 8]>, data: Seq<Option<V>>, b: bounds::T)
    -> Option<V> {
    if b.near_origin(lg_size) {
        held(data, reach(branches, ROOT as int, route(b, (lg_size - b.lg_size) as nat)))
    } else {
        None
    }
}

spec fn contents_of<V>(lg_size: int, branches: Seq<[usize; 8]>, data: Seq<Option<V>>) -> Map<
    bounds::T,
    V,
> {
    Map::new(
        |b: bounds::T| stored(lg_size, branches, data, b) is Some,
        |b: bounds::T| stored(lg_size, branches, data, b)->0,
    )
}

/// Whether the nodes make up a tree below the root: every node but the
/// root is the child of one node, `paths` giving the octants that lead to
/// it from the root.
spec fn linked(branches: Seq<[usize; 8]>, paths: Seq<Seq<int>>) -> bool {
    &&& branches.len() == paths.len()
    &&& paths.len() >= 1
    &&& paths[0].len() == 0
    &&& forall|i: int| 0 < i < paths.len() ==> (#[trigger] paths[i]).len() > 0
    &&& forall|i: int, o: int|
        0 <= i < branches.len() && 0 <= o < 8 ==> {
            let c = #[trigger] child(branches, i, o);
            c == ROOT || (0 < c < branches.len() && paths[c] == paths[i].push(o))
        }
}

/// The map `m` after the slot of `b` was left holding `slot`.
pub open spec fn written<V>(m: Map<bounds::T, V>, b: bounds::T, slot: Option<V>) -> Map<
    bounds::T,
    V,
> {
    match slot {
        Some(v) => m.insert(b, v),
        None => m.remove(b),
    }
}

/// What was written through the slot of one address is what the tree
/// then holds for that address, and no other address is touched by it.
pub proof fn lemma_slot_is_its_own<V>(
    m: Map<bounds::T, V>,
    b: bounds::T,
    slot: Option<V>,
    other: bounds::T,
)
    ensures
        written(m, b, slot).get(b) == slot,
        other != b ==> written(m, b, slot).get(other) == m.get(other),
{
}

proof fn lemma_route_is_path(b: bounds::T, k: nat)
    ensures
        is_path(route(b, k)),
        route(b, k).len() == k + 1,
        k > 0 ==> route(b, k).skip(1) == route(b, (k - 1) as nat),
        route(b, k)[0] == b.octant(k),
{
    assert forall|i: int| 0 <= i < route(b, k).len() implies 0 <= #[trigger] route(b, k)[i]
        < 8 by {
        let j = (k - i) as nat;
        lemma_shifted_step(b.x as int, j);
        lemma_shifted_step(b.y as int, j);
        lemma_shifted_step(b.z as int, j);
    }
    if k > 0 {
        assert(route(b, k).skip(1) =~= route(b, (k - 1) as nat));
    }
}

/// Two addresses held by a tree of the same size share a route only if
/// they are the same address.
proof fn lemma_route_fixes_bounds(lg_size: int, a: bounds::T, b: bounds::T)
    requires
        a.near_origin(lg_size),
        b.near_origin(lg_size),
        route(a, (lg_size - a.lg_size) as nat) == route(b, (lg_size - b.lg_size) as nat),
    ensures
        a == b,
{
    let ka = (lg_size - a.lg_size) as nat;
    let kb = (lg_size - b.lg_size) as nat;
    assert(route(a, ka).len() == ka + 1);
    assert(route(b, kb).len() == kb + 1);
    assert(ka == kb);
    assert forall|j: nat| j <= ka implies a.octant(j) == b.octant(j) by {
        assert(route(a, ka)[ka - j] == a.octant(j));
        assert(route(b, kb)[ka - j] == b.octant(j));
    }
    bounds::lemma_octants_fix_cube(a, b, ka);
}

/// A walk ends on the node that its path leads to: the path of that node
/// is the path of the node where the walk began and then the walk's own.
proof fn lemma_reach_path(
    branches: Seq<[usize; 8]>,
    paths: Seq<Seq<int>>,
    from: int,
    path: Seq<int>,
)
    requires
        linked(branches, paths),
        0 <= from < branches.len(),
        is_path(path),
        reach(branches, from, path) is Some,
    ensures
        0 <= reach(branches, from, path)->0 < branches.len(),
        paths[reach(branches, from, path)->0] == paths[from] + path,
        path.len() > 0 ==> reach(branches, from, path)->0 != ROOT,
    decreases path.len(),
{
    if path.len() == 0 {
        assert(paths[from] + path =~= paths[from]);
    } else {
        let next = child(branches, from, path[0]);
        assert(0 < next < branches.len());
        assert(is_path(path.skip(1)));
        lemma_reach_path(branches, paths, next, path.skip(1));
        assert(paths[from].push(path[0]) + path.skip(1) =~= paths[from] + path);
        let end = reach(branches, from, path)->0;
        assert(paths[end].len() > 0);
    }
}

/// A walk that is one octant longer goes on from where the shorter one
/// ended.
proof fn lemma_reach_push(branches: Seq<[usize; 8]>, from: int, path: Seq<int>, o: int)
    ensures
        reach(branches, from, path.push(o)) == match reach(branches, from, path) {
            None => None,
            Some(end) => if child(branches, end, o) == ROOT {
                None
            } else {
                Some(child(branches, end, o))
            },
        },
    decreases path.len(),
{
    let longer = path.push(o);
    if path.len() == 0 {
        assert(longer[0] == o);
        assert(longer.skip(1).len() == 0);
        assert(reach(branches, from, path) == Some(from));
        if child(branches, from, o) != ROOT {
            assert(reach(branches, child(branches, from, o), longer.skip(1)) == Some(
                child(branches, from, o),
            ));
        }
    } else {
        let next = child(branches, from, path[0]);
        assert(longer[0] == path[0]);
        assert(longer.skip(1) =~= path.skip(1).push(o));
        if next != ROOT {
            lemma_reach_push(branches, next, path.skip(1), o);
            assert(reach(branches, from, longer) == reach(branches, next, longer.skip(1)));
            assert(reach(branches, from, path) == reach(branches, next, path.skip(1)));
        } else {
            assert(reach(branches, from, longer) is None);
            assert(reach(branches, from, path) is None);
        }
    }
}

/// Writing the data of the node of one address changes the stored voxel
/// of that address and of no other.
proof fn lemma_update_contents<V>(
    lg_size: int,
    branches: Seq<[usize; 8]>,
    paths: Seq<Seq<int>>,
    data: Seq<Option<V>>,
    b: bounds::T,
    slot: Option<V>,
)
    requires
        linked(branches, paths),
        data.len() == branches.len(),
        b.near_origin(lg_size),
        reach(branches, ROOT as int, route(b, (lg_size - b.lg_size) as nat)) is Some,
    ensures
        ({
            let at = reach(branches, ROOT as int, route(b, (lg_size - b.lg_size) as nat))->0;
            &&& 0 < at < data.len()
            &&& stored(lg_size, branches, data, b) == data[at]
            &&& contents_of(lg_size, branches, data.update(at, slot)) == written(
                contents_of(lg_size, branches, data),
                b,
                slot,
            )
        }),
{
    let path = route(b, (lg_size - b.lg_size) as nat);
    let at = reach(branches, ROOT as int, path)->0;
    lemma_route_is_path(b, (lg_size - b.lg_size) as nat);
    lemma_reach_path(branches, paths, ROOT as int, path);
    assert(paths[at] =~= path);
    let after = data.update(at, slot);
    assert forall|q: bounds::T| stored(lg_size, branches, after, q) == if q == b {
        slot
    } else {
        stored(lg_size, branches, data, q)
    } by {
        if q.near_origin(lg_size) {
            let other = route(q, (lg_size - q.lg_size) as nat);
            lemma_route_is_path(q, (lg_size - q.lg_size) as nat);
            if reach(branches, ROOT as int, other) is Some {
                lemma_reach_path(branches, paths, ROOT as int, other);
                let end = reach(branches, ROOT as int, other)->0;
                assert(paths[end] =~= other);
                if end == at {
                    lemma_route_fixes_bounds(lg_size, q, b);
                }
            }
        }
    }
    assert(contents_of(lg_size, branches, after) =~= written(
        contents_of(lg_size, branches, data),
        b,
        slot,
    ));
}

/// Whether a tree of half-width `2^lg_size` has a node for `b`.
spec fn present(lg_size: int, branches: Seq<[usize; 8]>, b: bounds::T) -> bool {
    &&& b.near_origin(lg_size)
    &&& reach(branches, ROOT as int, route(b, (lg_size - b.lg_size) as nat)) is Some
}

/// Whether the walk along `path` passes `q` on its first `n` levels.
spec fn on_path(lg_size: int, q: bounds::T, path: Seq<int>, n: int) -> bool {
    &&& q.near_origin(lg_size)
    &&& lg_size - q.lg_size + 1 <= n
    &&& route(q, (lg_size - q.lg_size) as nat) == path.take(lg_size - q.lg_size + 1)
}

/// The walk to a cube passes that cube and the cubes that hold it, and no
/// others.
proof fn lemma_on_path(lg_size: int, b: bounds::T, q: bounds::T)
    requires
        b.near_origin(lg_size),
    ensures
        on_path(
            lg_size,
            q,
            route(b, (lg_size - b.lg_size) as nat),
            lg_size - b.lg_size + 1,
        ) == (b.within(q) && q.lg_size <= lg_size),
{
    let d = (lg_size - b.lg_size) as nat;
    let path = route(b, d);
    if b.lg_size <= q.lg_size <= lg_size {
        let e = (q.lg_size - b.lg_size) as nat;
        let dq = (lg_size - q.lg_size) as nat;
        let (sx, sy, sz) = (shifted(b.x as int, e), shifted(b.y as int, e), shifted(b.z as int, e));
        assert forall|j: nat| j <= dq implies shifted(sx, j) == shifted(b.x as int, e + j)
            && shifted(sy, j) == shifted(b.y as int, e + j) && shifted(sz, j) == shifted(
            b.z as int,
            e + j,
        ) && bit_at(sx, j) == bit_at(b.x as int, e + j) && bit_at(sy, j) == bit_at(
            b.y as int,
            e + j,
        ) && bit_at(sz, j) == bit_at(b.z as int, e + j) by {
            lemma_shifted_twice(b.x as int, e, j);
            lemma_shifted_twice(b.y as int, e, j);
            lemma_shifted_twice(b.z as int, e, j);
        }
        assert(shifted(sx, dq) == shifted(b.x as int, d));
        assert(shifted(sy, dq) == shifted(b.y as int, d));
        assert(shifted(sz, dq) == shifted(b.z as int, d));
        if b.within(q) {
            assert forall|i: int| 0 <= i < dq + 1 implies route(q, dq)[i] == path[i] by {
                let j = (dq - i) as nat;
                assert(bit_at(sx, j) == bit_at(b.x as int, e + j));
                assert(q.octant(j) == b.octant(e + j));
            }
            assert(route(q, dq) =~= path.take(dq as int + 1));
        }
        if on_path(lg_size, q, path, d as int + 1) {
            assert forall|j: nat| j <= dq implies bit_at(q.x as int, j) == bit_at(sx, j) && bit_at(
                q.y as int,
                j,
            ) == bit_at(sy, j) && bit_at(q.z as int, j) == bit_at(sz, j) by {
                assert(route(q, dq)[dq - j] == q.octant(j));
                assert(path.take(dq as int + 1)[dq - j] == b.octant(e + j));
                bounds::lemma_octant_bits(q, j, b, e + j);
                assert(bit_at(sx, j) == bit_at(b.x as int, e + j));
            }
            bounds::lemma_bits_fix_coordinate(q.x as int, sx, dq);
            bounds::lemma_bits_fix_coordinate(q.y as int, sy, dq);
            bounds::lemma_bits_fix_coordinate(q.z as int, sz, dq);
        }
    }
}

/// Whether `after` is `before` with one more node, a leaf without voxel
/// that became the child of node `parent` in octant `o`, where there was
/// none.
spec fn sprouted(
    before: Seq<[usize; 8]>,
    after: Seq<[usize; 8]>,
    parent: int,
    o: int,
) -> bool {
    &&& 0 <= parent < before.len()
    &&& 0 <= o < 8
    &&& child(before, parent, o) == ROOT
    &&& after.len() == before.len() + 1
    &&& forall|i: int, p: int|
        0 <= i < after.len() && 0 <= p < 8 ==> #[trigger] child(after, i, p) == if i == parent
            && p == o {
            before.len() as int
        } else if i == before.len() {
            ROOT as int
        } else {
            child(before, i, p)
        }
}

/// A new leaf changes no walk that got to its end before, and lets no
/// walk end on a voxel that did not before.
proof fn lemma_sprouted_reach<V>(
    before: Seq<[usize; 8]>,
    after: Seq<[usize; 8]>,
    paths: Seq<Seq<int>>,
    data: Seq<Option<V>>,
    parent: int,
    o: int,
    from: int,
    path: Seq<int>,
)
    requires
        linked(before, paths),
        sprouted(before, after, parent, o),
        data.len() == before.len(),
        0 <= from < before.len(),
        is_path(path),
    ensures
        reach(before, from, path) is Some ==> reach(after, from, path) == reach(
            before,
            from,
            path,
        ),
        held(data.push(None), reach(after, from, path)) == held(data, reach(before, from, path)),
    decreases path.len(),
{
    let fresh = before.len() as int;
    let more = data.push(None);
    if path.len() > 0 {
        let next = child(after, from, path[0]);
        let rest = path.skip(1);
        assert(is_path(rest));
        if from == parent && path[0] == o {
            assert(next == fresh);
            assert(reach(before, from, path) is None);
            assert(reach(after, from, path) == reach(after, fresh, rest));
            if rest.len() > 0 {
                assert(child(after, fresh, rest[0]) == ROOT);
                assert(reach(after, fresh, rest) is None);
            } else {
                assert(reach(after, fresh, rest) == Some(fresh));
                assert(more[fresh] is None);
            }
        } else {
            assert(next == child(before, from, path[0]));
            if next != ROOT {
                assert(0 < next < before.len());
                lemma_sprouted_reach(before, after, paths, data, parent, o, next, rest);
                assert(reach(after, from, path) == reach(after, next, rest));
                assert(reach(before, from, path) == reach(before, next, rest));
            }
        }
    } else {
        assert(more[from] == data[from]);
    }
    if reach(before, from, path) is Some {
        lemma_reach_path(before, paths, from, path);
        let end = reach(before, from, path)->0;
        assert(more[end] == data[end]);
    }
}

/// A walk that ends on a node that was there before the new leaf is the
/// walk that it was.
proof fn lemma_sprouted_back(
    before: Seq<[usize; 8]>,
    after: Seq<[usize; 8]>,
    paths: Seq<Seq<int>>,
    parent: int,
    o: int,
    from: int,
    path: Seq<int>,
)
    requires
        linked(before, paths),
        sprouted(before, after, parent, o),
        0 <= from < before.len(),
        is_path(path),
        reach(after, from, path) is Some,
        reach(after, from, path)->0 != before.len(),
    ensures
        reach(before, from, path) == reach(after, from, path),
    decreases path.len(),
{
    let fresh = before.len() as int;
    if path.len() > 0 {
        let next = child(after, from, path[0]);
        let rest = path.skip(1);
        assert(is_path(rest));
        assert(reach(after, from, path) == reach(after, next, rest));
        if from == parent && path[0] == o {
            assert(next == fresh);
            if rest.len() > 0 {
                assert(child(after, fresh, rest[0]) == ROOT);
            }
            assert(false);
        } else {
            assert(next == child(before, from, path[0]));
            assert(0 < next < before.len());
            lemma_sprouted_back(before, after, paths, parent, o, next, rest);
        }
    }
}

/// A new leaf gives the tree a node for the cube below the walk that led
/// to its parent, and for no other cube.
proof fn lemma_sprouted_present(
    lg_size: int,
    before: Seq<[usize; 8]>,
    after: Seq<[usize; 8]>,
    paths: Seq<Seq<int>>,
    parent: int,
    o: int,
    walked: Seq<int>,
    q: bounds::T,
)
    requires
        linked(before, paths),
        sprouted(before, after, parent, o),
        is_path(walked),
        reach(before, ROOT as int, walked) == Some(parent),
    ensures
        present(lg_size, after, q) == (present(lg_size, before, q) || (q.near_origin(lg_size)
            && route(q, (lg_size - q.lg_size) as nat) == walked.push(o))),
{
    let fresh = before.len() as int;
    let none = Seq::new(before.len(), |i: int| None::<bool>);
    if q.near_origin(lg_size) {
        let k = (lg_size - q.lg_size) as nat;
        let r = route(q, k);
        lemma_route_is_path(q, k);
        lemma_sprouted_reach(before, after, paths, none, parent, o, ROOT as int, r);
        lemma_sprouted_reach(before, after, paths, none, parent, o, ROOT as int, walked);
        lemma_reach_push(after, ROOT as int, walked, o);
        assert(child(after, parent, o) == fresh);
        lemma_reach_path(before, paths, ROOT as int, walked);
        assert(paths[parent] =~= walked);
        if reach(after, ROOT as int, r) is Some {
            let end = reach(after, ROOT as int, r)->0;
            if end == fresh {
                lemma_sprouted_contents(lg_size, before, after, paths, none, parent, o);
                let longer = paths.push(paths[parent].push(o));
                lemma_reach_path(after, longer, ROOT as int, r);
                assert(longer[fresh] == paths[parent].push(o));
                assert(r =~= walked.push(o));
            } else {
                lemma_sprouted_back(before, after, paths, parent, o, ROOT as int, r);
            }
        }
    }
}

/// A new leaf leaves every stored voxel where it was.
proof fn lemma_sprouted_contents<V>(
    lg_size: int,
    before: Seq<[usize; 8]>,
    after: Seq<[usize; 8]>,
    paths: Seq<Seq<int>>,
    data: Seq<Option<V>>,
    parent: int,
    o: int,
)
    requires
        linked(before, paths),
        sprouted(before, after, parent, o),
        data.len() == before.len(),
    ensures
        contents_of(lg_size, after, data.push(None)) == contents_of(lg_size, before, data),
        linked(after, paths.push(paths[parent].push(o))),
{
    assert forall|b: bounds::T| stored(lg_size, after, data.push(None), b) == stored(
        lg_size,
        before,
        data,
        b,
    ) by {
        if b.near_origin(lg_size) {
            let k = (lg_size - b.lg_size) as nat;
            lemma_route_is_path(b, k);
            lemma_sprouted_reach(before, after, paths, data, parent, o, ROOT as int, route(b, k));
        }
    }
    assert(contents_of(lg_size, after, data.push(None)) =~= contents_of(lg_size, before, data));
    let longer = paths.push(paths[parent].push(o));
    assert forall|i: int, p: int| 0 <= i < after.len() && 0 <= p < 8 implies {
        let c = #[trigger] child(after, i, p);
        c == ROOT || (0 < c < after.len() && longer[c] == longer[i].push(p))
    } by {
        if i < before.len() && !(i == parent && p == o) {
            assert(child(after, i, p) == child(before, i, p));
        }
    }
}

/// The children of the wrapper that takes the place of the root's child
/// in octant `o` when the tree doubles: that child, again in octant `o`.
spec fn wrapper(top: [usize; 8], o: int, p: int) -> int {
    if p == o {
        top[o] as int
    } else {
        ROOT as int
    }
}

/// Whether `after` is `before` once the tree doubled: eight wrappers
/// follow the nodes that were there, and the root has the wrappers for
/// children.
spec fn doubled(before: Seq<[usize; 8]>, after: Seq<[usize; 8]>) -> bool {
    &&& before.len() >= 1
    &&& after.len() == before.len() + 8
    &&& forall|i: int, p: int|
        0 <= i < after.len() && 0 <= p < 8 ==> #[trigger] child(after, i, p) == if i == ROOT {
            before.len() + p
        } else if i < before.len() {
            child(before, i, p)
        } else {
            wrapper(before[0], i - before.len(), p)
        }
}

/// The octants that lead to each node once the tree doubled: the first
/// octant is taken twice.
spec fn doubled_paths(before: Seq<Seq<int>>) -> Seq<Seq<int>> {
    Seq::new(
        before.len() + 8,
        |i: int|
            if i == ROOT {
                Seq::empty()
            } else if i < before.len() {
                seq![before[i][0]] + before[i]
            } else {
                seq![i - before.len()]
            },
    )
}

/// Eight nodes without voxels after the nodes that were there.
spec fn doubled_data<V>(before: Seq<Option<V>>) -> Seq<Option<V>> {
    Seq::new(
        before.len() + 8,
        |i: int|
            if i < before.len() {
                before[i]
            } else {
                None
            },
    )
}

/// Doubling keeps the walks between the nodes that were there.
proof fn lemma_doubled_reach(
    before: Seq<[usize; 8]>,
    after: Seq<[usize; 8]>,
    paths: Seq<Seq<int>>,
    from: int,
    path: Seq<int>,
)
    requires
        linked(before, paths),
        doubled(before, after),
        0 < from < before.len(),
        is_path(path),
    ensures
        reach(after, from, path) == reach(before, from, path),
        reach(before, from, path) is Some ==> 0 < reach(before, from, path)->0 < before.len(),
    decreases path.len(),
{
    if path.len() > 0 {
        let next = child(before, from, path[0]);
        assert(child(after, from, path[0]) == next);
        if next != ROOT {
            assert(is_path(path.skip(1)));
            lemma_doubled_reach(before, after, paths, next, path.skip(1));
        }
    }
}

/// Doubling a tree moves no voxel to another address.
proof fn lemma_doubled_stored<V>(
    lg_size: int,
    before: Seq<[usize; 8]>,
    after: Seq<[usize; 8]>,
    paths: Seq<Seq<int>>,
    data: Seq<Option<V>>,
    b: bounds::T,
)
    requires
        linked(before, paths),
        doubled(before, after),
        data.len() == before.len(),
        data[0] is None,
    ensures
        stored(lg_size + 1, after, doubled_data(data), b) == stored(lg_size, before, data, b),
{
    let more = doubled_data(data);
    if b.near_origin(lg_size + 1) {
        let k = (lg_size + 1 - b.lg_size) as nat;
        let path = route(b, k);
        lemma_route_is_path(b, k);
        let top = b.octant(k);
        assert(0 <= top < 8);
        let wrap = before.len() + top;
        assert(child(after, ROOT as int, top) == wrap);
        assert(path[0] == top);
        assert(wrap != ROOT);
        assert(reach(after, ROOT as int, path) == reach(after, wrap, path.skip(1)));
        if k == 0 {
            assert(!b.near_origin(lg_size));
            assert(path.skip(1).len() == 0);
            assert(reach(after, ROOT as int, path) == Some(wrap));
            assert(more[wrap] is None);
        } else {
            let j = (k - 1) as nat;
            let rest = route(b, j);
            lemma_route_is_path(b, j);
            assert(path.skip(1) == rest);
            let next = b.octant(j);
            assert(rest[0] == next);
            assert(reach(after, ROOT as int, path) == reach(after, wrap, rest));
            assert(child(after, wrap, next) == wrapper(before[0], top, next));
            lemma_shifted_step(b.x as int, j);
            lemma_shifted_step(b.y as int, j);
            lemma_shifted_step(b.z as int, j);
            lemma_shifted_step(b.x as int, k);
            lemma_shifted_step(b.y as int, k);
            lemma_shifted_step(b.z as int, k);
            if b.near_origin(lg_size) {
                assert(next == top);
                let under = child(before, ROOT as int, top);
                assert(child(after, wrap, next) == under);
                if under != ROOT {
                    assert(is_path(rest.skip(1)));
                    lemma_doubled_reach(before, after, paths, under, rest.skip(1));
                    assert(reach(after, ROOT as int, path) == reach(before, ROOT as int, rest));
                    if reach(before, ROOT as int, rest) is Some {
                        assert(more[reach(before, ROOT as int, rest)->0] == data[reach(
                            before,
                            ROOT as int,
                            rest,
                        )->0]);
                    }
                }
            } else {
                assert(next != top);
                assert(child(after, wrap, next) == ROOT);
            }
        }
    } else {
        if b.near_origin(lg_size) {
            let j = (lg_size - b.lg_size) as nat;
            lemma_shifted_step(b.x as int, j);
            lemma_shifted_step(b.y as int, j);
            lemma_shifted_step(b.z as int, j);
        }
    }
}

/// Doubling gives the tree nodes for the eight cubes of its new scale
/// that touch the origin, and keeps the nodes that were there.
proof fn lemma_doubled_present(
    lg_size: int,
    before: Seq<[usize; 8]>,
    after: Seq<[usize; 8]>,
    paths: Seq<Seq<int>>,
    b: bounds::T,
)
    requires
        linked(before, paths),
        doubled(before, after),
    ensures
        present(lg_size + 1, after, b) == (present(lg_size, before, b) || (b.lg_size == lg_size
            + 1 && b.rooted(0))),
{
    if b.near_origin(lg_size + 1) {
        let k = (lg_size + 1 - b.lg_size) as nat;
        let path = route(b, k);
        lemma_route_is_path(b, k);
        let top = b.octant(k);
        assert(0 <= top < 8);
        let wrap = before.len() + top;
        assert(child(after, ROOT as int, top) == wrap);
        assert(path[0] == top);
        assert(wrap != ROOT);
        assert(reach(after, ROOT as int, path) == reach(after, wrap, path.skip(1)));
        if k == 0 {
            assert(!b.near_origin(lg_size));
            assert(path.skip(1).len() == 0);
            assert(reach(after, ROOT as int, path) == Some(wrap));
        } else {
            let j = (k - 1) as nat;
            let rest = route(b, j);
            lemma_route_is_path(b, j);
            assert(path.skip(1) == rest);
            let next = b.octant(j);
            assert(rest[0] == next);
            assert(child(after, wrap, next) == wrapper(before[0], top, next));
            lemma_shifted_step(b.x as int, j);
            lemma_shifted_step(b.y as int, j);
            lemma_shifted_step(b.z as int, j);
            lemma_shifted_step(b.x as int, k);
            lemma_shifted_step(b.y as int, k);
            lemma_shifted_step(b.z as int, k);
            if b.near_origin(lg_size) {
                assert(next == top);
                let under = child(before, ROOT as int, top);
                assert(child(after, wrap, next) == under);
                if under != ROOT {
                    assert(is_path(rest.skip(1)));
                    lemma_doubled_reach(before, after, paths, under, rest.skip(1));
                    assert(reach(after, ROOT as int, path) == reach(before, ROOT as int, rest));
                } else {
                    assert(reach(after, wrap, rest) is None);
                    assert(reach(before, ROOT as int, rest) is None);
                }
            } else {
                assert(next != top);
                assert(child(after, wrap, next) == ROOT);
                assert(reach(after, wrap, rest) is None);
            }
        }
    } else {
        if b.near_origin(lg_size) {
            let j = (lg_size - b.lg_size) as nat;
            lemma_shifted_step(b.x as int, j);
            lemma_shifted_step(b.y as int, j);
            lemma_shifted_step(b.z as int, j);
        }
    }
}

/// A doubled tree is a tree, with the voxels of the tree that doubled.
proof fn lemma_doubled_contents<V>(
    lg_size: int,
    before: Seq<[usize; 8]>,
    after: Seq<[usize; 8]>,
    paths: Seq<Seq<int>>,
    data: Seq<Option<V>>,
)
    requires
        linked(before, paths),
        doubled(before, after),
        data.len() == before.len(),
        data[0] is None,
    ensures
        linked(after, doubled_paths(paths)),
        contents_of(lg_size + 1, after, doubled_data(data)) == contents_of(lg_size, before, data),
{
    assert forall|b: bounds::T| stored(lg_size + 1, after, doubled_data(data), b) == stored(
        lg_size,
        before,
        data,
        b,
    ) by {
        lemma_doubled_stored(lg_size, before, after, paths, data, b);
    }
    assert(contents_of(lg_size + 1, after, doubled_data(data)) =~= contents_of(
        lg_size,
        before,
        data,
    ));
    let longer = doubled_paths(paths);
    assert forall|i: int, p: int| 0 <= i < after.len() && 0 <= p < 8 implies {
        let c = #[trigger] child(after, i, p);
        c == ROOT || (0 < c < after.len() && longer[c] == longer[i].push(p))
    } by {
        let c = child(after, i, p);
        if i == ROOT {
            assert(longer[c] =~= longer[i].push(p));
        } else if i < before.len() {
            assert(c == child(before, i, p));
            if c != ROOT {
                assert(paths[c] == paths[i].push(p));
                assert(paths[i].len() > 0);
                assert(longer[c] =~= longer[i].push(p));
            }
        } else {
            let o = i - before.len();
            if p == o && c != ROOT {
                assert(c == child(before, ROOT as int, o));
                assert(paths[c] == paths[0].push(o));
                assert(longer[c] =~= longer[i].push(p));
            }
        }
    }
}

/// A voxel tree.
pub struct T<V> {
    /// The tree covers `[-2^lg_size, 2^lg_size)` along each axis.
    lg_size: i32,
    /// The voxel of each node, as far as there is one. The root comes
    /// first and has none: it stands for the whole tree, not for a cube.
    data: Vec<Option<V>>,
    /// The children of each node, by octant. The children of the root are
    /// the eight cubes of scale `lg_size` that touch the origin.
    branches: Vec<[usize; 8]>,
    /// The octants that lead from the root to each node.
    paths: Ghost<Seq<Seq<int>>>,
}

impl<V> View for T<V> {
    type V = Map<bounds::T, V>;

    /// The voxels in the tree, each under the address of its cube.
    closed spec fn view(&self) -> Map<bounds::T, V> {
        contents_of(self.lg_size as int, self.branches@, self.data@)
    }
}

impl<V> T<V> {
    /// What every tree satisfies.
    pub closed spec fn well_formed(&self) -> bool {
        &&& 0 <= self.lg_size <= MAX_LG_SIZE
        &&& self.data@.len() == self.branches@.len()
        &&& linked(self.branches@, self.paths@)
        &&& self.data@[0] is None
    }

    /// The tree covers `[-2^lg_size(), 2^lg_size())` along each axis.
    pub closed spec fn lg_size(&self) -> int {
        self.lg_size as int
    }

    /// Whether the tree has a node for `b`: `b` was accessed, or lies on
    /// the way to a cube that was, whether or not it holds a voxel.
    pub closed spec fn has_node(&self, b: bounds::T) -> bool {
        present(self.lg_size as int, self.branches@, b)
    }

    /// Whether `after` has the size and the nodes of this tree once `b` was
    /// accessed in it. The tree has doubled until it holds `b`, and no
    /// further. Its nodes are those that it had, those of `b` and of every
    /// cube of the tree that holds `b`, and those of the eight cubes that
    /// touch the origin at each scale that a doubling added.
    pub open spec fn accessed(self, after: Self, b: bounds::T) -> bool {
        &&& self.lg_size() <= after.lg_size()
        &&& b.near_origin(after.lg_size())
        &&& forall|l: int| self.lg_size() <= l < after.lg_size() ==> !b.near_origin(l)
        &&& forall|q: bounds::T| #[trigger]
            after.has_node(q) == {
                ||| self.has_node(q)
                ||| b.within(q) && q.lg_size <= after.lg_size()
                ||| q.rooted(0) && self.lg_size() < q.lg_size <= after.lg_size()
            }
    }

    /// A voxel is held by a node.
    pub proof fn lemma_voxel_has_node(&self, b: bounds::T)
        requires
            self@.contains_key(b),
        ensures
            self.has_node(b),
    {
    }

    /// A tree without voxels.
    pub fn new() -> (tree: Self)
        ensures
            tree.well_formed(),
            tree@ == Map::<bounds::T, V>::empty(),
            tree.lg_size() == 0,
            forall|b: bounds::T| !tree.has_node(b),
    {
        let mut data: Vec<Option<V>> = Vec::new();
        data.push(None);
        let mut branches: Vec<[usize; 8]> = Vec::new();
        branches.push([0, 0, 0, 0, 0, 0, 0, 0]);
        let tree = T {
            lg_size: 0,
            data,
            branches,
            paths: Ghost(Seq::<Seq<int>>::empty().push(Seq::<int>::empty())),
        };
        proof {
            assert forall|b: bounds::T|
                stored(0, tree.branches@, tree.data@, b) is None && !tree.has_node(b) by {
                lemma_route_is_path(b, (0 - b.lg_size) as nat);
            }
            assert(tree@ =~= Map::<bounds::T, V>::empty());
        }
        tree
    }

    /// The place of the node of `bounds`, if the tree has one.
    fn locate(&self, bounds: &bounds::T) -> (r: Option<usize>)
        requires
            self.well_formed(),
        ensures
            match r {
                Some(at) => {
                    &&& bounds.near_origin(self.lg_size as int)
                    &&& at < self.data@.len()
                    &&& reach(
                        self.branches@,
                        ROOT as int,
                        route(*bounds, (self.lg_size - bounds.lg_size) as nat),
                    ) == Some(at as int)
                },
                None => !present(self.lg_size as int, self.branches@, *bounds),
            },
    {
        if !bounds.is_near_origin(self.lg_size) {
            return None;
        }
        let depth: u32 = (self.lg_size - bounds.lg_size as i32) as u32;
        let ghost path = route(*bounds, depth as nat);
        let mut at: usize = ROOT;
        let mut left: u32 = depth + 1;
        proof {
            lemma_route_is_path(*bounds, depth as nat);
            assert(path.skip(0) =~= path);
        }
        while left > 0
            invariant
                self.well_formed(),
                left <= depth + 1,
                at < self.branches@.len(),
                bounds.near_origin(self.lg_size as int),
                depth == self.lg_size - bounds.lg_size,
                path == route(*bounds, depth as nat),
                is_path(path),
                path.len() == depth + 1,
                reach(self.branches@, ROOT as int, path) == reach(
                    self.branches@,
                    at as int,
                    path.skip(depth + 1 - left),
                ),
            decreases left,
        {
            let o = bounds.octant_at(left - 1);
            let next = self.branches[at][o as usize];
            proof {
                let rest = path.skip(depth + 1 - left);
                assert(rest[0] == o);
                assert(rest.skip(1) =~= path.skip(depth + 2 - left));
                assert(next == child(self.branches@, at as int, o as int));
            }
            if next == ROOT {
                proof {
                    assert(reach(self.branches@, ROOT as int, path) is None);
                }
                return None;
            }
            at = next;
            left = left - 1;
        }
        proof {
            assert(path.skip(depth + 1).len() == 0);
            assert(reach(self.branches@, ROOT as int, path) == Some(at as int));
        }
        Some(at)
    }

    /// The voxel stored for `bounds`, if there is one.
    pub fn get(&self, bounds: &bounds::T) -> (r: Option<&V>)
        requires
            self.well_formed(),
        ensures
            match r {
                Some(v) => self@.get(*bounds) == Some(*v),
                None => self@.get(*bounds) is None,
            },
    {
        match self.locate(bounds) {
            None => {
                proof {
                    assert(stored(self.lg_size as int, self.branches@, self.data@, *bounds)
                        is None);
                }
                None
            },
            Some(at) => {
                proof {
                    assert(stored(self.lg_size as int, self.branches@, self.data@, *bounds)
                        == self.data@[at as int]);
                }
                self.data[at].as_ref()
            },
        }
    }

    /// Computes [`T::has_node`].
    pub fn contains_node(&self, bounds: &bounds::T) -> (r: bool)
        requires
            self.well_formed(),
        ensures
            r == self.has_node(*bounds),
    {
        self.locate(bounds).is_some()
    }

    /// Computes [`T::lg_size`].
    pub fn lg_size_of(&self) -> (r: i32)
        requires
            self.well_formed(),
        ensures
            r == self.lg_size(),
            0 <= r <= MAX_LG_SIZE,
    {
        self.lg_size
    }

    /// Brings the child of node `parent` in octant `o` into being, where
    /// there was none.
    fn sprout(&mut self, parent: usize, o: u8) -> (fresh: usize)
        requires
            old(self).well_formed(),
            parent < old(self).branches@.len(),
            o < bounds::OCTANTS,
            child(old(self).branches@, parent as int, o as int) == ROOT,
        ensures
            final(self).well_formed(),
            final(self).lg_size == old(self).lg_size,
            final(self)@ == old(self)@,
            fresh == old(self).branches@.len(),
            sprouted(old(self).branches@, final(self).branches@, parent as int, o as int),
            final(self).paths@ == old(self).paths@.push(
                old(self).paths@[parent as int].push(o as int),
            ),
            final(self).data@ == old(self).data@.push(None),
    {
        let fresh = self.branches.len();
        self.data.push(None);
        self.branches.push([0, 0, 0, 0, 0, 0, 0, 0]);
        let mut row = self.branches[parent];
        row[o as usize] = fresh;
        self.branches[parent] = row;
        proof {
            self.paths@ = self.paths@.push(self.paths@[parent as int].push(o as int));
            assert(sprouted(old(self).branches@, self.branches@, parent as int, o as int));
            lemma_sprouted_contents(
                self.lg_size as int,
                old(self).branches@,
                self.branches@,
                old(self).paths@,
                old(self).data@,
                parent as int,
                o as int,
            );
        }
        fresh
    }

    /// Doubles the cube that the tree covers, keeping every voxel.
    fn grow(&mut self)
        requires
            old(self).well_formed(),
            old(self).lg_size < MAX_LG_SIZE,
        ensures
            final(self).well_formed(),
            final(self).lg_size == old(self).lg_size + 1,
            final(self)@ == old(self)@,
            forall|q: bounds::T| #[trigger]
                final(self).has_node(q) == (old(self).has_node(q) || (q.rooted(0) && q.lg_size
                    == final(self).lg_size)),
    {
        let top = self.branches[ROOT];
        let first = self.branches.len();
        let mut o: usize = 0;
        while o < 8
            invariant
                o <= 8,
                old(self).well_formed(),
                first >= 1,
                first == old(self).branches@.len(),
                top == old(self).branches@[0],
                self.lg_size == old(self).lg_size,
                self.paths == old(self).paths,
                self.data@.len() == first + o,
                self.branches@.len() == first + o,
                forall|i: int| 0 <= i < first ==> self.data@[i] == old(self).data@[i],
                forall|i: int| 0 <= i < first ==> self.branches@[i] == old(self).branches@[i],
                forall|i: int| first <= i < first + o ==> self.data@[i] is None,
                forall|i: int, p: int|
                    first <= i < first + o && 0 <= p < 8 ==> #[trigger] child(
                        self.branches@,
                        i,
                        p,
                    ) == wrapper(top, i - first, p),
            decreases 8 - o,
        {
            let ghost rows = self.branches@;
            let mut row: [usize; 8] = [0, 0, 0, 0, 0, 0, 0, 0];
            row[o] = top[o];
            self.data.push(None);
            self.branches.push(row);
            proof {
                assert forall|i: int, p: int| first <= i < first + o + 1 && 0 <= p < 8 implies
                    #[trigger] child(self.branches@, i, p) == wrapper(top, i - first, p) by {
                    if i < first + o {
                        assert(child(rows, i, p) == wrapper(top, i - first, p));
                    }
                }
            }
            o = o + 1;
        }
        let ghost rows = self.branches@;
        let total = self.branches.len();
        assert(total == first + 8);
        self.branches[ROOT] =
        [first, first + 1, first + 2, first + 3, first + 4, first + 5, first + 6, first + 7];
        self.lg_size = self.lg_size + 1;
        proof {
            self.paths@ = doubled_paths(self.paths@);
            assert forall|i: int, p: int| 0 <= i < self.branches@.len() && 0 <= p < 8 implies
                #[trigger] child(self.branches@, i, p) == if i == ROOT {
                first + p
            } else if i < first {
                child(old(self).branches@, i, p)
            } else {
                wrapper(old(self).branches@[0], i - first, p)
            } by {
                if i >= first {
                    assert(child(rows, i, p) == wrapper(top, i - first, p));
                }
            }
            assert(doubled(old(self).branches@, self.branches@));
            assert(self.data@ =~= doubled_data(old(self).data@));
            lemma_doubled_contents(
                old(self).lg_size as int,
                old(self).branches@,
                self.branches@,
                old(self).paths@,
                old(self).data@,
            );
            assert forall|q: bounds::T| #[trigger]
                self.has_node(q) == (old(self).has_node(q) || (q.lg_size == self.lg_size
                    && q.rooted(0))) by {
                lemma_doubled_present(
                    old(self).lg_size as int,
                    old(self).branches@,
                    self.branches@,
                    old(self).paths@,
                    q,
                );
            }
        }
    }

    /// Grows the tree until it holds `bounds`.
    fn grow_to_hold(&mut self, bounds: &bounds::T)
        requires
            old(self).well_formed(),
        ensures
            final(self).well_formed(),
            bounds.near_origin(final(self).lg_size as int),
            final(self)@ == old(self)@,
            old(self).lg_size <= final(self).lg_size,
            forall|l: int| old(self).lg_size <= l < final(self).lg_size ==> !bounds.near_origin(l),
            forall|q: bounds::T| #[trigger]
                final(self).has_node(q) == (old(self).has_node(q) || (old(self).lg_size
                    < q.lg_size <= final(self).lg_size && q.rooted(0))),
    {
        while !bounds.is_near_origin(self.lg_size)
            invariant
                self.well_formed(),
                self@ == old(self)@,
                old(self).lg_size <= self.lg_size,
                forall|l: int| old(self).lg_size <= l < self.lg_size ==> !bounds.near_origin(l),
                forall|q: bounds::T| #[trigger]
                    self.has_node(q) == (old(self).has_node(q) || (old(self).lg_size < q.lg_size
                        <= self.lg_size && q.rooted(0))),
            decreases MAX_LG_SIZE - self.lg_size,
        {
            proof {
                if self.lg_size == MAX_LG_SIZE {
                    let k = (MAX_LG_SIZE - bounds.lg_size) as nat;
                    lemma_shifted_far(bounds.x, k);
                    lemma_shifted_far(bounds.y, k);
                    lemma_shifted_far(bounds.z, k);
                }
            }
            let ghost before = *self;
            self.grow();
            proof {
                assert forall|q: bounds::T| #[trigger]
                    self.has_node(q) == (old(self).has_node(q) || (old(self).lg_size < q.lg_size
                        <= self.lg_size && q.rooted(0))) by {
                    assert(self.has_node(q) == (before.has_node(q) || (q.lg_size == self.lg_size
                        && q.rooted(0))));
                    assert(before.has_node(q) == (old(self).has_node(q) || (old(self).lg_size
                        < q.lg_size <= before.lg_size && q.rooted(0))));
                }
            }
        }
    }

    /// The slot that holds the voxel of `bounds`, for reading and writing.
    ///
    /// The tree doubles until it holds `bounds`, and no further; each
    /// doubling brings the eight cubes of the new scale that touch the
    /// origin into being. Then `bounds` and every cube of the tree that
    /// holds it get their nodes, whether or not the slot is ever filled.
    /// Only what is written through the returned reference changes which
    /// voxels the tree holds, and only for `bounds`.
    pub fn get_or_create(&mut self, bounds: &bounds::T) -> (slot: &mut Option<V>)
        requires
            old(self).well_formed(),
        ensures
            final(self).well_formed(),
            *slot == old(self)@.get(*bounds),
            final(self)@ == written(old(self)@, *bounds, *final(slot)),
            old(self).accessed(*final(self), *bounds),
    {
        self.grow_to_hold(bounds);
        let depth: u32 = (self.lg_size - bounds.lg_size as i32) as u32;
        let ghost path = route(*bounds, depth as nat);
        let ghost grown = self.branches@;
        let mut at: usize = ROOT;
        let mut left: u32 = depth + 1;
        proof {
            lemma_route_is_path(*bounds, depth as nat);
            assert forall|q: bounds::T| #[trigger]
                present(self.lg_size as int, grown, q) == (old(self).has_node(q) || (old(
                    self,
                ).lg_size < q.lg_size <= self.lg_size && q.rooted(0))) by {
                assert(self.has_node(q) == present(self.lg_size as int, grown, q));
            }
        }
        while left > 0
            invariant
                self.well_formed(),
                self@ == old(self)@,
                bounds.near_origin(self.lg_size as int),
                depth == self.lg_size - bounds.lg_size,
                left <= depth + 1,
                at < self.branches@.len(),
                path == route(*bounds, depth as nat),
                is_path(path),
                path.len() == depth + 1,
                reach(self.branches@, ROOT as int, path.take(depth + 1 - left)) == Some(at as int),
                old(self).lg_size <= self.lg_size,
                forall|l: int| old(self).lg_size <= l < self.lg_size ==> !bounds.near_origin(l),
                forall|q: bounds::T| #[trigger]
                    present(self.lg_size as int, grown, q) == (old(self).has_node(q) || (old(
                        self,
                    ).lg_size < q.lg_size <= self.lg_size && q.rooted(0))),
                forall|q: bounds::T| #[trigger]
                    present(self.lg_size as int, self.branches@, q) == (present(
                        self.lg_size as int,
                        grown,
                        q,
                    ) || on_path(self.lg_size as int, q, path, depth + 1 - left)),
            decreases left,
        {
            let o = bounds.octant_at(left - 1);
            let ghost walked = path.take(depth + 1 - left);
            let mut next = self.branches[at][o as usize];
            proof {
                assert(path[depth + 1 - left] == o);
                assert(path.take(depth + 2 - left) =~= walked.push(o as int));
                assert(is_path(walked));
            }
            let ghost lg_size = self.lg_size as int;
            let ghost before = self.branches@;
            if next == ROOT {
                let ghost paths = self.paths@;
                let ghost data = self.data@;
                next = self.sprout(at, o);
                proof {
                    lemma_sprouted_reach(
                        before,
                        self.branches@,
                        paths,
                        data,
                        at as int,
                        o as int,
                        ROOT as int,
                        walked,
                    );
                    assert forall|q: bounds::T| #[trigger]
                        present(lg_size, self.branches@, q) == (present(lg_size, grown, q)
                            || on_path(lg_size, q, path, depth + 2 - left)) by {
                        lemma_sprouted_present(
                            lg_size,
                            before,
                            self.branches@,
                            paths,
                            at as int,
                            o as int,
                            walked,
                            q,
                        );
                        assert(present(lg_size, before, q) == (present(lg_size, grown, q)
                            || on_path(lg_size, q, path, depth + 1 - left)));
                        if q.near_origin(lg_size) {
                            lemma_route_is_path(q, (lg_size - q.lg_size) as nat);
                        }
                    }
                }
            } else {
                proof {
                    lemma_reach_push(before, ROOT as int, walked, o as int);
                    assert forall|q: bounds::T| #[trigger]
                        present(lg_size, before, q) == (present(lg_size, grown, q) || on_path(
                            lg_size,
                            q,
                            path,
                            depth + 2 - left,
                        )) by {
                        assert(present(lg_size, before, q) == (present(lg_size, grown, q)
                            || on_path(lg_size, q, path, depth + 1 - left)));
                        if q.near_origin(lg_size) {
                            lemma_route_is_path(q, (lg_size - q.lg_size) as nat);
                        }
                    }
                }
            }
            proof {
                lemma_reach_push(self.branches@, ROOT as int, walked, o as int);
            }
            at = next;
            left = left - 1;
        }
        proof {
            assert(path.take(depth + 1) =~= path);
            lemma_update_contents(
                self.lg_size as int,
                self.branches@,
                self.paths@,
                self.data@,
                *bounds,
                self.data@[at as int],
            );
        }
        let ghost lg_size = self.lg_size as int;
        let ghost branches = self.branches@;
        let ghost paths = self.paths@;
        let ghost data = self.data@;
        proof {
            assert forall|q: bounds::T| #[trigger]
                present(lg_size, branches, q) == {
                    ||| old(self).has_node(q)
                    ||| bounds.within(q) && q.lg_size <= lg_size
                    ||| q.rooted(0) && old(self).lg_size < q.lg_size <= lg_size
                } by {
                lemma_on_path(lg_size, *bounds, q);
                assert(present(lg_size, branches, q) == (present(lg_size, grown, q) || on_path(
                    lg_size,
                    q,
                    path,
                    depth + 1,
                )));
                assert(present(lg_size, grown, q) == (old(self).has_node(q) || (old(self).lg_size
                    < q.lg_size <= lg_size && q.rooted(0))));
            }
        }
        let slot = &mut self.data[at];
        proof {
            lemma_update_contents(lg_size, branches, paths, data, *bounds, *final(slot));
        }
        slot
    }
}

} // verus!
