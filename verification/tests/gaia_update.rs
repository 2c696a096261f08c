use std::cell::Cell;
use voxel_terrain::block_cache::BlockCache;
use voxel_terrain::block_position;
use voxel_terrain::bounds;
use voxel_terrain::brush;
use voxel_terrain::entity::EntityId;
use voxel_terrain::error::Error;
use voxel_terrain::gaia_update::{apply_brush, apply_server_to_gaia};
use voxel_terrain::geometry::Point3;
use voxel_terrain::lod::LODIndex;
use voxel_terrain::protocol::{ClientToServer, LoadReason, ServerToGaia};
use voxel_terrain::server_update::{
    apply_client_to_server, apply_gaia_to_server, Action, GaiaToServer, Player, Server,
};
use voxel_terrain::terrain;

type Up = ClientToServer<(), ()>;
type Act = Action<(), ()>;

fn sum(voxels: &Vec<(bounds::T, i64)>) -> i64 {
    voxels.iter().map(|(_, v)| *v).sum()
}

fn density(b: &bounds::T) -> i64 {
    (b.x + 10 * b.y + 100 * b.z) as i64
}

fn box_brush<E>(low: (i32, i32, i32), high: (i32, i32, i32), lg_size: i16, edit: E) -> brush::T<E> {
    brush::T {
        bounds: brush::Bounds {
            low: Point3::new(low.0, low.1, low.2),
            high: Point3::new(high.0, high.1, high.2),
        },
        edit,
        lg_size,
    }
}

#[test]
fn load_request_makes_and_keeps_the_block() {
    let mut terrain = terrain::T::new(density, 10);
    let mut blocks: BlockCache<i64> = BlockCache::new();
    let p = block_position::new(1, 0, -1);
    let up = ServerToGaia::Load(p, LODIndex(2), LoadReason::Local(EntityId(4)));
    let done = apply_server_to_gaia(up, &mut terrain, &mut blocks, sum);
    assert_eq!(done, Ok(GaiaToServer::Loaded(p, LODIndex(2), LoadReason::Local(EntityId(4)))));
    // Cubes (2..4, 0..2, -2..0) at scale 2.
    let expected: i64 = 4 * (2 + 3) + 4 * 10 * (0 + 1) + 4 * 100 * (-2 + -1);
    assert_eq!(blocks.get(&p, LODIndex(2)), Some(&expected));
    assert_eq!(terrain.voxels.get(&bounds::T::new(3, 1, -1, 2)), Some(&(3 + 10 - 100)));
    assert_eq!(blocks.get(&p, LODIndex(1)), None);
}

#[test]
fn load_request_out_of_range_makes_nothing() {
    let calls = Cell::new(0u32);
    let sampler = |_: &bounds::T| {
        calls.set(calls.get() + 1);
        1i64
    };
    let meshed = Cell::new(false);
    let mut terrain = terrain::T::new(sampler, 3);
    let mut blocks: BlockCache<i64> = BlockCache::new();
    let p = block_position::new(1, 0, 0);
    let up = ServerToGaia::Load(p, LODIndex(3), LoadReason::ForClient);
    let done = apply_server_to_gaia(up, &mut terrain, &mut blocks, |voxels: &Vec<(bounds::T, i64)>| {
        meshed.set(true);
        sum(voxels)
    });
    assert_eq!(done, Err(Error::OutOfRange));
    assert_eq!(calls.get(), 0);
    assert!(!meshed.get());
    assert!(!blocks.contains(&p, LODIndex(3)));
    assert_eq!(terrain.voxels.get(&bounds::T::new(1, 0, 0, 3)), None);
}

#[test]
fn two_requests_deliver_the_same_block_and_sample_once() {
    let calls = Cell::new(0u32);
    let sampler = |b: &bounds::T| {
        calls.set(calls.get() + 1);
        density(b)
    };
    let mut terrain = terrain::T::new(sampler, 10);
    let mut server: Server<i64> =
        Server { player: Player { is_jumping: false }, blocks: BlockCache::new(), lg_extent: 10 };
    let p = block_position::new(0, 0, 0);
    let lod = LODIndex(1);

    let (_, first): (bool, Act) = apply_client_to_server(Up::RequestBlock(p, lod), &mut server);
    let request = match first {
        Action::Generate(request) => request,
        other => panic!("expected a request to the generator, got {:?}", other),
    };
    let done = apply_server_to_gaia(request, &mut terrain, &mut server.blocks, sum).unwrap();
    let action: Act = apply_gaia_to_server(done, &server);
    assert_eq!(action, Action::SendBlock(p, lod));
    let delivered = *server.blocks.get(&p, lod).unwrap();
    assert_eq!(calls.get(), 64);

    let (_, second): (bool, Act) = apply_client_to_server(Up::RequestBlock(p, lod), &mut server);
    assert_eq!(second, Action::SendBlock(p, lod));
    assert_eq!(*server.blocks.get(&p, lod).unwrap(), delivered);
    assert_eq!(calls.get(), 64);
}

#[test]
fn block_requested_after_a_brush_reflects_the_brush() {
    let mut terrain = terrain::T::new(density, 10);
    let mut server: Server<i64> =
        Server { player: Player { is_jumping: false }, blocks: BlockCache::new(), lg_extent: 10 };
    let p = block_position::new(0, 0, 0);
    let lod = LODIndex(3);

    let request = ServerToGaia::Load(p, lod, LoadReason::ForClient);
    apply_server_to_gaia(request, &mut terrain, &mut server.blocks, sum).unwrap();
    assert_eq!(server.blocks.get(&p, lod), Some(&0));

    // The block's one voxel at this level is the cube (0, 0, 0) of scale 3.
    let brush = box_brush((0, 0, 0), (1, 1, 1), 3, |v: &i64| *v + 5);
    let changed = apply_brush(&mut terrain, &mut server.blocks, &brush);
    assert_eq!(changed, vec![bounds::T::new(0, 0, 0, 3)]);

    let (_, action): (bool, Act) = apply_client_to_server(Up::RequestBlock(p, lod), &mut server);
    assert_eq!(action, Action::Generate(ServerToGaia::Load(p, lod, LoadReason::ForClient)));
    apply_server_to_gaia(request, &mut terrain, &mut server.blocks, sum).unwrap();
    assert_eq!(server.blocks.get(&p, lod), Some(&5));
}

#[test]
fn brush_drops_only_the_blocks_it_touches() {
    let mut terrain = terrain::T::new(density, 10);
    let mut blocks: BlockCache<i64> = BlockCache::new();
    let touched = block_position::new(-1, 0, 0);
    let other = block_position::new(0, 0, 0);
    for lod in 0..4 {
        blocks.insert(&touched, LODIndex(lod), 1);
        blocks.insert(&other, LODIndex(lod), 2);
    }
    // Unit cubes -2 ..= -1 along x lie in block -1.
    let brush = box_brush((-2, 0, 0), (0, 1, 1), 0, |v: &i64| *v);
    let changed = apply_brush(&mut terrain, &mut blocks, &brush);
    assert_eq!(changed.len(), 2);
    for lod in 0..4 {
        assert_eq!(blocks.get(&touched, LODIndex(lod)), None);
        assert_eq!(blocks.get(&other, LODIndex(lod)), Some(&2));
    }
}

#[test]
fn brush_across_blocks_drops_each_of_them() {
    let mut terrain = terrain::T::new(density, 10);
    let mut blocks: BlockCache<i64> = BlockCache::new();
    for x in -2..3 {
        blocks.insert(&block_position::new(x, 0, 0), LODIndex(0), x as i64);
    }
    // Cubes of size 2 from -4 to 7 along x: world -8 .. 16, blocks -1, 0, 1.
    let brush = box_brush((-4, 0, 0), (8, 1, 1), 1, |v: &i64| *v);
    apply_brush(&mut terrain, &mut blocks, &brush);
    assert_eq!(blocks.get(&block_position::new(-2, 0, 0), LODIndex(0)), Some(&-2));
    assert_eq!(blocks.get(&block_position::new(-1, 0, 0), LODIndex(0)), None);
    assert_eq!(blocks.get(&block_position::new(0, 0, 0), LODIndex(0)), None);
    assert_eq!(blocks.get(&block_position::new(1, 0, 0), LODIndex(0)), None);
    assert_eq!(blocks.get(&block_position::new(2, 0, 0), LODIndex(0)), Some(&2));
}

#[test]
fn brush_with_cubes_larger_than_blocks_drops_every_block() {
    let mut terrain = terrain::T::new(density, 10);
    let mut blocks: BlockCache<i64> = BlockCache::new();
    blocks.insert(&block_position::new(50, 50, 50), LODIndex(0), 1);
    let brush = box_brush((0, 0, 0), (1, 1, 1), 4, |v: &i64| *v);
    let changed = apply_brush(&mut terrain, &mut blocks, &brush);
    assert_eq!(changed, vec![bounds::T::new(0, 0, 0, 4)]);
    assert!(!blocks.contains(&block_position::new(50, 50, 50), LODIndex(0)));
}

#[test]
fn brush_that_touches_nothing_drops_nothing() {
    let mut terrain = terrain::T::new(density, 10);
    let mut blocks: BlockCache<i64> = BlockCache::new();
    blocks.insert(&block_position::new(0, 0, 0), LODIndex(0), 1);
    for lg_size in [0i16, 4] {
        let brush = box_brush((0, 0, 0), (0, 1, 1), lg_size, |v: &i64| *v);
        let changed = apply_brush(&mut terrain, &mut blocks, &brush);
        assert!(changed.is_empty());
        assert!(blocks.contains(&block_position::new(0, 0, 0), LODIndex(0)));
    }
}
