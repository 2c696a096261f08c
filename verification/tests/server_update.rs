use voxel_terrain::block_cache::BlockCache;
use voxel_terrain::block_position;
use voxel_terrain::entity::EntityId;
use voxel_terrain::lod::LODIndex;
use voxel_terrain::protocol::{ClientId, ClientToServer, LoadReason, ServerToGaia};
use voxel_terrain::server_update::{
    apply_client_to_server, apply_gaia_to_server, Action, GaiaToServer, Player, Server,
};

type Up = ClientToServer<(i32, i32, i32), (i32, i32)>;
type Act = Action<(i32, i32, i32), (i32, i32)>;

fn server(lg_extent: i16) -> Server<String> {
    Server { player: Player { is_jumping: false }, blocks: BlockCache::new(), lg_extent }
}

#[test]
fn init_informs_the_client() {
    let mut s = server(10);
    let r: (bool, Act) = apply_client_to_server(Up::Init("127.0.0.1:8080".to_string()), &mut s);
    assert_eq!(r, (true, Action::InformClient));
}

#[test]
fn add_player_is_nothing_to_the_terrain_server() {
    let mut s = server(10);
    let r: (bool, Act) = apply_client_to_server(Up::AddPlayer(ClientId(3)), &mut s);
    assert_eq!(r, (true, Action::Nothing));
}

#[test]
fn quit_ends_the_loop() {
    let mut s = server(10);
    let r: (bool, Act) = apply_client_to_server(Up::Quit, &mut s);
    assert_eq!(r, (false, Action::Quit));
}

#[test]
fn jump_starts_once_and_stops_once() {
    let mut s = server(10);
    let r: (bool, Act) = apply_client_to_server(Up::StopJump, &mut s);
    assert_eq!(r, (true, Action::Nothing));
    assert!(!s.player.is_jumping);
    let r: (bool, Act) = apply_client_to_server(Up::StartJump, &mut s);
    assert_eq!(r, (true, Action::StartJump));
    assert!(s.player.is_jumping);
    let r: (bool, Act) = apply_client_to_server(Up::StartJump, &mut s);
    assert_eq!(r, (true, Action::Nothing));
    assert!(s.player.is_jumping);
    let r: (bool, Act) = apply_client_to_server(Up::StopJump, &mut s);
    assert_eq!(r, (true, Action::StopJump));
    assert!(!s.player.is_jumping);
}

#[test]
fn walk_and_rotate_pass_their_payload_on() {
    let mut s = server(10);
    let r: (bool, Act) = apply_client_to_server(Up::Walk((1, 0, -1)), &mut s);
    assert_eq!(r, (true, Action::Walk((1, 0, -1))));
    let r: (bool, Act) = apply_client_to_server(Up::RotatePlayer((3, 4)), &mut s);
    assert_eq!(r, (true, Action::Rotate((3, 4))));
    assert!(!s.player.is_jumping);
}

#[test]
fn request_for_a_missing_block_goes_to_the_generator() {
    let mut s = server(10);
    let p = block_position::new(1, 2, 3);
    let r: (bool, Act) = apply_client_to_server(Up::RequestBlock(p, LODIndex(1)), &mut s);
    assert_eq!(
        r,
        (true, Action::Generate(ServerToGaia::Load(p, LODIndex(1), LoadReason::ForClient)))
    );
}

#[test]
fn request_for_a_kept_block_is_answered_at_once() {
    let mut s = server(10);
    let p = block_position::new(1, 2, 3);
    s.blocks.insert(&p, LODIndex(1), "block".to_string());
    for _ in 0..2 {
        let r: (bool, Act) = apply_client_to_server(Up::RequestBlock(p, LODIndex(1)), &mut s);
        assert_eq!(r, (true, Action::SendBlock(p, LODIndex(1))));
        assert_eq!(s.blocks.get(&p, LODIndex(1)), Some(&"block".to_string()));
    }
    // Another level of the same position is another block.
    let r: (bool, Act) = apply_client_to_server(Up::RequestBlock(p, LODIndex(2)), &mut s);
    assert_eq!(
        r,
        (true, Action::Generate(ServerToGaia::Load(p, LODIndex(2), LoadReason::ForClient)))
    );
}

#[test]
fn request_out_of_range_is_refused() {
    // Half-width 2^5 = 32 units: blocks -4 ..= 3 along each axis.
    let mut s = server(5);
    let inside = block_position::new(3, -4, 0);
    let r: (bool, Act) = apply_client_to_server(Up::RequestBlock(inside, LODIndex(0)), &mut s);
    assert_eq!(
        r,
        (true, Action::Generate(ServerToGaia::Load(inside, LODIndex(0), LoadReason::ForClient)))
    );
    for outside in [block_position::new(4, 0, 0), block_position::new(0, 0, -5)] {
        let r: (bool, Act) = apply_client_to_server(Up::RequestBlock(outside, LODIndex(0)), &mut s);
        assert_eq!(r, (true, Action::OutOfRange(outside, LODIndex(0))));
    }
}

#[test]
fn request_at_a_level_past_the_last_goes_to_the_generator() {
    let mut s = server(10);
    let p = block_position::new(0, 0, 0);
    s.blocks.insert(&p, LODIndex(3), "kept".to_string());
    for level in [4, 5, 100, u32::MAX] {
        let r: (bool, Act) = apply_client_to_server(Up::RequestBlock(p, LODIndex(level)), &mut s);
        assert_eq!(
            r,
            (true, Action::Generate(ServerToGaia::Load(p, LODIndex(level), LoadReason::ForClient)))
        );
    }
    assert_eq!(s.blocks.get(&p, LODIndex(3)), Some(&"kept".to_string()));
    assert_eq!(s.blocks.get(&p, LODIndex(4)), None);
}

#[test]
fn request_outside_the_world_is_refused_at_any_level() {
    let mut s = server(5);
    let outside = block_position::new(4, 0, 0);
    for level in [0, 3, 4, u32::MAX] {
        let r: (bool, Act) =
            apply_client_to_server(Up::RequestBlock(outside, LODIndex(level)), &mut s);
        assert_eq!(r, (true, Action::OutOfRange(outside, LODIndex(level))));
    }
}

#[test]
fn request_for_cubes_without_addresses_is_refused() {
    let mut s = server(i16::MAX);
    let far = block_position::new(67_108_863, 0, 0);
    let r: (bool, Act) = apply_client_to_server(Up::RequestBlock(far, LODIndex(0)), &mut s);
    assert_eq!(r, (true, Action::OutOfRange(far, LODIndex(0))));
    let r: (bool, Act) = apply_client_to_server(Up::RequestBlock(far, LODIndex(1)), &mut s);
    assert_eq!(
        r,
        (true, Action::Generate(ServerToGaia::Load(far, LODIndex(1), LoadReason::ForClient)))
    );
}

#[test]
fn request_out_of_range_is_refused_even_if_a_block_is_kept() {
    let mut s = server(2);
    let outside = block_position::new(4, 0, 0);
    s.blocks.insert(&outside, LODIndex(0), "stray".to_string());
    let r: (bool, Act) = apply_client_to_server(Up::RequestBlock(outside, LODIndex(0)), &mut s);
    assert_eq!(r, (true, Action::OutOfRange(outside, LODIndex(0))));
}

#[test]
fn loaded_for_the_client_is_sent_to_the_client() {
    let mut s = server(10);
    let p = block_position::new(0, -1, 0);
    s.blocks.insert(&p, LODIndex(3), "block".to_string());
    let up = GaiaToServer::Loaded(p, LODIndex(3), LoadReason::ForClient);
    let action: Act = apply_gaia_to_server(up, &s);
    assert_eq!(action, Action::SendBlock(p, LODIndex(3)));
}

#[test]
fn loaded_for_the_simulation_is_handed_to_its_owner() {
    let s = server(10);
    let p = block_position::new(0, -1, 0);
    let up = GaiaToServer::Loaded(p, LODIndex(0), LoadReason::Local(EntityId(12)));
    let action: Act = apply_gaia_to_server(up, &s);
    assert_eq!(action, Action::LoadLocal(p, LODIndex(0), EntityId(12)));
}
