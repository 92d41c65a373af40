use tank_core::player::{
    InputActionBindings, InputDevice, Player, PlayerController, PlayerEntry, PlayerLookState,
    PlayerMainCameraRef, Players,
};

#[test]
fn next_id_is_lowest_free() {
    assert_eq!(Player::next_id(&vec![]), 0);
    assert_eq!(Player::next_id(&vec![0, 1, 2]), 3);
    assert_eq!(Player::next_id(&vec![1, 2]), 0);
    assert_eq!(Player::next_id(&vec![0, 2]), 1);
    assert_eq!(Player::next_id(&vec![2, 0, 0]), 1);
}

#[test]
fn spawned_players_get_sequential_ids() {
    let mut world = Players::new();
    let p0 = world.spawn_default_player();
    let p1 = world.spawn_default_player();
    let p2 = world.spawn_default_player();
    assert_ne!(p0, p1);
    assert_ne!(p1, p2);
    let ids: Vec<u32> = world.players.iter().map(|p| p.id).collect();
    assert_eq!(ids, vec![0, 1, 2]);
    assert_eq!(world.cameras.len(), 3);
}

#[test]
fn despawn_frees_id_for_reuse() {
    let mut world = Players::new();
    let _p0 = world.spawn_default_player();
    let p1 = world.spawn_default_player();
    let _p2 = world.spawn_default_player();
    world.despawn_player(p1);
    let ids: Vec<u32> = world.players.iter().map(|p| p.id).collect();
    assert_eq!(ids, vec![0, 2]);
    world.spawn_default_player();
    let ids: Vec<u32> = world.players.iter().map(|p| p.id).collect();
    assert_eq!(ids, vec![0, 2, 1]);
}

#[test]
fn despawn_removes_player_and_its_camera() {
    let mut world = Players::new();
    let p0 = world.spawn_default_player();
    let cam0 = world.players[0].camera.expect("spawn assigns a camera");
    assert!(world.cameras.contains(&cam0));
    world.despawn_player(p0);
    assert!(world.players.is_empty());
    assert!(!world.cameras.contains(&cam0));
}

#[test]
fn despawn_without_camera_reference_is_harmless() {
    let mut world = Players::new();
    world.next_entity = 1;
    world.players.push(PlayerEntry { entity: 0, id: 0, camera: None });
    world.despawn_player(0);
    assert!(world.players.is_empty());
    assert!(world.cameras.is_empty());
}

#[test]
fn despawn_of_unknown_entity_changes_nothing() {
    let mut world = Players::new();
    let _p0 = world.spawn_default_player();
    let players_before = world.players.len();
    let cameras_before = world.cameras.len();
    world.despawn_player(4242);
    assert_eq!(world.players.len(), players_before);
    assert_eq!(world.cameras.len(), cameras_before);
}

#[test]
fn bundle_defaults() {
    let bundle = tank_core::player::PlayerBundle::new(
        Some(7),
        None,
        None,
        &[InputDevice(3), InputDevice(4)],
    );
    assert_eq!(bundle.player_main_camera_ref, PlayerMainCameraRef(Some(7)));
    assert_eq!(bundle.player_controller, PlayerController { controlled_entity: None });
    assert_eq!(bundle.player_look_state, PlayerLookState::Camera);
    assert_eq!(bundle.input_action_bindings, InputActionBindings);
    assert_eq!(bundle.input_device_receiver.devices, vec![InputDevice(3), InputDevice(4)]);
    assert_eq!(bundle.id.get(), 0);
}

#[test]
fn camera_ref_accessors() {
    let mut re = PlayerMainCameraRef::new(None);
    assert_eq!(*re.try_get(), None);
    re.set(Some(5));
    assert_eq!(*re.try_get(), Some(5));
    re.set(None);
    assert_eq!(*re.try_get(), None);
}
