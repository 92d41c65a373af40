use tank_core::geom::{Quat, Transform, Vec3};
use tank_core::part::{
    Commands, PartData, PartDataMap, PartHitbox, PartPrimitiveData, SceneMesh, SceneNode,
    ScenePrimitive, SocketKind, SpawnPayload,
};
use tank_core::voxel::ShapeData;

fn t(x: i32, y: i32, z: i32) -> Transform {
    Transform { translation: Vec3 { x, y, z }, rotation: Quat { x: 0, y: 0, z: 0, w: 1 } }
}

fn mesh_node(name: &str, tr: Transform, prims: Vec<ScenePrimitive>) -> SceneNode {
    SceneNode { name: name.to_string(), transform: tr, mesh: Some(SceneMesh { primitives: prims }) }
}

fn marker_node(name: &str, tr: Transform, with_mesh: bool) -> SceneNode {
    SceneNode {
        name: name.to_string(),
        transform: tr,
        mesh: if with_mesh {
            Some(SceneMesh { primitives: vec![] })
        } else {
            None
        },
    }
}

#[test]
fn part_built_from_mesh_node() {
    let nodes = vec![mesh_node(
        "Hull",
        t(1, 2, 3),
        vec![
            ScenePrimitive { mesh: 10, material: Some(20) },
            ScenePrimitive { mesh: 11, material: None },
            ScenePrimitive { mesh: 12, material: Some(21) },
        ],
    )];
    let reg = PartDataMap::from_gltf(&nodes);
    let hull = reg.get("Hull").expect("part record");
    assert_eq!(hull.primitives.len(), 2);
    assert_eq!(hull.primitives[0], PartPrimitiveData { mesh: 10, material: 20 });
    assert_eq!(hull.primitives[1], PartPrimitiveData { mesh: 12, material: 21 });
    assert!(hull.sockets.is_empty());
    assert!(hull.hitbox.is_none());
}

#[test]
fn meshless_node_yields_no_record() {
    let nodes = vec![marker_node("Frame", t(0, 0, 0), false)];
    let reg = PartDataMap::from_gltf(&nodes);
    assert!(reg.get("Frame").is_none());
}

#[test]
fn primary_socket_offset_is_node_minus_part() {
    let nodes = vec![
        mesh_node("Hull", t(10, 20, 30), vec![ScenePrimitive { mesh: 1, material: Some(2) }]),
        marker_node("Socket.Hull.Mount", t(13, 18, 30), false),
    ];
    let reg = PartDataMap::from_gltf(&nodes);
    let hull = reg.get("Hull").unwrap();
    assert_eq!(hull.sockets.len(), 1);
    let s = &hull.sockets[0];
    assert_eq!(s.name.as_deref(), Some("Mount"));
    assert_eq!(s.kind, SocketKind::Primary);
    assert_eq!((s.offset.x, s.offset.y, s.offset.z), (3, -2, 0));
}

#[test]
fn paired_socket_attaches_to_both_parts() {
    let nodes = vec![
        mesh_node("Hull", t(0, 0, 0), vec![ScenePrimitive { mesh: 1, material: Some(2) }]),
        mesh_node("Turret", t(5, 5, 0), vec![ScenePrimitive { mesh: 3, material: Some(4) }]),
        marker_node("Socket.Hull.Mount.Turret", t(2, 1, 0), false),
    ];
    let reg = PartDataMap::from_gltf(&nodes);
    let hull = reg.get("Hull").unwrap();
    let turret = reg.get("Turret").unwrap();
    assert_eq!(hull.sockets.len(), 1);
    assert_eq!(turret.sockets.len(), 1);
    assert_eq!(hull.sockets[0].kind, SocketKind::Primary);
    assert_eq!(hull.sockets[0].name.as_deref(), Some("Mount"));
    assert_eq!(
        (hull.sockets[0].offset.x, hull.sockets[0].offset.y, hull.sockets[0].offset.z),
        (2, 1, 0),
    );
    assert_eq!(turret.sockets[0].kind, SocketKind::Secondary);
    assert_eq!(turret.sockets[0].name, None);
    assert_eq!(
        (turret.sockets[0].offset.x, turret.sockets[0].offset.y, turret.sockets[0].offset.z),
        (-3, -4, 0),
    );
}

#[test]
fn socket_for_unknown_part_changes_nothing() {
    let base = vec![mesh_node("Hull", t(0, 0, 0), vec![ScenePrimitive { mesh: 1, material: Some(2) }])];
    let mut with_socket = vec![base[0].clone_for_test()];
    with_socket.push(marker_node("Socket.Chassis.Mount", t(1, 1, 1), false));
    let reg_base = PartDataMap::from_gltf(&base);
    let reg = PartDataMap::from_gltf(&with_socket);
    assert!(reg.get("Chassis").is_none());
    let hull_base = reg_base.get("Hull").unwrap();
    let hull = reg.get("Hull").unwrap();
    assert_eq!(hull.sockets.len(), hull_base.sockets.len());
    assert_eq!(hull.primitives, hull_base.primitives);
}

#[test]
fn malformed_socket_names_are_skipped() {
    let nodes = vec![
        mesh_node("Hull", t(0, 0, 0), vec![ScenePrimitive { mesh: 1, material: Some(2) }]),
        marker_node("Socket.Hull", t(1, 1, 1), false),
        marker_node("OddSocketName", t(1, 1, 1), false),
    ];
    let reg = PartDataMap::from_gltf(&nodes);
    let hull = reg.get("Hull").unwrap();
    assert!(hull.sockets.is_empty());
}

#[test]
fn hitbox_attached_and_overwritten() {
    let nodes = vec![
        mesh_node("Hull", t(0, 0, 0), vec![ScenePrimitive { mesh: 1, material: Some(2) }]),
        marker_node("Hitbox.Hull.Box", t(1, 0, 0), true),
        marker_node("Hitbox.Hull.Sphere", t(0, 2, 0), true),
    ];
    let reg = PartDataMap::from_gltf(&nodes);
    let hull = reg.get("Hull").unwrap();
    let hb = hull.hitbox.expect("hitbox attached");
    assert_eq!(hb.shape, 1);
    assert_eq!(hb.transform.translation, Vec3 { x: 0, y: 2, z: 0 });
    assert_eq!(hb.shape(), 1);
}

#[test]
fn hitbox_without_mesh_or_part_is_skipped() {
    let nodes = vec![
        mesh_node("Hull", t(0, 0, 0), vec![ScenePrimitive { mesh: 1, material: Some(2) }]),
        marker_node("Hitbox.Hull.Box", t(1, 0, 0), false),
        marker_node("Hitbox.Chassis.Box", t(1, 0, 0), true),
        marker_node("Hitbox.Hull.Pyramid", t(1, 0, 0), true),
    ];
    let reg = PartDataMap::from_gltf(&nodes);
    let hull = reg.get("Hull").unwrap();
    assert!(hull.hitbox.is_none());
}

#[test]
fn hitbox_name_parse() {
    let parsed = PartHitbox::part_name_and_hitbox_shape_from_hitbox_name("Hitbox.Hull.Capsule");
    assert_eq!(parsed, Some(("Hull".to_string(), 2)));
    assert_eq!(PartHitbox::part_name_and_hitbox_shape_from_hitbox_name("Hitbox.Hull"), None);
    assert_eq!(PartHitbox::part_name_and_hitbox_shape_from_hitbox_name("Hull.Box"), None);
    assert_eq!(
        PartHitbox::part_name_and_hitbox_shape_from_hitbox_name("Hitbox.Hull.Cone"),
        None,
    );
}

#[test]
fn self_paired_socket_attaches_twice_to_same_part() {
    let nodes = vec![
        mesh_node("Hull", t(1, 0, 0), vec![ScenePrimitive { mesh: 1, material: Some(2) }]),
        marker_node("Socket.Hull.Loop.Hull", t(4, 0, 0), false),
    ];
    let reg = PartDataMap::from_gltf(&nodes);
    let hull = reg.get("Hull").unwrap();
    assert_eq!(hull.sockets.len(), 2);
    assert_eq!(hull.sockets[0].kind, SocketKind::Primary);
    assert_eq!(hull.sockets[1].kind, SocketKind::Secondary);
    assert_eq!(hull.sockets[0].offset.x, 3);
    assert_eq!(hull.sockets[1].offset.x, 3);
}

#[test]
fn unknown_secondary_part_still_gets_primary() {
    let nodes = vec![
        mesh_node("Hull", t(0, 0, 0), vec![ScenePrimitive { mesh: 1, material: Some(2) }]),
        marker_node("Socket.Hull.Mount.Ghost", t(1, 1, 1), false),
    ];
    let reg = PartDataMap::from_gltf(&nodes);
    let hull = reg.get("Hull").unwrap();
    assert_eq!(hull.sockets.len(), 1);
    assert_eq!(hull.sockets[0].kind, SocketKind::Primary);
}

#[test]
fn socket_marker_wins_over_hitbox_marker() {
    let nodes = vec![
        mesh_node("Hull", t(0, 0, 0), vec![ScenePrimitive { mesh: 1, material: Some(2) }]),
        marker_node("Hitbox.Socket.Hull", t(1, 1, 1), true),
    ];
    let reg = PartDataMap::from_gltf(&nodes);
    let hull = reg.get("Hull").unwrap();
    assert!(hull.hitbox.is_none());
    assert!(hull.sockets.is_empty());
}

#[test]
fn later_part_node_with_same_name_wins() {
    let nodes = vec![
        mesh_node("Hull", t(0, 0, 0), vec![ScenePrimitive { mesh: 1, material: Some(2) }]),
        mesh_node("Hull", t(0, 0, 0), vec![ScenePrimitive { mesh: 9, material: Some(9) }]),
    ];
    let reg = PartDataMap::from_gltf(&nodes);
    let hull = reg.get("Hull").unwrap();
    assert_eq!(hull.primitives, vec![PartPrimitiveData { mesh: 9, material: 9 }]);
}

#[test]
fn registry_insert_and_get() {
    let mut reg = PartDataMap::default();
    assert!(reg.get("Hull").is_none());
    let part = PartData {
        primitives: vec![PartPrimitiveData::new(7, 8)],
        sockets: vec![],
        hitbox: None,
    };
    reg.insert("Hull".to_string(), part);
    let got = reg.get("Hull").unwrap();
    assert_eq!(got.primitives, vec![PartPrimitiveData { mesh: 7, material: 8 }]);
    let replacement = PartData { primitives: vec![], sockets: vec![], hitbox: None };
    reg.insert("Hull".to_string(), replacement);
    assert!(reg.get("Hull").unwrap().primitives.is_empty());
}

#[test]
fn spawning_a_part_records_root_and_children() {
    let nodes = vec![
        mesh_node("Hull", t(0, 0, 0), vec![ScenePrimitive { mesh: 1, material: Some(2) }]),
        marker_node("Socket.Hull.Mount", t(1, 1, 1), false),
        marker_node("Hitbox.Hull.Box", t(0, 0, 0), true),
    ];
    let reg = PartDataMap::from_gltf(&nodes);
    let hull = reg.get("Hull").unwrap();
    let mut commands = Commands::new(100);
    let root = hull.spawn(t(9, 9, 9), &mut commands);
    assert_eq!(root, 100);
    assert_eq!(commands.next_entity, 104);
    assert_eq!(commands.spawned.len(), 4);
    assert_eq!(commands.spawned[0].entity, 100);
    assert_eq!(commands.spawned[0].parent, None);
    assert!(matches!(commands.spawned[0].payload, SpawnPayload::PartRoot(tr) if tr == t(9, 9, 9)));
    assert_eq!(commands.spawned[1].parent, Some(100));
    assert!(matches!(
        commands.spawned[1].payload,
        SpawnPayload::Primitive(p) if p == PartPrimitiveData { mesh: 1, material: 2 }
    ));
    assert!(matches!(&commands.spawned[2].payload, SpawnPayload::Socket(s) if s.kind == SocketKind::Primary));
    assert!(matches!(&commands.spawned[3].payload, SpawnPayload::Hitbox(h) if h.shape == 0));
}

trait CloneForTest {
    fn clone_for_test(&self) -> SceneNode;
}

impl CloneForTest for SceneNode {
    fn clone_for_test(&self) -> SceneNode {
        SceneNode {
            name: self.name.clone(),
            transform: self.transform,
            mesh: self.mesh.as_ref().map(|m| SceneMesh { primitives: m.primitives.clone() }),
        }
    }
}
