//! Player lifecycle bookkeeping. Entities are plain identifiers handed out by
//! the player world itself, so spawning and despawning — and the id and
//! camera bookkeeping they imply — are stated and proved here; the host
//! engine mirrors these decisions into its own entity store.

use vstd::prelude::*;

verus! {

/// An entity identifier in the player world.
pub type Entity = u64;

/// Registration marker for the player systems; the engine-side wiring lives
/// with the host application.
pub struct TankPlayerPlugin;

/// Marks the one player that cannot be despawned and that receives all input
/// devices not bound to other players.
#[derive(PartialEq, Eq, Structural)]
pub struct PrimaryPlayer;

/// Marker component for player entities.
#[derive(PartialEq, Eq, Structural)]
pub struct Player;

/// A player's sequential identity.
#[derive(Clone, Copy, Debug, PartialEq, Eq, Structural)]
pub struct Id {
    pub value: u32,
}

impl Id {
    pub fn new(value: u32) -> (r: Id)
        ensures
            r == (Id { value }),
    {
        Id { value }
    }

    pub fn get(&self) -> (r: u32)
        ensures
            r == self.value,
    {
        self.value
    }
}

impl Default for Id {
    fn default() -> (r: Id)
        ensures
            r == (Id { value: 0 }),
    {
        Id { value: 0 }
    }
}

/// `r` is the lowest non-negative integer that is not in use.
pub open spec fn is_lowest_free(ids: Seq<u32>, r: u32) -> bool {
    &&& !ids.contains(r)
    &&& forall|j: u32| j < r ==> ids.contains(j)
}

/// Two lowest free ids over the same set are the same id.
pub proof fn lemma_lowest_free_unique(ids: Seq<u32>, x: u32, y: u32)
    requires
        is_lowest_free(ids, x),
        is_lowest_free(ids, y),
    ensures
        x == y,
{
    if x < y {
        assert(ids.contains(x));
    }
    if y < x {
        assert(ids.contains(y));
    }
}

/// If every id below `m` is in use, there are at least `m` entries.
proof fn lemma_ids_below_bound(ids: Seq<u32>, m: u32)
    requires
        forall|j: u32| j < m ==> ids.contains(j),
    ensures
        m <= ids.len(),
    decreases m,
{
    if m > 0 {
        let prev = (m - 1) as u32;
        assert(ids.contains(prev));
        let k = choose|k: int| 0 <= k < ids.len() && ids[k] == prev;
        let rest = ids.remove(k);
        assert forall|j: u32| j < prev implies rest.contains(j) by {
            assert(ids.contains(j));
            let k2 = choose|k2: int| 0 <= k2 < ids.len() && ids[k2] == j;
            assert(k2 != k);
            if k2 < k {
                assert(rest[k2] == j);
            } else {
                assert(rest[k2 - 1] == j);
            }
        };
        lemma_ids_below_bound(rest, prev);
    }
}

/// Whether `x` occurs in `v`.
fn contains_id(v: &Vec<u32>, x: u32) -> (b: bool)
    ensures
        b == v@.contains(x),
{
    let mut i: usize = 0;
    while i < v.len()
        invariant
            0 <= i <= v@.len(),
            forall|k: int| 0 <= k < i ==> v@[k] != x,
        decreases v@.len() - i,
    {
        if v[i] == x {
            return true;
        }
        i += 1;
    }
    false
}

impl Player {
    /// The id the next player receives: the lowest non-negative integer not
    /// already in use among the ids handed in.
    pub fn next_id(existing_ids: &Vec<u32>) -> (r: u32)
        requires
            existing_ids@.len() < 0xFFFF_FFFFusize,
        ensures
            is_lowest_free(existing_ids@, r),
    {
        let mut id: u32 = 0;
        loop
            invariant
                existing_ids@.len() < 0xFFFF_FFFFusize,
                forall|j: u32| j < id ==> existing_ids@.contains(j),
                id <= existing_ids@.len(),
            decreases existing_ids@.len() - id,
        {
            if !contains_id(existing_ids, id) {
                return id;
            }
            proof {
                assert(forall|j: u32| j < id + 1 ==> existing_ids@.contains(j));
                lemma_ids_below_bound(existing_ids@, (id + 1) as u32);
            }
            id = id + 1;
        }
    }
}

/// A player's reference to its main camera entity; either a 3d or a 2d
/// camera, or none at all.
#[derive(Clone, Copy, Debug, PartialEq, Eq, Structural)]
pub struct PlayerMainCameraRef(pub Option<Entity>);

impl PlayerMainCameraRef {
    pub fn new(camera: Option<Entity>) -> (r: Self)
        ensures
            r == PlayerMainCameraRef(camera),
    {
        Self { 0: camera }
    }

    pub fn try_get(&self) -> (r: &Option<Entity>)
        ensures
            r == self.0,
    {
        &self.0
    }

    pub fn set(&mut self, camera: Option<Entity>)
        ensures
            *final(self) == PlayerMainCameraRef(camera),
    {
        self.0 = camera
    }
}

impl Default for PlayerMainCameraRef {
    fn default() -> (r: Self)
        ensures
            r == PlayerMainCameraRef(None::<Entity>),
    {
        PlayerMainCameraRef(None)
    }
}

/// The gui entities a player is viewing.
pub struct PlayerGuiViewer(pub Vec<Entity>);

/// Collects the entities the player has selected.
pub struct PlayerSelector {
    pub selected_entities: Vec<Entity>,
}

impl PlayerSelector {
    pub fn new(selected_entities: Vec<Entity>) -> (r: Self)
        ensures
            r.selected_entities@ == selected_entities@,
    {
        Self { selected_entities }
    }
}

/// Routes a player's inputs to a single controlled entity, if any.
#[derive(Clone, Copy, Debug, PartialEq, Eq, Structural)]
pub struct PlayerController {
    pub controlled_entity: Option<Entity>,
}

impl PlayerController {
    pub fn new(controlled_entity: Option<Entity>) -> (r: Self)
        ensures
            r == (PlayerController { controlled_entity }),
    {
        Self { controlled_entity }
    }
}

impl Default for PlayerController {
    fn default() -> (r: Self)
        ensures
            r == (PlayerController { controlled_entity: None }),
    {
        PlayerController { controlled_entity: None }
    }
}

/// What look inputs drive for a player.
#[derive(Clone, Copy, Debug, PartialEq, Eq, Structural)]
pub enum PlayerLookState {
    /// Look inputs rotate the camera.
    Camera,
    /// Look inputs move the cursor.
    Cursor,
}

impl Default for PlayerLookState {
    fn default() -> (r: Self)
        ensures
            r == PlayerLookState::Camera,
    {
        PlayerLookState::Camera
    }
}

/// An input device that can be bound to a player.
#[derive(Clone, Copy, Debug, PartialEq, Eq, Structural)]
pub struct InputDevice(pub u32);

/// The devices a player receives input from.
pub struct InputDeviceReceiver {
    pub devices: Vec<InputDevice>,
}

impl InputDeviceReceiver {
    pub fn from_devices(devices: &[InputDevice]) -> (r: Self)
        ensures
            r.devices@ == devices@,
    {
        Self { devices: vstd::slice::slice_to_vec(devices) }
    }
}

impl Default for InputDeviceReceiver {
    fn default() -> (r: Self)
        ensures
            r.devices@ == Seq::<InputDevice>::empty(),
    {
        InputDeviceReceiver { devices: Vec::new() }
    }
}

/// A player's accumulated action state; filled by the host's input systems.
#[derive(PartialEq, Eq, Structural)]
pub struct InputActions;

impl Default for InputActions {
    fn default() -> (r: Self)
        ensures
            r == InputActions,
    {
        InputActions
    }
}

/// A player's action bindings; authored by the host.
#[derive(Clone, Copy, Debug, PartialEq, Eq, Structural)]
pub struct InputActionBindings;

impl Default for InputActionBindings {
    fn default() -> (r: Self)
        ensures
            r == InputActionBindings,
    {
        InputActionBindings
    }
}

/// Raw button state, polled by the host.
#[derive(PartialEq, Eq, Structural)]
pub struct RawButtonInput;

impl Default for RawButtonInput {
    fn default() -> (r: Self)
        ensures
            r == RawButtonInput,
    {
        RawButtonInput
    }
}

/// Raw axis state, polled by the host.
#[derive(PartialEq, Eq, Structural)]
pub struct RawAxisInput;

impl Default for RawAxisInput {
    fn default() -> (r: Self)
        ensures
            r == RawAxisInput,
    {
        RawAxisInput
    }
}

/// Everything a freshly spawned player entity carries.
pub struct PlayerBundle {
    pub player: Player,
    pub player_main_camera_ref: PlayerMainCameraRef,
    pub player_look_state: PlayerLookState,
    pub player_controller: PlayerController,
    pub input_actions: InputActions,
    pub input_action_bindings: InputActionBindings,
    pub input_device_receiver: InputDeviceReceiver,
    pub raw_button_input: RawButtonInput,
    pub raw_axis_input: RawAxisInput,
    pub id: Id,
}

impl PlayerBundle {
    /// A bundle with the given camera, controlled entity, bindings and
    /// devices; everything else starts at its default.
    pub fn new(
        main_camera: Option<Entity>,
        controlled_entity: Option<Entity>,
        input_action_bindings: Option<InputActionBindings>,
        input_devices: &[InputDevice],
    ) -> (r: Self)
        ensures
            r.player_main_camera_ref == PlayerMainCameraRef(main_camera),
            r.player_controller == (PlayerController { controlled_entity }),
            r.input_action_bindings == (match input_action_bindings {
                Some(b) => b,
                None => InputActionBindings,
            }),
            r.input_device_receiver.devices@ == input_devices@,
            r.player_look_state == PlayerLookState::Camera,
            r.id == (Id { value: 0 }),
    {
        Self {
            player: Player,
            player_main_camera_ref: PlayerMainCameraRef::new(main_camera),
            player_look_state: PlayerLookState::Camera,
            player_controller: PlayerController::new(controlled_entity),
            input_actions: InputActions,
            input_action_bindings: match input_action_bindings {
                Some(b) => b,
                None => InputActionBindings,
            },
            input_device_receiver: InputDeviceReceiver::from_devices(input_devices),
            raw_button_input: RawButtonInput,
            raw_axis_input: RawAxisInput,
            id: Id { value: 0 },
        }
    }
}

/// One live player: its entity, its id, and its camera entity if it has one.
#[derive(Clone, Copy, Debug, PartialEq, Eq, Structural)]
pub struct PlayerEntry {
    pub entity: Entity,
    pub id: u32,
    pub camera: Option<Entity>,
}

/// The player world: the live players, the live camera entities, and the next
/// fresh entity identifier.
pub struct Players {
    pub next_entity: Entity,
    pub players: Vec<PlayerEntry>,
    pub cameras: Vec<Entity>,
}

impl Players {
    /// The ids currently in use, in player order.
    pub open spec fn ids(&self) -> Seq<u32> {
        self.players@.map_values(|p: PlayerEntry| p.id)
    }

    /// Whether a player with this entity exists.
    pub open spec fn has_player(&self, e: Entity) -> bool {
        exists|i: int| 0 <= i < self.players@.len() && self.players@[i].entity == e
    }

    /// Well-formedness: entities, ids and cameras are pairwise distinct,
    /// every camera reference points at a live camera, no two players share
    /// one, and every identifier in use is below the next fresh one.
    pub open spec fn wf(&self) -> bool {
        &&& forall|i: int, j: int|
            0 <= i < j < self.players@.len() ==> self.players@[i].entity
                != self.players@[j].entity
        &&& forall|i: int, j: int|
            0 <= i < j < self.players@.len() ==> self.players@[i].id != self.players@[j].id
        &&& forall|i: int, j: int|
            0 <= i < j < self.cameras@.len() ==> self.cameras@[i] != self.cameras@[j]
        &&& forall|i: int|
            0 <= i < self.players@.len() ==> ((#[trigger] self.players@[i]).camera is Some
                ==> self.cameras@.contains(self.players@[i].camera->0))
        &&& forall|i: int, j: int|
            0 <= i < j < self.players@.len() ==> !(self.players@[i].camera is Some
                && self.players@[i].camera == self.players@[j].camera)
        &&& forall|i: int| 0 <= i < self.players@.len() ==> self.players@[i].entity
            < self.next_entity
        &&& forall|i: int| 0 <= i < self.cameras@.len() ==> self.cameras@[i] < self.next_entity
    }

    /// An empty player world.
    pub fn new() -> (r: Players)
        ensures
            r.wf(),
            r.players@ == Seq::<PlayerEntry>::empty(),
            r.cameras@ == Seq::<Entity>::empty(),
            r.next_entity == 0,
    {
        Players { next_entity: 0, players: Vec::new(), cameras: Vec::new() }
    }

    /// Spawns a fresh camera entity and then a fresh player entity viewing
    /// through it, with the lowest id not already in use, and returns the
    /// player entity.
    pub fn spawn_default_player(&mut self) -> (player_entity: Entity)
        requires
            old(self).wf(),
            old(self).next_entity <= u64::MAX - 2,
            old(self).players@.len() < 0xFFFF_FFFFusize,
        ensures
            final(self).wf(),
            final(self).next_entity == old(self).next_entity + 2,
            final(self).cameras@ == old(self).cameras@.push(old(self).next_entity),
            final(self).players@.len() == old(self).players@.len() + 1,
            final(self).players@.drop_last() == old(self).players@,
            ({
                let p = final(self).players@.last();
                &&& p.entity == old(self).next_entity + 1
                &&& p.camera == Some(old(self).next_entity)
                &&& is_lowest_free(old(self).ids(), p.id)
            }),
            player_entity == old(self).next_entity + 1,
    {
        let camera_entity = self.next_entity;
        let player_entity = self.next_entity + 1;
        let mut existing: Vec<u32> = Vec::new();
        let mut i: usize = 0;
        while i < self.players.len()
            invariant
                0 <= i <= self.players@.len(),
                existing@ == self.players@.map_values(|p: PlayerEntry| p.id).take(i as int),
            decreases self.players@.len() - i,
        {
            existing.push(self.players[i].id);
            proof {
                assert(existing@ =~= self.players@.map_values(|p: PlayerEntry| p.id).take(i + 1));
            }
            i += 1;
        }
        proof {
            assert(self.ids().take(self.ids().len() as int) =~= self.ids());
        }
        let id = Player::next_id(&existing);
        let entry = PlayerEntry { entity: player_entity, id, camera: Some(camera_entity) };
        let ghost ps0 = self.players@;
        let ghost cs0 = self.cameras@;
        self.cameras.push(camera_entity);
        self.players.push(entry);
        self.next_entity = self.next_entity + 2;
        proof {
            assert(self.players@.drop_last() =~= ps0);
            assert(forall|k: int| 0 <= k < ps0.len() ==> self.players@[k] == ps0[k]);
            assert(forall|k: int| 0 <= k < cs0.len() ==> self.cameras@[k] == cs0[k]);
            assert forall|a: int, b: int|
                0 <= a < b < self.players@.len() implies self.players@[a].id
                != self.players@[b].id by {
                if b == self.players@.len() - 1 {
                    assert(!old(self).ids().contains(entry.id));
                    assert(old(self).ids()[a] == ps0[a].id);
                }
            };
            assert forall|a: int|
                0 <= a < self.players@.len() && (#[trigger] self.players@[a]).camera
                    is Some implies self.cameras@.contains(self.players@[a].camera->0) by {
                if a < ps0.len() {
                    if ps0[a].camera is Some {
                        let c = ps0[a].camera->0;
                        assert(cs0.contains(c));
                        let k = choose|k: int| 0 <= k < cs0.len() && cs0[k] == c;
                        assert(self.cameras@[k] == c);
                    }
                } else {
                    assert(self.cameras@.last() == camera_entity);
                }
            };
        }
        player_entity
    }

    /// Despawns the player with this entity, destroying its camera entity
    /// with it when it has one. A player without a camera reference, or an
    /// entity that is no player, is handled without error: the rest of the
    /// world stays exactly as it was.
    pub fn despawn_player(&mut self, player_entity: Entity)
        requires
            old(self).wf(),
        ensures
            final(self).wf(),
            final(self).next_entity == old(self).next_entity,
            !old(self).has_player(player_entity) ==> final(self).players@ == old(self).players@
                && final(self).cameras@ == old(self).cameras@,
            forall|i: int|
                0 <= i < old(self).players@.len() && old(self).players@[i].entity == player_entity
                    ==> final(self).players@ == old(self).players@.remove(i) && (match old(
                    self,
                ).players@[i].camera {
                    Some(c) => final(self).cameras@ == old(self).cameras@.remove_value(c),
                    None => final(self).cameras@ == old(self).cameras@,
                }),
    {
        let ghost ps0 = self.players@;
        let ghost cs0 = self.cameras@;
        let mut i: usize = 0;
        while i < self.players.len()
            invariant
                0 <= i <= ps0.len(),
                self.players@ == ps0,
                self.cameras@ == cs0,
                self.next_entity == old(self).next_entity,
                ps0 == old(self).players@,
                cs0 == old(self).cameras@,
                old(self).wf(),
                forall|k: int| 0 <= k < i ==> ps0[k].entity != player_entity,
            decreases ps0.len() - i,
        {
            if self.players[i].entity == player_entity {
                proof {
                    assert forall|k: int|
                        0 <= k < ps0.len() && #[trigger] ps0[k].entity
                            == player_entity implies k == i as int by {
                        if k > i as int {
                            assert(old(self).players@[i as int].entity
                                != old(self).players@[k].entity);
                        }
                    };
                }
                let entry = self.players.remove(i);
                proof {
                    assert(entry == ps0[i as int]);
                }
                match entry.camera {
                    Some(c) => {
                        proof {
                            assert((#[trigger] old(self).players@[i as int]).camera is Some);
                            assert(old(self).cameras@.contains(c));
                        }
                        let mut j: usize = 0;
                        while j < self.cameras.len()
                            invariant
                                0 <= j <= cs0.len(),
                                self.cameras@ == cs0,
                                self.players@ == ps0.remove(i as int),
                                self.next_entity == old(self).next_entity,
                                0 <= i < ps0.len(),
                                ps0 == old(self).players@,
                                cs0 == old(self).cameras@,
                                old(self).wf(),
                                ps0[i as int].entity == player_entity,
                                ps0[i as int].camera == Some(c),
                                forall|k: int|
                                    0 <= k < ps0.len() && #[trigger] ps0[k].entity == player_entity
                                        ==> k == i as int,
                                cs0.contains(c),
                                forall|k: int| 0 <= k < j ==> cs0[k] != c,
                            decreases cs0.len() - j,
                        {
                            if self.cameras[j] == c {
                                let _ = self.cameras.remove(j);
                                proof {
                                    lemma_remove_value_at(cs0, j as int, c);
                                    lemma_wf_after_removal(*old(self), i as int, Some(j as int));
                                }
                                return ;
                            }
                            j += 1;
                        }
                        proof {
                            let k = choose|k: int| 0 <= k < cs0.len() && cs0[k] == c;
                            assert(false);
                        }
                        return ;
                    },
                    None => {
                        proof {
                            lemma_wf_after_removal(*old(self), i as int, None);
                        }
                        return ;
                    },
                }
            }
            i += 1;
        }
    }
}

/// Removing the element at the first index holding `c` is removing `c`.
proof fn lemma_remove_value_at(s: Seq<Entity>, j: int, c: Entity)
    requires
        0 <= j < s.len(),
        s[j] == c,
        forall|k: int| 0 <= k < j ==> s[k] != c,
    ensures
        s.remove(j) == s.remove_value(c),
{
    let idx = s.index_of_first(c);
    s.index_of_first_ensures(c);
    assert(s.contains(c));
    assert(idx matches Some(f) && f == j) by {
        match idx {
            Some(f) => {
                if f < j {
                    assert(s[f] == c);
                }
            },
            None => {},
        }
    };
}

/// Removing one player (and, when it has one, its camera) keeps the world
/// well formed.
proof fn lemma_wf_after_removal(w: Players, i: int, cj: Option<int>)
    requires
        w.wf(),
        0 <= i < w.players@.len(),
        match cj {
            Some(j) => 0 <= j < w.cameras@.len() && w.players@[i].camera == Some(w.cameras@[j]),
            None => w.players@[i].camera is None,
        },
    ensures
        forall|a: int, b: int|
            0 <= a < b < w.players@.remove(i).len() ==> w.players@.remove(i)[a].entity
                != w.players@.remove(i)[b].entity,
        forall|a: int, b: int|
            0 <= a < b < w.players@.remove(i).len() ==> w.players@.remove(i)[a].id
                != w.players@.remove(i)[b].id,
        forall|a: int, b: int|
            0 <= a < b < w.players@.remove(i).len() ==> !(w.players@.remove(i)[a].camera is Some
                && w.players@.remove(i)[a].camera == w.players@.remove(i)[b].camera),
        forall|a: int| 0 <= a < w.players@.remove(i).len() ==> w.players@.remove(i)[a].entity
            < w.next_entity,
        match cj {
            Some(j) => {
                &&& forall|a: int, b: int|
                    0 <= a < b < w.cameras@.remove(j).len() ==> w.cameras@.remove(j)[a]
                        != w.cameras@.remove(j)[b]
                &&& forall|a: int| 0 <= a < w.cameras@.remove(j).len() ==> w.cameras@.remove(j)[a]
                    < w.next_entity
                &&& forall|a: int|
                    0 <= a < w.players@.remove(i).len() ==> ((#[trigger] w.players@.remove(
                        i,
                    )[a]).camera is Some ==> w.cameras@.remove(j).contains(
                        w.players@.remove(i)[a].camera->0,
                    ))
            },
            None => forall|a: int|
                0 <= a < w.players@.remove(i).len() ==> ((#[trigger] w.players@.remove(
                    i,
                )[a]).camera is Some ==> w.cameras@.contains(w.players@.remove(i)[a].camera->0)),
        },
{
    let ps = w.players@;
    let ps2 = ps.remove(i);
    assert(forall|a: int| 0 <= a < i ==> ps2[a] == ps[a]);
    assert(forall|a: int| i <= a < ps2.len() ==> ps2[a] == ps[a + 1]);
    match cj {
        Some(j) => {
            let cs = w.cameras@;
            let cs2 = cs.remove(j);
            assert(forall|a: int| 0 <= a < j ==> cs2[a] == cs[a]);
            assert(forall|a: int| j <= a < cs2.len() ==> cs2[a] == cs[a + 1]);
            assert forall|a: int|
                0 <= a < ps2.len() && (#[trigger] ps2[a]).camera is Some implies cs2.contains(
                ps2[a].camera->0,
            ) by {
                let orig = if a < i {
                    a
                } else {
                    a + 1
                };
                assert(ps2[a] == ps[orig]);
                if ps2[a].camera is Some {
                    let c = ps2[a].camera->0;
                    assert(cs.contains(c));
                    let k = choose|k: int| 0 <= k < cs.len() && cs[k] == c;
                    assert(c != cs[j]) by {
                        assert(ps[i].camera == Some(cs[j]));
                        assert(orig != i);
                        assert(!(ps[if orig < i {
                            orig
                        } else {
                            i
                        }].camera is Some && ps[if orig < i {
                            orig
                        } else {
                            i
                        }].camera == ps[if orig < i {
                            i
                        } else {
                            orig
                        }].camera));
                    };
                    assert(k != j);
                    if k < j {
                        assert(cs2[k] == c);
                    } else {
                        assert(cs2[k - 1] == c);
                    }
                }
            };
        },
        None => {
            assert forall|a: int|
                0 <= a < ps2.len() && (#[trigger] ps2[a]).camera is Some implies w.cameras@.contains(
                ps2[a].camera->0,
            ) by {
                let orig = if a < i {
                    a
                } else {
                    a + 1
                };
                assert(ps2[a] == ps[orig]);
            };
        },
    }
}

/// The ids of a player list with one player removed are the ids with that
/// player's id removed.
pub proof fn lemma_ids_after_removal(ps: Seq<PlayerEntry>, i: int)
    requires
        0 <= i < ps.len(),
    ensures
        ps.remove(i).map_values(|p: PlayerEntry| p.id) == ps.map_values(
            |p: PlayerEntry| p.id,
        ).remove(i),
{
    let lhs = ps.remove(i).map_values(|p: PlayerEntry| p.id);
    let rhs = ps.map_values(|p: PlayerEntry| p.id).remove(i);
    assert forall|a: int| 0 <= a < lhs.len() implies lhs[a] == rhs[a] by {
        if a < i {
            assert(ps.remove(i)[a] == ps[a]);
        } else {
            assert(ps.remove(i)[a] == ps[a + 1]);
        }
    };
    assert(lhs =~= rhs);
}

/// Despawning a player makes exactly its id available again: in the world
/// without that player, the lowest free id is the freed id when it was below
/// the previous lowest free id, and the previous one otherwise.
pub proof fn lemma_despawned_id_reused(w: Players, k: int, r_before: u32, r_after: u32)
    requires
        w.wf(),
        0 <= k < w.players@.len(),
        is_lowest_free(w.ids(), r_before),
        is_lowest_free(w.players@.remove(k).map_values(|p: PlayerEntry| p.id), r_after),
    ensures
        r_after == if w.players@[k].id < r_before {
            w.players@[k].id
        } else {
            r_before
        },
{
    lemma_ids_after_removal(w.players@, k);
    assert forall|a: int, b: int|
        0 <= a < b < w.ids().len() implies w.ids()[a] != w.ids()[b] by {
        assert(w.ids()[a] == w.players@[a].id);
        assert(w.ids()[b] == w.players@[b].id);
    };
    assert(w.ids()[k] == w.players@[k].id);
    lemma_freed_id_reused(w.ids(), k, r_before, r_after);
}

/// Despawning the player holding id `i` makes exactly that id available
/// again: the next id handed out is `i` when `i` was below the previous next
/// id, and the previous next id otherwise.
pub proof fn lemma_freed_id_reused(ids: Seq<u32>, k: int, r_before: u32, r_after: u32)
    requires
        0 <= k < ids.len(),
        forall|a: int, b: int| 0 <= a < b < ids.len() ==> ids[a] != ids[b],
        is_lowest_free(ids, r_before),
        is_lowest_free(ids.remove(k), r_after),
    ensures
        r_after == if ids[k] < r_before {
            ids[k]
        } else {
            r_before
        },
{
    let freed = ids[k];
    let rest = ids.remove(k);
    assert(forall|a: int| 0 <= a < k ==> rest[a] == ids[a]);
    assert(forall|a: int| k <= a < rest.len() ==> rest[a] == ids[a + 1]);
    let cand: u32 = if freed < r_before {
        freed
    } else {
        r_before
    };
    assert(!rest.contains(cand)) by {
        if rest.contains(cand) {
            let a = choose|a: int| 0 <= a < rest.len() && rest[a] == cand;
            let orig = if a < k {
                a
            } else {
                a + 1
            };
            assert(ids[orig] == cand);
            if cand == freed {
                assert(orig != k);
                assert(ids[orig] != ids[k] || orig == k);
            } else {
                assert(ids.contains(cand));
            }
        }
    };
    assert forall|j: u32| j < cand implies rest.contains(j) by {
        assert(j < r_before);
        assert(ids.contains(j));
        let a = choose|a: int| 0 <= a < ids.len() && ids[a] == j;
        assert(a != k) by {
            if a == k {
                assert(j == freed);
                assert(j < cand);
                assert(cand <= freed);
            }
        };
        if a < k {
            assert(rest[a] == j);
        } else {
            assert(rest[a - 1] == j);
        }
    };
    lemma_lowest_free_unique(rest, cand, r_after);
}

} // verus!
