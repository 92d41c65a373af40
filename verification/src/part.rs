//! Assembly of modular vehicle parts from an imported scene graph.
//!
//! Each named node of the scene is classified by naming convention: a node
//! whose name contains `Socket` marks an attachment point, a node whose name
//! contains `Hitbox` marks a collision shape, and any other node that carries
//! a mesh becomes a part record. Socket names `Socket.<A>.<n>[.<B>]` attach a
//! primary descriptor to part `A` and, when `B` is named and known, a
//! secondary descriptor to part `B`. Hitbox names `Hitbox.<P>.<Shape>` attach
//! one collision descriptor to part `P`, the last one winning. Every
//! malformed or unresolvable name is skipped silently: the registry simply
//! lacks the item.

use vstd::prelude::*;

use crate::geom::{delta_of, Delta3, Quat, Transform, Vec3};
use crate::strings::{
    contains_seq, has_prefix, seq_views, split_char, str_contains, str_eq, str_has_prefix,
    str_split,
};

verus! {

/// Registration marker for the vehicle-thing systems; the engine-side wiring
/// lives with the host application.
pub struct TankThingPlugin;

/// Registration marker for the part systems; the engine-side wiring lives
/// with the host application.
pub struct TankThingPartPlugin;

/// Marks a spawned entity as the root of a vehicle part.
pub struct PartMarker;

/// One render primitive of a part: a mesh asset paired with a material asset,
/// both named by their asset ids.
#[derive(Clone, Copy, Debug, PartialEq, Eq, Structural)]
pub struct PartPrimitiveData {
    pub mesh: u64,
    pub material: u64,
}

impl PartPrimitiveData {
    pub fn new(mesh: u64, material: u64) -> (r: Self)
        ensures
            r == (PartPrimitiveData { mesh, material }),
    {
        Self { mesh, material }
    }
}

/// Which side of a paired connection a socket descriptor represents.
#[derive(Clone, Copy, Debug, PartialEq, Eq, Structural)]
pub enum SocketKind {
    /// The descriptor on the part named first in the socket node's name.
    Primary,
    /// The descriptor on the optional second part of the pair.
    Secondary,
}

/// An attachment point on a part: its placement relative to the owning
/// part's position, and its side of the pair. Only the primary side carries
/// the connection's name; the secondary side is recovered through the pair.
pub struct PartSocket {
    pub name: Option<String>,
    pub offset: Delta3,
    pub rotation: Quat,
    pub kind: SocketKind,
}

/// The mathematical value of a [`PartSocket`].
pub struct SocketView {
    pub name: Option<Seq<char>>,
    pub offset: Delta3,
    pub rotation: Quat,
    pub kind: SocketKind,
}

impl View for PartSocket {
    type V = SocketView;

    open spec fn view(&self) -> SocketView {
        SocketView {
            name: match self.name {
                Some(ref s) => Some(s@),
                None => None,
            },
            offset: self.offset,
            rotation: self.rotation,
            kind: self.kind,
        }
    }
}

/// The primary descriptor written for a socket node: named, placed at the
/// node's position relative to the owning part, keeping the node's rotation.
pub open spec fn spec_primary_socket(name: Seq<char>, node: Transform, part_translation: Vec3) -> SocketView {
    SocketView {
        name: Some(name),
        offset: delta_of(node.translation, part_translation),
        rotation: node.rotation,
        kind: SocketKind::Primary,
    }
}

/// The secondary descriptor written for a paired socket node: unnamed,
/// placed at the node's position relative to the second owning part.
pub open spec fn spec_secondary_socket(node: Transform, part_translation: Vec3) -> SocketView {
    SocketView {
        name: None,
        offset: delta_of(node.translation, part_translation),
        rotation: node.rotation,
        kind: SocketKind::Secondary,
    }
}

impl PartSocket {
    /// The descriptor for the first-named part of a socket node.
    pub fn from_primary_socket_node(
        socket_name: &str,
        node_transform: Transform,
        part_translation: Vec3,
    ) -> (r: PartSocket)
        ensures
            r@ == spec_primary_socket(socket_name@, node_transform, part_translation),
    {
        PartSocket {
            name: Some(socket_name.to_owned()),
            offset: Delta3::of_difference(node_transform.translation, part_translation),
            rotation: node_transform.rotation,
            kind: SocketKind::Primary,
        }
    }

    /// The descriptor for the second-named part of a paired socket node,
    /// relative to that part's own position.
    pub fn from_secondary_socket_node(node_transform: Transform, part_translation: Vec3) -> (r:
        PartSocket)
        ensures
            r@ == spec_secondary_socket(node_transform, part_translation),
    {
        PartSocket {
            name: None,
            offset: Delta3::of_difference(node_transform.translation, part_translation),
            rotation: node_transform.rotation,
            kind: SocketKind::Secondary,
        }
    }

    /// A deep copy.
    pub fn duplicate(&self) -> (r: PartSocket)
        ensures
            r@ == self@,
    {
        PartSocket {
            name: match &self.name {
                Some(s) => Some(s.clone()),
                None => None,
            },
            offset: self.offset,
            rotation: self.rotation,
            kind: self.kind,
        }
    }
}

/// A collision shape attached to a part: a placement and a shape tag.
#[derive(Clone, Copy, Debug, PartialEq, Eq, Structural)]
pub struct PartHitbox {
    pub transform: Transform,
    pub shape: u8,
}

/// The shape tags the hitbox naming convention knows.
pub open spec fn spec_shape_tag(s: Seq<char>) -> Option<u8> {
    if s == "Box"@ {
        Some(0u8)
    } else if s == "Sphere"@ {
        Some(1u8)
    } else if s == "Capsule"@ {
        Some(2u8)
    } else if s == "Hull"@ {
        Some(3u8)
    } else {
        None
    }
}

/// What a hitbox node name resolves to: the owning part's name and the shape
/// tag, or nothing when the name does not follow `Hitbox.<P>.<Shape>`.
pub open spec fn spec_hitbox_parse(name: Seq<char>) -> Option<(Seq<char>, u8)> {
    if !has_prefix(name, "Hitbox."@) {
        None
    } else {
        let segs = split_char(name.skip("Hitbox."@.len() as int), '.');
        if segs.len() < 2 {
            None
        } else {
            match spec_shape_tag(segs[1]) {
                Some(tag) => Some((segs[0], tag)),
                None => None,
            }
        }
    }
}

/// Maps a shape segment of a hitbox node name to its tag.
fn hitbox_shape_tag(s: &str) -> (r: Option<u8>)
    ensures
        r == spec_shape_tag(s@),
{
    if str_eq(s, "Box") {
        Some(0u8)
    } else if str_eq(s, "Sphere") {
        Some(1u8)
    } else if str_eq(s, "Capsule") {
        Some(2u8)
    } else if str_eq(s, "Hull") {
        Some(3u8)
    } else {
        None
    }
}

impl PartHitbox {
    /// Reads the owning part's name and the shape tag out of a hitbox node
    /// name of the form `Hitbox.<P>.<Shape>`.
    pub fn part_name_and_hitbox_shape_from_hitbox_name(name: &str) -> (r: Option<(String, u8)>)
        ensures
            match r {
                Some((part, tag)) => spec_hitbox_parse(name@) == Some((part@, tag)),
                None => spec_hitbox_parse(name@) is None,
            },
    {
        if !str_has_prefix(name, "Hitbox.") {
            return None;
        }
        let plen = "Hitbox.".unicode_len();
        let n = name.unicode_len();
        let rest = name.substring_char(plen, n);
        proof {
            assert(rest@ =~= name@.skip("Hitbox."@.len() as int));
        }
        let segs = str_split(rest, '.');
        if segs.len() < 2 {
            proof {
                crate::strings::lemma_split_char_len(rest@, '.');
            }
            return None;
        }
        assert(segs@[1]@ == split_char(rest@, '.')[1]);
        assert(segs@[0]@ == split_char(rest@, '.')[0]);
        match hitbox_shape_tag(segs[1].as_str()) {
            Some(tag) => Some((segs[0].clone(), tag)),
            None => None,
        }
    }
}

/// A part record: the render primitives, the attachment sockets, and the
/// optional collision hitbox assembled for one named scene node.
pub struct PartData {
    pub primitives: Vec<PartPrimitiveData>,
    pub sockets: Vec<PartSocket>,
    pub hitbox: Option<PartHitbox>,
}

/// The mathematical value of a [`PartData`].
pub struct PartDataView {
    pub primitives: Seq<PartPrimitiveData>,
    pub sockets: Seq<SocketView>,
    pub hitbox: Option<PartHitbox>,
}

impl View for PartData {
    type V = PartDataView;

    open spec fn view(&self) -> PartDataView {
        PartDataView {
            primitives: self.primitives@,
            sockets: self.sockets@.map_values(|s: PartSocket| s@),
            hitbox: self.hitbox,
        }
    }
}

/// A record with no primitives, no sockets and no hitbox.
pub open spec fn spec_empty_part() -> PartDataView {
    PartDataView { primitives: Seq::empty(), sockets: Seq::empty(), hitbox: None }
}

impl Default for PartData {
    fn default() -> (r: PartData)
        ensures
            r@ == spec_empty_part(),
    {
        let r = PartData { primitives: Vec::new(), sockets: Vec::new(), hitbox: None };
        proof {
            assert(r@.sockets =~= spec_empty_part().sockets);
        }
        r
    }
}

impl PartData {
    /// A deep copy.
    pub fn duplicate(&self) -> (r: PartData)
        ensures
            r@ == self@,
    {
        let mut primitives: Vec<PartPrimitiveData> = Vec::new();
        let mut i: usize = 0;
        while i < self.primitives.len()
            invariant
                0 <= i <= self.primitives@.len(),
                primitives@ == self.primitives@.take(i as int),
            decreases self.primitives@.len() - i,
        {
            primitives.push(self.primitives[i]);
            proof {
                assert(primitives@ =~= self.primitives@.take(i + 1));
            }
            i += 1;
        }
        let mut sockets: Vec<PartSocket> = Vec::new();
        let mut j: usize = 0;
        while j < self.sockets.len()
            invariant
                0 <= j <= self.sockets@.len(),
                sockets@.map_values(|s: PartSocket| s@) == self.sockets@.take(j as int).map_values(
                    |s: PartSocket| s@,
                ),
            decreases self.sockets@.len() - j,
        {
            let ghost before = sockets@;
            let s = self.sockets[j].duplicate();
            sockets.push(s);
            proof {
                assert(before.map_values(|s: PartSocket| s@).len() == before.len());
                assert(before.len() == j);
                let lhs = sockets@.map_values(|s: PartSocket| s@);
                let rhs = self.sockets@.take(j + 1).map_values(|s: PartSocket| s@);
                assert(sockets@ == before.push(s));
                assert(lhs.len() == j + 1);
                assert(rhs.len() == j + 1);
                assert forall|k: int| 0 <= k < lhs.len() implies lhs[k] == rhs[k] by {
                    assert(lhs[k] == sockets@[k]@);
                    assert(rhs[k] == self.sockets@.take(j + 1)[k]@);
                    if k < j {
                        assert(sockets@[k] == before[k]);
                        assert(before.map_values(|s: PartSocket| s@)[k] == before[k]@);
                        assert(self.sockets@.take(j as int).map_values(|s: PartSocket| s@)[k]
                            == self.sockets@.take(j as int)[k]@);
                    }
                };
                assert(lhs =~= rhs);
            }
            j += 1;
        }
        proof {
            assert(self.primitives@.take(self.primitives@.len() as int) =~= self.primitives@);
            assert(self.sockets@.take(self.sockets@.len() as int) =~= self.sockets@);
        }
        PartData { primitives, sockets, hitbox: self.hitbox }
    }
}

/// One scene node's place in the intermediate node map: the node's name and
/// placement together with the part record built for it.
pub struct PartNodeEntry {
    pub name: String,
    pub transform: Transform,
    pub data: PartData,
}

/// The value an entry contributes to the node map.
pub open spec fn entry_val(e: PartNodeEntry) -> (Transform, PartDataView) {
    (e.transform, e.data@)
}

/// The name-keyed mapping a sequence of entries stands for; a later entry
/// with the same name wins.
pub open spec fn map_of(es: Seq<PartNodeEntry>) -> Map<Seq<char>, (Transform, PartDataView)>
    decreases es.len(),
{
    if es.len() == 0 {
        Map::empty()
    } else {
        map_of(es.drop_last()).insert(es.last().name@, entry_val(es.last()))
    }
}

/// No two entries share a name.
pub open spec fn names_distinct(es: Seq<PartNodeEntry>) -> bool {
    forall|i: int, j: int| 0 <= i < j < es.len() ==> es[i].name@ != es[j].name@
}

proof fn lemma_map_of_contains(es: Seq<PartNodeEntry>, k: Seq<char>)
    ensures
        map_of(es).contains_key(k) <==> exists|i: int| 0 <= i < es.len() && es[i].name@ == k,
    decreases es.len(),
{
    if es.len() > 0 {
        lemma_map_of_contains(es.drop_last(), k);
        if es.last().name@ == k {
            assert(es[es.len() - 1].name@ == k);
        } else {
            if map_of(es).contains_key(k) {
                let i = choose|i: int| 0 <= i < es.drop_last().len() && es.drop_last()[i].name@
                    == k;
                assert(es[i].name@ == k);
            }
            if exists|i: int| 0 <= i < es.len() && es[i].name@ == k {
                let i = choose|i: int| 0 <= i < es.len() && es[i].name@ == k;
                assert(i < es.len() - 1);
                assert(es.drop_last()[i].name@ == k);
            }
        }
    }
}

proof fn lemma_map_of_index(es: Seq<PartNodeEntry>, i: int)
    requires
        names_distinct(es),
        0 <= i < es.len(),
    ensures
        map_of(es).contains_key(es[i].name@),
        map_of(es)[es[i].name@] == entry_val(es[i]),
    decreases es.len(),
{
    lemma_map_of_contains(es, es[i].name@);
    if i < es.len() - 1 {
        assert(forall|a: int, b: int|
            0 <= a < b < es.drop_last().len() ==> es.drop_last()[a].name@
                != es.drop_last()[b].name@);
        lemma_map_of_index(es.drop_last(), i);
        assert(es.last().name@ != es[i].name@);
    }
}

proof fn lemma_map_of_update(es: Seq<PartNodeEntry>, i: int, e: PartNodeEntry)
    requires
        names_distinct(es),
        0 <= i < es.len(),
        e.name@ == es[i].name@,
    ensures
        names_distinct(es.update(i, e)),
        map_of(es.update(i, e)) == map_of(es).insert(e.name@, entry_val(e)),
    decreases es.len(),
{
    let es2 = es.update(i, e);
    assert(forall|j: int| 0 <= j < es.len() && j != i ==> es2[j] == es[j]);
    if i == es.len() - 1 {
        assert(es2.drop_last() =~= es.drop_last());
        assert(es2.last() == e);
        assert(map_of(es2) =~= map_of(es).insert(e.name@, entry_val(e)));
    } else {
        assert(forall|a: int, b: int|
            0 <= a < b < es.drop_last().len() ==> es.drop_last()[a].name@
                != es.drop_last()[b].name@);
        assert(es.drop_last()[i] == es[i]);
        lemma_map_of_update(es.drop_last(), i, e);
        assert(es2.drop_last() =~= es.drop_last().update(i, e));
        assert(es2.last() == es.last());
        assert(es.last().name@ != e.name@);
        assert(map_of(es2) =~= map_of(es).insert(e.name@, entry_val(e)));
    }
}

/// The intermediate registry built during scene import: part records keyed by
/// node name, still carrying each node's placement.
pub struct PartNodeMap {
    entries: Vec<PartNodeEntry>,
}

impl View for PartNodeMap {
    type V = Map<Seq<char>, (Transform, PartDataView)>;

    closed spec fn view(&self) -> Map<Seq<char>, (Transform, PartDataView)> {
        map_of(self.entries@)
    }
}

impl PartNodeMap {
    /// No two entries share a name.
    pub closed spec fn wf(&self) -> bool {
        names_distinct(self.entries@)
    }

    /// An empty node map.
    pub fn new() -> (r: Self)
        ensures
            r.wf(),
            r@ == Map::<Seq<char>, (Transform, PartDataView)>::empty(),
    {
        PartNodeMap { entries: Vec::new() }
    }

    /// The index of the entry named `name`, if one exists.
    fn find(&self, name: &str) -> (r: Option<usize>)
        ensures
            match r {
                Some(i) => 0 <= i < self.entries@.len() && self.entries@[i as int].name@ == name@,
                None => forall|i: int|
                    0 <= i < self.entries@.len() ==> self.entries@[i].name@ != name@,
            },
    {
        let mut i: usize = 0;
        while i < self.entries.len()
            invariant
                0 <= i <= self.entries@.len(),
                forall|k: int| 0 <= k < i ==> self.entries@[k].name@ != name@,
            decreases self.entries@.len() - i,
        {
            if str_eq(self.entries[i].name.as_str(), name) {
                return Some(i);
            }
            i += 1;
        }
        None
    }

    /// Whether a part of this name was built.
    pub fn contains_part(&self, name: &str) -> (b: bool)
        ensures
            b == self@.contains_key(name@),
    {
        proof {
            lemma_map_of_contains(self.entries@, name@);
        }
        match self.find(name) {
            Some(_) => true,
            None => false,
        }
    }

    /// The placement of the part named `name`, if one was built.
    pub fn get_transform(&self, name: &str) -> (r: Option<Transform>)
        requires
            self.wf(),
        ensures
            match r {
                Some(t) => self@.contains_key(name@) && t == self@[name@].0,
                None => !self@.contains_key(name@),
            },
    {
        proof {
            lemma_map_of_contains(self.entries@, name@);
        }
        match self.find(name) {
            Some(i) => {
                proof {
                    lemma_map_of_index(self.entries@, i as int);
                }
                Some(self.entries[i].transform)
            },
            None => None,
        }
    }

    /// Adds (or replaces) the record for the node named `name`.
    pub fn insert_part(&mut self, name: &str, transform: Transform, data: PartData)
        requires
            old(self).wf(),
        ensures
            final(self).wf(),
            final(self)@ == old(self)@.insert(name@, (transform, data@)),
    {
        let entry = PartNodeEntry { name: name.to_owned(), transform, data };
        proof {
            lemma_map_of_contains(self.entries@, name@);
        }
        match self.find(name) {
            Some(i) => {
                proof {
                    lemma_map_of_update(self.entries@, i as int, entry);
                }
                let ghost es0 = self.entries@;
                let _ = self.entries.remove(i);
                self.entries.insert(i, entry);
                proof {
                    assert(self.entries@ =~= es0.update(i as int, entry));
                }
            },
            None => {
                let ghost es0 = self.entries@;
                self.entries.push(entry);
                proof {
                    assert(self.entries@.drop_last() =~= es0);
                    assert(self@ == old(self)@.insert(name@, (transform, data@)));
                }
            },
        }
    }

    /// Appends a socket descriptor to the part named `name`.
    pub fn push_socket(&mut self, name: &str, socket: PartSocket)
        requires
            old(self).wf(),
            old(self)@.contains_key(name@),
        ensures
            final(self).wf(),
            final(self)@ == old(self)@.insert(
                name@,
                (
                    old(self)@[name@].0,
                    push_socket_view(old(self)@[name@].1, socket@),
                ),
            ),
    {
        proof {
            lemma_map_of_contains(self.entries@, name@);
        }
        match self.find(name) {
            Some(i) => {
                proof {
                    lemma_map_of_index(self.entries@, i as int);
                }
                let ghost es0 = self.entries@;
                let ghost sv = socket@;
                let mut entry = self.entries.remove(i);
                let ghost d0 = entry.data@;
                entry.data.sockets.push(socket);
                proof {
                    assert(entry.data@.sockets =~= d0.sockets.push(sv));
                    assert(entry.data@ == push_socket_view(d0, sv));
                }
                proof {
                    assert(es0.remove(i as int).insert(i as int, entry) =~= es0.update(
                        i as int,
                        entry,
                    ));
                    lemma_map_of_update(es0, i as int, entry);
                }
                self.entries.insert(i, entry);
            },
            None => {
                proof {
                    assert(false);
                }
            },
        }
    }

    /// Sets (or replaces) the hitbox of the part named `name`.
    pub fn set_hitbox(&mut self, name: &str, hitbox: PartHitbox)
        requires
            old(self).wf(),
            old(self)@.contains_key(name@),
        ensures
            final(self).wf(),
            final(self)@ == old(self)@.insert(
                name@,
                (old(self)@[name@].0, set_hitbox_view(old(self)@[name@].1, hitbox)),
            ),
    {
        proof {
            lemma_map_of_contains(self.entries@, name@);
        }
        match self.find(name) {
            Some(i) => {
                proof {
                    lemma_map_of_index(self.entries@, i as int);
                }
                let ghost es0 = self.entries@;
                let mut entry = self.entries.remove(i);
                let ghost d0 = entry.data@;
                entry.data.hitbox = Some(hitbox);
                proof {
                    assert(entry.data@ == set_hitbox_view(d0, hitbox));
                    assert(es0.remove(i as int).insert(i as int, entry) =~= es0.update(
                        i as int,
                        entry,
                    ));
                    lemma_map_of_update(es0, i as int, entry);
                }
                self.entries.insert(i, entry);
            },
            None => {
                proof {
                    assert(false);
                }
            },
        }
    }
}

/// One render primitive of an imported scene node: a mesh asset and, when
/// the exporter assigned one, a material asset.
#[derive(Clone, Copy, Debug, PartialEq, Eq)]
pub struct ScenePrimitive {
    pub mesh: u64,
    pub material: Option<u64>,
}

/// The mesh data an imported node may carry.
#[derive(Debug, PartialEq, Eq)]
pub struct SceneMesh {
    pub primitives: Vec<ScenePrimitive>,
}

/// One named node of the imported scene graph, with its placement and its
/// resolved mesh data, if any. The host's asset loader hands the scene over
/// in this plain form.
pub struct SceneNode {
    pub name: String,
    pub transform: Transform,
    pub mesh: Option<SceneMesh>,
}

/// The mathematical value of a [`SceneNode`].
pub struct NodeView {
    pub name: Seq<char>,
    pub transform: Transform,
    pub mesh: Option<Seq<ScenePrimitive>>,
}

impl View for SceneNode {
    type V = NodeView;

    open spec fn view(&self) -> NodeView {
        NodeView {
            name: self.name@,
            transform: self.transform,
            mesh: match self.mesh {
                Some(ref m) => Some(m.primitives@),
                None => None,
            },
        }
    }
}

/// The views of a sequence of scene nodes.
pub open spec fn scene_views(ns: Seq<SceneNode>) -> Seq<NodeView> {
    ns.map_values(|n: SceneNode| n@)
}

/// A node is routed to the socket pass when its name contains `Socket`.
pub open spec fn node_is_socket(n: NodeView) -> bool {
    contains_seq(n.name, "Socket"@)
}

/// A node is routed to the hitbox pass when its name contains `Hitbox` and
/// was not already routed to the socket pass.
pub open spec fn node_is_hitbox(n: NodeView) -> bool {
    !node_is_socket(n) && contains_seq(n.name, "Hitbox"@)
}

/// The part primitives collected from a node's render primitives: one per
/// primitive that has a material, in order.
pub open spec fn prims_of(ps: Seq<ScenePrimitive>) -> Seq<PartPrimitiveData>
    decreases ps.len(),
{
    if ps.len() == 0 {
        Seq::empty()
    } else {
        let pre = prims_of(ps.drop_last());
        let p = ps.last();
        if p.material is Some {
            pre.push(PartPrimitiveData { mesh: p.mesh, material: p.material->0 })
        } else {
            pre
        }
    }
}

/// The fresh part record built for a mesh-bearing node.
pub open spec fn part_record_of(n: NodeView) -> PartDataView {
    PartDataView { primitives: prims_of(n.mesh->0), sockets: Seq::empty(), hitbox: None }
}

/// The node map after the first pass: one record per node that is neither a
/// socket nor a hitbox marker and carries a mesh; a later node of the same
/// name replaces an earlier one.
pub open spec fn built_parts(ns: Seq<NodeView>) -> Map<Seq<char>, (Transform, PartDataView)>
    decreases ns.len(),
{
    if ns.len() == 0 {
        Map::empty()
    } else {
        let pre = built_parts(ns.drop_last());
        let n = ns.last();
        if node_is_socket(n) || node_is_hitbox(n) {
            pre
        } else if n.mesh is Some {
            pre.insert(n.name, (n.transform, part_record_of(n)))
        } else {
            pre
        }
    }
}

/// The socket nodes of the scene, in order: name and placement.
pub open spec fn socket_list(ns: Seq<NodeView>) -> Seq<(Seq<char>, Transform)>
    decreases ns.len(),
{
    if ns.len() == 0 {
        Seq::empty()
    } else {
        let pre = socket_list(ns.drop_last());
        let n = ns.last();
        if node_is_socket(n) {
            pre.push((n.name, n.transform))
        } else {
            pre
        }
    }
}

/// The hitbox nodes of the scene, in order: name, placement, and whether the
/// node's mesh resolved.
pub open spec fn hitbox_list(ns: Seq<NodeView>) -> Seq<(Seq<char>, Transform, bool)>
    decreases ns.len(),
{
    if ns.len() == 0 {
        Seq::empty()
    } else {
        let pre = hitbox_list(ns.drop_last());
        let n = ns.last();
        if node_is_hitbox(n) {
            pre.push((n.name, n.transform, n.mesh is Some))
        } else {
            pre
        }
    }
}

/// What one socket node does to the node map. The name must start with
/// `Socket.` and split into at least a part name and a socket name; the
/// first-named part must exist. The primary descriptor goes to that part;
/// when a third segment names a known part, a secondary descriptor goes to
/// it, relative to its own position. Anything else leaves the map unchanged.
pub open spec fn link_socket(
    m: Map<Seq<char>, (Transform, PartDataView)>,
    name: Seq<char>,
    t: Transform,
) -> Map<Seq<char>, (Transform, PartDataView)> {
    if !has_prefix(name, "Socket."@) {
        m
    } else {
        let segs = split_char(name.skip("Socket."@.len() as int), '.');
        if segs.len() < 2 {
            m
        } else if !m.contains_key(segs[0]) {
            m
        } else {
            let a = segs[0];
            let m1 = m.insert(
                a,
                (m[a].0, push_socket_view(m[a].1, spec_primary_socket(segs[1], t, m[a].0.translation))),
            );
            if segs.len() < 3 {
                m1
            } else if !m1.contains_key(segs[2]) {
                m1
            } else {
                let b = segs[2];
                m1.insert(
                    b,
                    (m1[b].0, push_socket_view(m1[b].1, spec_secondary_socket(t, m1[b].0.translation))),
                )
            }
        }
    }
}

/// The node map after all socket nodes were applied, in order.
pub open spec fn link_sockets(
    m: Map<Seq<char>, (Transform, PartDataView)>,
    ss: Seq<(Seq<char>, Transform)>,
) -> Map<Seq<char>, (Transform, PartDataView)>
    decreases ss.len(),
{
    if ss.len() == 0 {
        m
    } else {
        link_sockets(link_socket(m, ss[0].0, ss[0].1), ss.skip(1))
    }
}

/// What one hitbox node does to the node map: when its name resolves to a
/// known part and a shape tag and its mesh resolved, that part's hitbox is
/// replaced; anything else leaves the map unchanged.
pub open spec fn attach_hitbox(
    m: Map<Seq<char>, (Transform, PartDataView)>,
    name: Seq<char>,
    t: Transform,
    has_mesh: bool,
) -> Map<Seq<char>, (Transform, PartDataView)> {
    match spec_hitbox_parse(name) {
        None => m,
        Some((part, tag)) => {
            if !has_mesh {
                m
            } else if !m.contains_key(part) {
                m
            } else {
                m.insert(
                    part,
                    (m[part].0, set_hitbox_view(m[part].1, PartHitbox { transform: t, shape: tag })),
                )
            }
        },
    }
}

/// The node map after all hitbox nodes were applied, in order.
pub open spec fn attach_hitboxes(
    m: Map<Seq<char>, (Transform, PartDataView)>,
    hs: Seq<(Seq<char>, Transform, bool)>,
) -> Map<Seq<char>, (Transform, PartDataView)>
    decreases hs.len(),
{
    if hs.len() == 0 {
        m
    } else {
        attach_hitboxes(attach_hitbox(m, hs[0].0, hs[0].1, hs[0].2), hs.skip(1))
    }
}

/// The fully assembled node map of a scene.
pub open spec fn assembled(ns: Seq<NodeView>) -> Map<Seq<char>, (Transform, PartDataView)> {
    attach_hitboxes(link_sockets(built_parts(ns), socket_list(ns)), hitbox_list(ns))
}

/// A node map with the placements dropped: what the final registry keeps.
pub open spec fn drop_transforms(m: Map<Seq<char>, (Transform, PartDataView)>) -> Map<
    Seq<char>,
    PartDataView,
> {
    Map::new(|k: Seq<char>| m.dom().contains(k), |k: Seq<char>| m[k].1)
}

/// The part registry a scene assembles to.
pub open spec fn registry_of(ns: Seq<NodeView>) -> Map<Seq<char>, PartDataView> {
    drop_transforms(assembled(ns))
}

/// `d` with one more socket descriptor.
pub open spec fn push_socket_view(d: PartDataView, s: SocketView) -> PartDataView {
    PartDataView { sockets: d.sockets.push(s), ..d }
}

/// `d` with its hitbox replaced.
pub open spec fn set_hitbox_view(d: PartDataView, h: PartHitbox) -> PartDataView {
    PartDataView { hitbox: Some(h), ..d }
}

/// Applies one socket node to the node map, as [`link_socket`] says.
fn process_socket_node(m: &mut PartNodeMap, name: &str, t: Transform)
    requires
        old(m).wf(),
    ensures
        final(m).wf(),
        final(m)@ == link_socket(old(m)@, name@, t),
{
    if !str_has_prefix(name, "Socket.") {
        return ;
    }
    let plen = "Socket.".unicode_len();
    let n = name.unicode_len();
    let rest = name.substring_char(plen, n);
    proof {
        assert(rest@ =~= name@.skip("Socket."@.len() as int));
    }
    let segs = str_split(rest, '.');
    let ghost sv = split_char(rest@, '.');
    proof {
        assert(seq_views(segs@).len() == segs@.len());
    }
    if segs.len() < 2 {
        return ;
    }
    proof {
        assert(segs@[0]@ == sv[0]);
        assert(segs@[1]@ == sv[1]);
    }
    let tr = match m.get_transform(segs[0].as_str()) {
        Some(tr) => tr,
        None => {
            return ;
        },
    };
    let sock = PartSocket::from_primary_socket_node(segs[1].as_str(), t, tr.translation);
    m.push_socket(segs[0].as_str(), sock);
    if segs.len() < 3 {
        return ;
    }
    proof {
        assert(segs@[2]@ == sv[2]);
    }
    let tr2 = match m.get_transform(segs[2].as_str()) {
        Some(tr2) => tr2,
        None => {
            return ;
        },
    };
    let sock2 = PartSocket::from_secondary_socket_node(t, tr2.translation);
    m.push_socket(segs[2].as_str(), sock2);
}

/// Applies one hitbox node to the node map, as [`attach_hitbox`] says.
fn process_hitbox_node(m: &mut PartNodeMap, name: &str, t: Transform, has_mesh: bool)
    requires
        old(m).wf(),
    ensures
        final(m).wf(),
        final(m)@ == attach_hitbox(old(m)@, name@, t, has_mesh),
{
    let (part, tag) = match PartHitbox::part_name_and_hitbox_shape_from_hitbox_name(name) {
        Some(pt) => pt,
        None => {
            return ;
        },
    };
    if !has_mesh {
        return ;
    }
    if !m.contains_part(part.as_str()) {
        return ;
    }
    m.set_hitbox(part.as_str(), PartHitbox { transform: t, shape: tag });
}

/// The views of a sequence of collected socket nodes.
pub open spec fn socket_pair_views(v: Seq<(String, Transform)>) -> Seq<(Seq<char>, Transform)> {
    v.map_values(|p: (String, Transform)| (p.0@, p.1))
}

/// The views of a sequence of collected hitbox nodes.
pub open spec fn hitbox_triple_views(v: Seq<(String, Transform, bool)>) -> Seq<
    (Seq<char>, Transform, bool),
> {
    v.map_values(|p: (String, Transform, bool)| (p.0@, p.1, p.2))
}

/// The assembled registry, keyed by part name. Built once after scene import
/// and read by spawning; entries carry no placement any more.
pub struct PartDataMap {
    entries: Vec<(String, PartData)>,
}

/// The name-keyed mapping the final registry's entries stand for.
pub open spec fn reg_map_of(es: Seq<(String, PartData)>) -> Map<Seq<char>, PartDataView>
    decreases es.len(),
{
    if es.len() == 0 {
        Map::empty()
    } else {
        reg_map_of(es.drop_last()).insert(es.last().0@, es.last().1@)
    }
}

/// No two registry entries share a name.
pub open spec fn reg_names_distinct(es: Seq<(String, PartData)>) -> bool {
    forall|i: int, j: int| 0 <= i < j < es.len() ==> es[i].0@ != es[j].0@
}

proof fn lemma_reg_map_of_contains(es: Seq<(String, PartData)>, k: Seq<char>)
    ensures
        reg_map_of(es).contains_key(k) <==> exists|i: int| 0 <= i < es.len() && es[i].0@ == k,
    decreases es.len(),
{
    if es.len() > 0 {
        lemma_reg_map_of_contains(es.drop_last(), k);
        if es.last().0@ == k {
            assert(es[es.len() - 1].0@ == k);
        } else {
            if reg_map_of(es).contains_key(k) {
                let i = choose|i: int| 0 <= i < es.drop_last().len() && es.drop_last()[i].0@ == k;
                assert(es[i].0@ == k);
            }
            if exists|i: int| 0 <= i < es.len() && es[i].0@ == k {
                let i = choose|i: int| 0 <= i < es.len() && es[i].0@ == k;
                assert(i < es.len() - 1);
                assert(es.drop_last()[i].0@ == k);
            }
        }
    }
}

proof fn lemma_reg_map_of_index(es: Seq<(String, PartData)>, i: int)
    requires
        reg_names_distinct(es),
        0 <= i < es.len(),
    ensures
        reg_map_of(es).contains_key(es[i].0@),
        reg_map_of(es)[es[i].0@] == es[i].1@,
    decreases es.len(),
{
    lemma_reg_map_of_contains(es, es[i].0@);
    if i < es.len() - 1 {
        assert(forall|a: int, b: int|
            0 <= a < b < es.drop_last().len() ==> es.drop_last()[a].0@ != es.drop_last()[b].0@);
        lemma_reg_map_of_index(es.drop_last(), i);
        assert(es.last().0@ != es[i].0@);
    }
}

proof fn lemma_reg_map_of_update(es: Seq<(String, PartData)>, i: int, e: (String, PartData))
    requires
        reg_names_distinct(es),
        0 <= i < es.len(),
        e.0@ == es[i].0@,
    ensures
        reg_names_distinct(es.update(i, e)),
        reg_map_of(es.update(i, e)) == reg_map_of(es).insert(e.0@, e.1@),
    decreases es.len(),
{
    let es2 = es.update(i, e);
    assert(forall|j: int| 0 <= j < es.len() && j != i ==> es2[j] == es[j]);
    if i == es.len() - 1 {
        assert(es2.drop_last() =~= es.drop_last());
        assert(es2.last() == e);
        assert(reg_map_of(es2) =~= reg_map_of(es).insert(e.0@, e.1@));
    } else {
        assert(forall|a: int, b: int|
            0 <= a < b < es.drop_last().len() ==> es.drop_last()[a].0@ != es.drop_last()[b].0@);
        assert(es.drop_last()[i] == es[i]);
        lemma_reg_map_of_update(es.drop_last(), i, e);
        assert(es2.drop_last() =~= es.drop_last().update(i, e));
        assert(es2.last() == es.last());
        assert(es.last().0@ != e.0@);
        assert(reg_map_of(es2) =~= reg_map_of(es).insert(e.0@, e.1@));
    }
}

impl View for PartDataMap {
    type V = Map<Seq<char>, PartDataView>;

    closed spec fn view(&self) -> Map<Seq<char>, PartDataView> {
        reg_map_of(self.entries@)
    }
}

impl Default for PartDataMap {
    fn default() -> (r: PartDataMap)
        ensures
            r.wf(),
            r@ == Map::<Seq<char>, PartDataView>::empty(),
    {
        PartDataMap { entries: Vec::new() }
    }
}

impl PartDataMap {
    /// No two entries share a name.
    pub closed spec fn wf(&self) -> bool {
        reg_names_distinct(self.entries@)
    }

    /// The index of the entry named `key`, if one exists.
    fn find(&self, key: &str) -> (r: Option<usize>)
        ensures
            match r {
                Some(i) => 0 <= i < self.entries@.len() && self.entries@[i as int].0@ == key@,
                None => forall|i: int| 0 <= i < self.entries@.len() ==> self.entries@[i].0@ != key@,
            },
    {
        let mut i: usize = 0;
        while i < self.entries.len()
            invariant
                0 <= i <= self.entries@.len(),
                forall|k: int| 0 <= k < i ==> self.entries@[k].0@ != key@,
            decreases self.entries@.len() - i,
        {
            if str_eq(self.entries[i].0.as_str(), key) {
                return Some(i);
            }
            i += 1;
        }
        None
    }

    /// The record of the part named `key`, if the registry holds one.
    pub fn get(&self, key: &str) -> (r: Option<&PartData>)
        requires
            self.wf(),
        ensures
            match r {
                Some(d) => self@.contains_key(key@) && d@ == self@[key@],
                None => !self@.contains_key(key@),
            },
    {
        proof {
            lemma_reg_map_of_contains(self.entries@, key@);
        }
        match self.find(key) {
            Some(i) => {
                proof {
                    lemma_reg_map_of_index(self.entries@, i as int);
                }
                Some(&self.entries[i].1)
            },
            None => None,
        }
    }

    /// Adds (or replaces) the record for the part named `key`.
    pub fn insert(&mut self, key: String, value: PartData)
        requires
            old(self).wf(),
        ensures
            final(self).wf(),
            final(self)@ == old(self)@.insert(key@, value@),
    {
        proof {
            lemma_reg_map_of_contains(self.entries@, key@);
        }
        match self.find(key.as_str()) {
            Some(i) => {
                let entry = (key, value);
                proof {
                    lemma_reg_map_of_update(self.entries@, i as int, entry);
                }
                let ghost es0 = self.entries@;
                let _ = self.entries.remove(i);
                self.entries.insert(i, entry);
                proof {
                    assert(self.entries@ =~= es0.update(i as int, entry));
                }
            },
            None => {
                let ghost es0 = self.entries@;
                self.entries.push((key, value));
                proof {
                    assert(self.entries@.drop_last() =~= es0);
                }
            },
        }
    }

    /// The registry distilled from a node map: the same parts under the same
    /// names, with the nodes' placements dropped.
    pub fn from_node_map(node_map: &PartNodeMap) -> (r: PartDataMap)
        requires
            node_map.wf(),
        ensures
            r.wf(),
            r@ == drop_transforms(node_map@),
    {
        let mut entries: Vec<(String, PartData)> = Vec::new();
        let src = &node_map.entries;
        let mut i: usize = 0;
        while i < src.len()
            invariant
                0 <= i <= src@.len(),
                src@ == node_map.entries@,
                names_distinct(src@),
                entries@.len() == i,
                forall|k: int| 0 <= k < i ==> entries@[k].0@ == src@[k].name@,
                reg_names_distinct(entries@),
                reg_map_of(entries@) == drop_transforms(map_of(src@.take(i as int))),
            decreases src@.len() - i,
        {
            let e = &src[i];
            let ghost before = entries@;
            entries.push((e.name.clone(), e.data.duplicate()));
            proof {
                assert(entries@.drop_last() =~= before);
                assert(src@.take(i + 1).drop_last() =~= src@.take(i as int));
                assert(src@.take(i + 1).last() == src@[i as int]);
                assert(reg_map_of(entries@) =~= drop_transforms(map_of(src@.take(i + 1))));
            }
            i += 1;
        }
        proof {
            assert(src@.take(src@.len() as int) =~= src@);
        }
        PartDataMap { entries }
    }

    /// Assembles the part registry of an imported scene: builds a record per
    /// mesh-bearing node, then applies every socket node, then every hitbox
    /// node, each in scene order, and finally drops the placements.
    pub fn from_gltf(nodes: &Vec<SceneNode>) -> (r: PartDataMap)
        ensures
            r.wf(),
            r@ == registry_of(scene_views(nodes@)),
    {
        let ghost nsv = scene_views(nodes@);
        let mut part_map = PartNodeMap::new();
        let mut socks: Vec<(String, Transform)> = Vec::new();
        let mut hbs: Vec<(String, Transform, bool)> = Vec::new();
        proof {
            assert(nsv.take(0) =~= Seq::<NodeView>::empty());
            assert(socket_pair_views(socks@) =~= socket_list(nsv.take(0)));
            assert(hitbox_triple_views(hbs@) =~= hitbox_list(nsv.take(0)));
            assert(part_map@ =~= built_parts(nsv.take(0)));
        }
        let mut i: usize = 0;
        while i < nodes.len()
            invariant
                0 <= i <= nodes@.len(),
                nsv == scene_views(nodes@),
                nsv.len() == nodes@.len(),
                part_map.wf(),
                part_map@ == built_parts(nsv.take(i as int)),
                socket_pair_views(socks@) == socket_list(nsv.take(i as int)),
                hitbox_triple_views(hbs@) == hitbox_list(nsv.take(i as int)),
            decreases nodes@.len() - i,
        {
            let node = &nodes[i];
            proof {
                assert(nsv[i as int] == nodes@[i as int]@);
                assert(nsv.take(i + 1).drop_last() =~= nsv.take(i as int));
                assert(nsv.take(i + 1).last() == nsv[i as int]);
            }
            if str_contains(node.name.as_str(), "Socket") {
                let ghost before = socks@;
                socks.push((node.name.clone(), node.transform));
                proof {
                    assert(socks@.drop_last() =~= before);
                    assert(socket_pair_views(socks@) =~= socket_list(nsv.take(i + 1)));
                    assert(hitbox_triple_views(hbs@) =~= hitbox_list(nsv.take(i + 1)));
                }
            } else if str_contains(node.name.as_str(), "Hitbox") {
                let ghost before = hbs@;
                hbs.push((node.name.clone(), node.transform, node.mesh.is_some()));
                proof {
                    assert(hbs@.drop_last() =~= before);
                    assert(hitbox_triple_views(hbs@) =~= hitbox_list(nsv.take(i + 1)));
                    assert(socket_pair_views(socks@) =~= socket_list(nsv.take(i + 1)));
                }
            } else {
                match &node.mesh {
                    Some(mesh) => {
                        let mut prims: Vec<PartPrimitiveData> = Vec::new();
                        proof {
                            assert(mesh.primitives@.take(0) =~= Seq::<ScenePrimitive>::empty());
                            assert(prims@ =~= prims_of(mesh.primitives@.take(0)));
                        }
                        let mut k: usize = 0;
                        while k < mesh.primitives.len()
                            invariant
                                0 <= k <= mesh.primitives@.len(),
                                prims@ == prims_of(mesh.primitives@.take(k as int)),
                            decreases mesh.primitives@.len() - k,
                        {
                            proof {
                                assert(mesh.primitives@.take(k + 1).drop_last()
                                    =~= mesh.primitives@.take(k as int));
                                assert(mesh.primitives@.take(k + 1).last()
                                    == mesh.primitives@[k as int]);
                            }
                            let p = mesh.primitives[k];
                            match p.material {
                                Some(mat) => {
                                    prims.push(PartPrimitiveData::new(p.mesh, mat));
                                },
                                None => {},
                            }
                            k += 1;
                        }
                        proof {
                            assert(mesh.primitives@.take(mesh.primitives@.len() as int)
                                =~= mesh.primitives@);
                        }
                        let data = PartData { primitives: prims, sockets: Vec::new(), hitbox: None };
                        proof {
                            assert(data@.sockets =~= part_record_of(nsv[i as int]).sockets);
                            assert(data@ == part_record_of(nsv[i as int]));
                        }
                        part_map.insert_part(node.name.as_str(), node.transform, data);
                        proof {
                            assert(socket_pair_views(socks@) =~= socket_list(nsv.take(i + 1)));
                            assert(hitbox_triple_views(hbs@) =~= hitbox_list(nsv.take(i + 1)));
                        }
                    },
                    None => {
                        proof {
                            assert(socket_pair_views(socks@) =~= socket_list(nsv.take(i + 1)));
                            assert(hitbox_triple_views(hbs@) =~= hitbox_list(nsv.take(i + 1)));
                        }
                    },
                }
            }
            i += 1;
        }
        proof {
            assert(nsv.take(nsv.len() as int) =~= nsv);
        }
        let ghost m0 = part_map@;
        let ghost sl = socket_list(nsv);
        let mut j: usize = 0;
        proof {
            assert(sl.skip(0) =~= sl);
        }
        while j < socks.len()
            invariant
                0 <= j <= socks@.len(),
                part_map.wf(),
                socket_pair_views(socks@) == sl,
                sl.len() == socks@.len(),
                link_sockets(part_map@, sl.skip(j as int)) == link_sockets(m0, sl),
            decreases socks@.len() - j,
        {
            let (name, t) = (&socks[j].0, socks[j].1);
            proof {
                assert(sl.skip(j as int)[0] == sl[j as int]);
                assert(sl[j as int] == (name@, t));
                assert(sl.skip(j as int).skip(1) =~= sl.skip(j + 1));
            }
            process_socket_node(&mut part_map, name.as_str(), t);
            j += 1;
        }
        proof {
            assert(sl.skip(socks@.len() as int) =~= Seq::<(Seq<char>, Transform)>::empty());
        }
        let ghost m1 = part_map@;
        let ghost hl = hitbox_list(nsv);
        let mut j2: usize = 0;
        proof {
            assert(hl.skip(0) =~= hl);
        }
        while j2 < hbs.len()
            invariant
                0 <= j2 <= hbs@.len(),
                part_map.wf(),
                hitbox_triple_views(hbs@) == hl,
                hl.len() == hbs@.len(),
                attach_hitboxes(part_map@, hl.skip(j2 as int)) == attach_hitboxes(m1, hl),
            decreases hbs@.len() - j2,
        {
            let (name, t, has_mesh) = (&hbs[j2].0, hbs[j2].1, hbs[j2].2);
            proof {
                assert(hl.skip(j2 as int)[0] == hl[j2 as int]);
                assert(hl[j2 as int] == (name@, t, has_mesh));
                assert(hl.skip(j2 as int).skip(1) =~= hl.skip(j2 + 1));
            }
            process_hitbox_node(&mut part_map, name.as_str(), t, has_mesh);
            j2 += 1;
        }
        proof {
            assert(hl.skip(hbs@.len() as int) =~= Seq::<(Seq<char>, Transform, bool)>::empty());
        }
        PartDataMap::from_node_map(&part_map)
    }
}

/// What a spawned entity carries.
pub enum SpawnPayload {
    /// The root of a spawned part, placed in the world.
    PartRoot(Transform),
    /// A render primitive of the part, as a child of the root.
    Primitive(PartPrimitiveData),
    /// A socket of the part, as a child of the root.
    Socket(PartSocket),
    /// The part's hitbox, as a child of the root.
    Hitbox(PartHitbox),
}

/// The mathematical value of a [`SpawnPayload`].
pub enum SpawnPayloadView {
    PartRoot(Transform),
    Primitive(PartPrimitiveData),
    Socket(SocketView),
    Hitbox(PartHitbox),
}

impl View for SpawnPayload {
    type V = SpawnPayloadView;

    open spec fn view(&self) -> SpawnPayloadView {
        match self {
            SpawnPayload::PartRoot(t) => SpawnPayloadView::PartRoot(*t),
            SpawnPayload::Primitive(p) => SpawnPayloadView::Primitive(*p),
            SpawnPayload::Socket(s) => SpawnPayloadView::Socket(s@),
            SpawnPayload::Hitbox(h) => SpawnPayloadView::Hitbox(*h),
        }
    }
}

/// One entity recorded by the spawn journal: its identifier, its parent, and
/// what it carries.
pub struct SpawnedEntity {
    pub entity: u64,
    pub parent: Option<u64>,
    pub payload: SpawnPayload,
}

/// The mathematical value of a [`SpawnedEntity`].
pub struct SpawnedEntityView {
    pub entity: u64,
    pub parent: Option<u64>,
    pub payload: SpawnPayloadView,
}

impl View for SpawnedEntity {
    type V = SpawnedEntityView;

    open spec fn view(&self) -> SpawnedEntityView {
        SpawnedEntityView { entity: self.entity, parent: self.parent, payload: self.payload@ }
    }
}

/// The views of a spawn journal's records.
pub open spec fn spawned_views(v: Seq<SpawnedEntity>) -> Seq<SpawnedEntityView> {
    v.map_values(|e: SpawnedEntity| e@)
}

/// The deferred world edits handed to the host engine at the end of a frame:
/// entities spawned in order, each with a fresh identifier.
pub struct Commands {
    pub next_entity: u64,
    pub spawned: Vec<SpawnedEntity>,
}

impl Commands {
    /// An empty journal whose fresh identifiers start at `first_entity`.
    pub fn new(first_entity: u64) -> (r: Commands)
        ensures
            r.next_entity == first_entity,
            r.spawned@ == Seq::<SpawnedEntity>::empty(),
    {
        Commands { next_entity: first_entity, spawned: Vec::new() }
    }

    /// Records one spawned entity and hands out its identifier.
    fn spawn(&mut self, parent: Option<u64>, payload: SpawnPayload) -> (e: u64)
        requires
            old(self).next_entity < u64::MAX,
        ensures
            e == old(self).next_entity,
            final(self).next_entity == old(self).next_entity + 1,
            final(self).spawned@ == old(self).spawned@.push(
                SpawnedEntity { entity: old(self).next_entity, parent, payload },
            ),
    {
        let e = self.next_entity;
        self.next_entity = self.next_entity + 1;
        self.spawned.push(SpawnedEntity { entity: e, parent, payload });
        e
    }
}

proof fn lemma_spawned_views_push(v: Seq<SpawnedEntity>, e: SpawnedEntity)
    ensures
        spawned_views(v.push(e)) == spawned_views(v).push(e@),
{
    assert forall|q: int| 0 <= q < v.push(e).len() implies spawned_views(v.push(e))[q]
        == spawned_views(v).push(e@)[q] by {
        assert(spawned_views(v.push(e))[q] == v.push(e)[q]@);
        if q < v.len() {
            assert(v.push(e)[q] == v[q]);
            assert(spawned_views(v)[q] == v[q]@);
        }
    };
    assert(spawned_views(v.push(e)) =~= spawned_views(v).push(e@));
}

/// The records that spawning a part appends to the journal: the root entity
/// first, then one child per primitive, then one per socket, then the hitbox
/// child if the part has a hitbox, with identifiers handed out in order.
pub open spec fn spawn_records(d: PartDataView, t: Transform, root: u64) -> Seq<SpawnedEntityView> {
    seq![
        SpawnedEntityView { entity: root, parent: None, payload: SpawnPayloadView::PartRoot(t) },
    ] + Seq::new(
        d.primitives.len(),
        |k: int|
            SpawnedEntityView {
                entity: (root + 1 + k) as u64,
                parent: Some(root),
                payload: SpawnPayloadView::Primitive(d.primitives[k]),
            },
    ) + Seq::new(
        d.sockets.len(),
        |k: int|
            SpawnedEntityView {
                entity: (root + 1 + d.primitives.len() + k) as u64,
                parent: Some(root),
                payload: SpawnPayloadView::Socket(d.sockets[k]),
            },
    ) + (match d.hitbox {
        Some(h) => seq![
            SpawnedEntityView {
                entity: (root + 1 + d.primitives.len() + d.sockets.len()) as u64,
                parent: Some(root),
                payload: SpawnPayloadView::Hitbox(h),
            },
        ],
        None => Seq::<SpawnedEntityView>::empty(),
    })
}

impl PartData {
    /// Spawns this part into the journal: a root entity placed at
    /// `transform`, one child per primitive, one per socket, and the hitbox
    /// child when the part has one; returns the root entity.
    pub fn spawn(&self, transform: Transform, commands: &mut Commands) -> (root: u64)
        requires
            old(commands).next_entity + 2 + self.primitives@.len() + self.sockets@.len()
                <= u64::MAX,
        ensures
            root == old(commands).next_entity,
            final(commands).next_entity == old(commands).next_entity + 1 + self.primitives@.len()
                + self.sockets@.len() + (if self@.hitbox is Some {
                1int
            } else {
                0int
            }),
            spawned_views(final(commands).spawned@) == spawned_views(old(commands).spawned@)
                + spawn_records(self@, transform, root),
    {
        let ghost base = spawned_views(old(commands).spawned@);
        let ghost rec = spawn_records(self@, transform, old(commands).next_entity);
        let ghost plen = self.primitives@.len() as int;
        let ghost slen = self.sockets@.len() as int;
        let ghost prev0 = commands.spawned@;
        let root = commands.spawn(None, SpawnPayload::PartRoot(transform));
        proof {
            let e = commands.spawned@.last();
            assert(commands.spawned@ == prev0.push(e));
            lemma_spawned_views_push(prev0, e);
            assert(e@ == rec[0]);
            assert(base + rec.take(1) =~= base.push(rec[0]));
        }
        let mut k: usize = 0;
        while k < self.primitives.len()
            invariant
                0 <= k <= plen,
                plen == self.primitives@.len(),
                slen == self.sockets@.len(),
                rec == spawn_records(self@, transform, root),
                base == spawned_views(old(commands).spawned@),
                root + 2 + plen + slen <= u64::MAX,
                commands.next_entity == root + 1 + k,
                spawned_views(commands.spawned@) == base + rec.take(1 + k),
            decreases plen - k,
        {
            let p = self.primitives[k];
            let ghost prev = commands.spawned@;
            let _ = commands.spawn(Some(root), SpawnPayload::Primitive(p));
            proof {
                let e = commands.spawned@.last();
                assert(commands.spawned@ == prev.push(e));
                lemma_spawned_views_push(prev, e);
                assert(e@ == rec[1 + k]);
                assert(base + rec.take(1 + (k + 1)) =~= (base + rec.take(1 + k)).push(rec[1 + k]));
            }
            k += 1;
        }
        let mut j: usize = 0;
        while j < self.sockets.len()
            invariant
                0 <= j <= slen,
                plen == self.primitives@.len(),
                slen == self.sockets@.len(),
                rec == spawn_records(self@, transform, root),
                base == spawned_views(old(commands).spawned@),
                root + 2 + plen + slen <= u64::MAX,
                commands.next_entity == root + 1 + plen + j,
                spawned_views(commands.spawned@) == base + rec.take(1 + plen + j),
            decreases slen - j,
        {
            let s = self.sockets[j].duplicate();
            let payload = SpawnPayload::Socket(s);
            let ghost pl = payload@;
            let ghost prev = commands.spawned@;
            let _ = commands.spawn(Some(root), payload);
            proof {
                let e = commands.spawned@.last();
                assert(commands.spawned@ == prev.push(e));
                lemma_spawned_views_push(prev, e);
                assert(e@.payload == pl);
                assert(self@.sockets[j as int] == self.sockets@[j as int]@);
                assert(pl == SpawnPayloadView::Socket(self@.sockets[j as int]));
                assert(e@ == rec[1 + plen + j]);
                assert(base + rec.take(1 + plen + (j + 1)) =~= (base + rec.take(1 + plen + j)).push(
                    rec[1 + plen + j],
                ));
            }
            j += 1;
        }
        match &self.hitbox {
            Some(h) => {
                let ghost prev = commands.spawned@;
                let _ = commands.spawn(Some(root), SpawnPayload::Hitbox(*h));
                proof {
                    let e = commands.spawned@.last();
                    assert(commands.spawned@ == prev.push(e));
                    lemma_spawned_views_push(prev, e);
                    assert(rec.len() == 2 + plen + slen);
                    assert(e@ == rec[1 + plen + slen]);
                    assert(rec.take(rec.len() as int) =~= rec);
                    assert(base + rec =~= (base + rec.take(1 + plen + slen)).push(
                        rec[1 + plen + slen],
                    ));
                }
            },
            None => {
                proof {
                    assert(rec.len() == 1 + plen + slen);
                    assert(rec.take(rec.len() as int) =~= rec);
                    assert(spawned_views(commands.spawned@) =~= base + rec);
                }
            },
        }
        root
    }
}

/// No occurrence of the segment separator.
pub open spec fn dot_free(s: Seq<char>) -> bool {
    forall|i: int| 0 <= i < s.len() ==> s[i] != '.'
}

/// The socket node name `Socket.<a>.<n>`.
pub open spec fn socket_name_two(a: Seq<char>, n: Seq<char>) -> Seq<char> {
    "Socket."@ + a + seq!['.'] + n
}

/// The socket node name `Socket.<a>.<n>.<b>`.
pub open spec fn socket_name_three(a: Seq<char>, n: Seq<char>, b: Seq<char>) -> Seq<char> {
    "Socket."@ + a + seq!['.'] + n + seq!['.'] + b
}

/// The hitbox node name `Hitbox.<p>.<s>`.
pub open spec fn hitbox_name(p: Seq<char>, s: Seq<char>) -> Seq<char> {
    "Hitbox."@ + p + seq!['.'] + s
}

proof fn lemma_socket_name_two_segs(a: Seq<char>, n: Seq<char>)
    requires
        dot_free(a),
        dot_free(n),
    ensures
        has_prefix(socket_name_two(a, n), "Socket."@),
        split_char(socket_name_two(a, n).skip("Socket."@.len() as int), '.') == seq![a, n],
{
    let name = socket_name_two(a, n);
    let rem = a + seq!['.'] + n;
    assert(name =~= "Socket."@ + rem);
    assert(name.subrange(0, "Socket."@.len() as int) =~= "Socket."@);
    assert(name.skip("Socket."@.len() as int) =~= rem);
    crate::strings::lemma_split_char_concat(a, n, '.');
    crate::strings::lemma_split_char_whole(a, '.');
    crate::strings::lemma_split_char_whole(n, '.');
    assert(split_char(rem, '.') =~~= seq![a, n]);
}

proof fn lemma_socket_name_three_segs(a: Seq<char>, n: Seq<char>, b: Seq<char>)
    requires
        dot_free(a),
        dot_free(n),
        dot_free(b),
    ensures
        has_prefix(socket_name_three(a, n, b), "Socket."@),
        split_char(socket_name_three(a, n, b).skip("Socket."@.len() as int), '.') == seq![a, n, b],
{
    let name = socket_name_three(a, n, b);
    let tail = n + seq!['.'] + b;
    let rem = a + seq!['.'] + tail;
    assert(name =~= "Socket."@ + rem);
    assert(name.subrange(0, "Socket."@.len() as int) =~= "Socket."@);
    assert(name.skip("Socket."@.len() as int) =~= rem);
    crate::strings::lemma_split_char_concat(a, tail, '.');
    crate::strings::lemma_split_char_concat(n, b, '.');
    crate::strings::lemma_split_char_whole(a, '.');
    crate::strings::lemma_split_char_whole(n, '.');
    crate::strings::lemma_split_char_whole(b, '.');
    assert(split_char(rem, '.') =~~= seq![a, n, b]);
}

proof fn lemma_hitbox_name_parse(p: Seq<char>, s: Seq<char>)
    requires
        dot_free(p),
        dot_free(s),
        spec_shape_tag(s) is Some,
    ensures
        spec_hitbox_parse(hitbox_name(p, s)) == Some((p, spec_shape_tag(s)->0)),
{
    let name = hitbox_name(p, s);
    let rem = p + seq!['.'] + s;
    assert(name =~= "Hitbox."@ + rem);
    assert(name.subrange(0, "Hitbox."@.len() as int) =~= "Hitbox."@);
    assert(name.skip("Hitbox."@.len() as int) =~= rem);
    crate::strings::lemma_split_char_concat(p, s, '.');
    crate::strings::lemma_split_char_whole(p, '.');
    crate::strings::lemma_split_char_whole(s, '.');
    assert(split_char(rem, '.') =~~= seq![p, s]);
}

/// For every valid socket node name `Socket.<a>.<n>` whose part `a` is
/// registered, linking attaches the primary descriptor to part `a` only: its
/// offset is the node's position minus `a`'s translation, `a`'s other data
/// and every other part stay as they were, and no part appears or vanishes.
pub proof fn lemma_socket_primary_attached(
    m: Map<Seq<char>, (Transform, PartDataView)>,
    a: Seq<char>,
    n: Seq<char>,
    t: Transform,
)
    requires
        dot_free(a),
        dot_free(n),
        m.contains_key(a),
    ensures
        ({
            let m2 = link_socket(m, socket_name_two(a, n), t);
            &&& m2.dom() == m.dom()
            &&& m2[a].0 == m[a].0
            &&& m2[a].1.sockets == m[a].1.sockets.push(
                spec_primary_socket(n, t, m[a].0.translation),
            )
            &&& spec_primary_socket(n, t, m[a].0.translation).offset == delta_of(
                t.translation,
                m[a].0.translation,
            )
            &&& m2[a].1.primitives == m[a].1.primitives
            &&& m2[a].1.hitbox == m[a].1.hitbox
            &&& forall|k: Seq<char>| k != a && m.contains_key(k) ==> m2[k] == m[k]
        }),
{
    lemma_socket_name_two_segs(a, n);
    let segs = split_char(socket_name_two(a, n).skip("Socket."@.len() as int), '.');
    assert(segs[0] == a);
    assert(segs[1] == n);
    assert(segs.len() == 2);
    let m2 = link_socket(m, socket_name_two(a, n), t);
    assert(m2.dom() =~= m.dom());
}

/// For every valid socket node name `Socket.<a>.<n>.<b>` where both `a` and
/// `b` are registered (and differ), linking attaches the primary descriptor
/// to `a` and the secondary one to `b`, each relative to its own part's
/// translation; everything else stays as it was.
pub proof fn lemma_socket_pair_attached(
    m: Map<Seq<char>, (Transform, PartDataView)>,
    a: Seq<char>,
    n: Seq<char>,
    b: Seq<char>,
    t: Transform,
)
    requires
        dot_free(a),
        dot_free(n),
        dot_free(b),
        a != b,
        m.contains_key(a),
        m.contains_key(b),
    ensures
        ({
            let m2 = link_socket(m, socket_name_three(a, n, b), t);
            &&& m2.dom() == m.dom()
            &&& m2[a].0 == m[a].0
            &&& m2[b].0 == m[b].0
            &&& m2[a].1.sockets == m[a].1.sockets.push(
                spec_primary_socket(n, t, m[a].0.translation),
            )
            &&& m2[b].1.sockets == m[b].1.sockets.push(
                spec_secondary_socket(t, m[b].0.translation),
            )
            &&& m2[a].1.primitives == m[a].1.primitives
            &&& m2[a].1.hitbox == m[a].1.hitbox
            &&& m2[b].1.primitives == m[b].1.primitives
            &&& m2[b].1.hitbox == m[b].1.hitbox
            &&& forall|k: Seq<char>| k != a && k != b && m.contains_key(k) ==> m2[k] == m[k]
        }),
{
    lemma_socket_name_three_segs(a, n, b);
    let segs = split_char(socket_name_three(a, n, b).skip("Socket."@.len() as int), '.');
    assert(segs[0] == a);
    assert(segs[1] == n);
    assert(segs[2] == b);
    assert(segs.len() == 3);
    let m2 = link_socket(m, socket_name_three(a, n, b), t);
    assert(m2.dom() =~= m.dom());
}

/// A socket node that names an unregistered first part leaves the registry
/// exactly as it was — same parts, same contents — whether or not the name
/// carries a second part.
pub proof fn lemma_socket_unknown_part(
    m: Map<Seq<char>, (Transform, PartDataView)>,
    a: Seq<char>,
    n: Seq<char>,
    b: Seq<char>,
    t: Transform,
)
    requires
        dot_free(a),
        dot_free(n),
        dot_free(b),
        !m.contains_key(a),
    ensures
        link_socket(m, socket_name_two(a, n), t) == m,
        link_socket(m, socket_name_three(a, n, b), t) == m,
{
    lemma_socket_name_two_segs(a, n);
    lemma_socket_name_three_segs(a, n, b);
}

/// A hitbox node `Hitbox.<p>.<shape>` with a resolvable mesh attaches exactly
/// one hitbox descriptor to the registered part `p`: its placement is the
/// node's, its tag the shape's; everything else stays as it was.
pub proof fn lemma_hitbox_attached(
    m: Map<Seq<char>, (Transform, PartDataView)>,
    p: Seq<char>,
    s: Seq<char>,
    t: Transform,
)
    requires
        dot_free(p),
        dot_free(s),
        spec_shape_tag(s) is Some,
        m.contains_key(p),
    ensures
        ({
            let m2 = attach_hitbox(m, hitbox_name(p, s), t, true);
            &&& m2.dom() == m.dom()
            &&& m2[p].0 == m[p].0
            &&& m2[p].1.hitbox == Some(PartHitbox { transform: t, shape: spec_shape_tag(s)->0 })
            &&& m2[p].1.primitives == m[p].1.primitives
            &&& m2[p].1.sockets == m[p].1.sockets
            &&& forall|k: Seq<char>| k != p && m.contains_key(k) ==> m2[k] == m[k]
        }),
{
    lemma_hitbox_name_parse(p, s);
    let m2 = attach_hitbox(m, hitbox_name(p, s), t, true);
    assert(m2.dom() =~= m.dom());
}

/// A second hitbox node for the same part overwrites the first descriptor:
/// after both are applied the part carries the later node's hitbox.
pub proof fn lemma_hitbox_overwrite(
    m: Map<Seq<char>, (Transform, PartDataView)>,
    p: Seq<char>,
    s1: Seq<char>,
    s2: Seq<char>,
    t1: Transform,
    t2: Transform,
)
    requires
        dot_free(p),
        dot_free(s1),
        dot_free(s2),
        spec_shape_tag(s1) is Some,
        spec_shape_tag(s2) is Some,
        m.contains_key(p),
    ensures
        ({
            let m2 = attach_hitbox(
                attach_hitbox(m, hitbox_name(p, s1), t1, true),
                hitbox_name(p, s2),
                t2,
                true,
            );
            &&& m2.dom() == m.dom()
            &&& m2[p].1.hitbox == Some(PartHitbox { transform: t2, shape: spec_shape_tag(s2)->0 })
        }),
{
    lemma_hitbox_attached(m, p, s1, t1);
    let m1 = attach_hitbox(m, hitbox_name(p, s1), t1, true);
    lemma_hitbox_attached(m1, p, s2, t2);
}

} // verus!
