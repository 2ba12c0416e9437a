//! The PipeWire backend's in-memory model of the graph, written only by the loop that
//! listens to the PipeWire registry. It is built from registry globals (nodes, ports,
//! links, devices) and from the `Props` and `Route` params that nodes and devices
//! report, and it answers the questions the backend's commands ask: which numeric ids
//! a stable key names, and what to write to change a node's volume or mute.
//!
//! Node keys are `media.class|node.name` ([`node_key`]); a device's hardware path is
//! recorded but not folded into them.

use vstd::prelude::*;
use vstd::string::*;

use crate::backend::{build_channel_volumes, channel_array, loudest, loudest_level, target_in_range};
use crate::decimal::{parse_i32, parse_u32, parse_usize, signed_text_value, unsigned_text_value};
use crate::identity::{node_key, node_key_of, port_key, port_key_of};
use crate::model::VolumeTarget;
use crate::spa_params::{decode_props, decode_route, decoded_props, decoded_route, opt_levels, PodValue};
use crate::search::{first_match, is_first_match, lemma_first_match_exists, lemma_first_match_found};
use crate::table::{
    find_id, has_id, id_index, lemma_id_index, lemma_upsert, lemma_without, lookup, put,
    take, unique_ids, upsert, without_id,
};
use crate::text::{contains_text, has_infix, has_prefix, starts_with_text, str_eq};
use crate::wire::{Direction, GraphModel, GraphState, Level, LinkView, NodeModel, NodeView, PortModel, PortView};

verus! {

// ---- records ----

/// What the registry says a global object is.
#[derive(Clone, Copy, Debug, PartialEq, Eq, Structural)]
pub enum ObjectKind {
    Node,
    Port,
    Link,
    Device,
    Other,
}

/// A registry global: its id, its kind and its string properties (absent when the
/// registry sent none).
pub struct Global {
    pub id: u32,
    pub kind: ObjectKind,
    pub props: Option<Vec<(String, String)>>,
}

/// A node as the model keeps it.
pub struct NodeRec {
    pub name: String,
    pub media_class: String,
    /// The owning device's global id (`device.id`).
    pub device_id: Option<u32>,
    /// The node's device index within its card profile (`card.profile.device`); a device
    /// `Route` carries the same index.
    pub card_profile_device: Option<i32>,
    /// Live per-channel levels; empty until reported.
    pub channel_volumes: Vec<Level>,
    pub muted: bool,
}

/// A device as the model keeps it.
pub struct DeviceRec {
    /// The port-position-stable hardware path (`device.bus-path`, else `api.alsa.path`).
    pub path: Option<String>,
}

/// A port as the model keeps it.
pub struct PortRec {
    pub node_id: u32,
    pub name: String,
    pub dir: Direction,
    /// `port.id`: the channel index into the node's `channel_volumes`.
    pub channel: Option<usize>,
}

/// A device's current output route.
pub struct RouteRec {
    /// The route's own index on the device (it addresses the route on a write).
    pub index: i32,
    /// The route's per-channel levels.
    pub channel_volumes: Vec<Level>,
}

/// A cached route, keyed by device id and profile-device index.
pub struct RouteEntry {
    pub device_id: u32,
    pub profile_device: i32,
    pub route: RouteRec,
}

/// The model: tables keyed by registry id, plus the route cache.
pub struct Model {
    pub nodes: Vec<(u32, NodeRec)>,
    pub ports: Vec<(u32, PortRec)>,
    /// Link id to (output port id, input port id).
    pub links: Vec<(u32, (u32, u32))>,
    pub devices: Vec<(u32, DeviceRec)>,
    pub routes: Vec<RouteEntry>,
}

// ---- views ----

/// The mathematical value of a [`NodeRec`].
pub struct NodeRecView {
    pub name: Seq<char>,
    pub media_class: Seq<char>,
    pub device_id: Option<u32>,
    pub card_profile_device: Option<i32>,
    pub channel_volumes: Seq<Level>,
    pub muted: bool,
}

impl View for NodeRec {
    type V = NodeRecView;

    open spec fn view(&self) -> NodeRecView {
        NodeRecView {
            name: self.name@,
            media_class: self.media_class@,
            device_id: self.device_id,
            card_profile_device: self.card_profile_device,
            channel_volumes: self.channel_volumes@,
            muted: self.muted,
        }
    }
}

/// The mathematical value of a [`PortRec`].
pub struct PortRecView {
    pub node_id: u32,
    pub name: Seq<char>,
    pub dir: Direction,
    pub channel: Option<usize>,
}

impl View for PortRec {
    type V = PortRecView;

    open spec fn view(&self) -> PortRecView {
        PortRecView { node_id: self.node_id, name: self.name@, dir: self.dir, channel: self.channel }
    }
}

/// The character view of an optional string.
pub open spec fn opt_chars(s: Option<String>) -> Option<Seq<char>> {
    match s {
        Some(t) => Some(t@),
        None => None,
    }
}

impl View for DeviceRec {
    type V = Option<Seq<char>>;

    open spec fn view(&self) -> Option<Seq<char>> {
        opt_chars(self.path)
    }
}

/// The mathematical value of a [`RouteEntry`].
pub struct RouteView {
    pub device_id: u32,
    pub profile_device: i32,
    pub index: i32,
    pub channel_volumes: Seq<Level>,
}

impl View for RouteEntry {
    type V = RouteView;

    open spec fn view(&self) -> RouteView {
        RouteView {
            device_id: self.device_id,
            profile_device: self.profile_device,
            index: self.route.index,
            channel_volumes: self.route.channel_volumes@,
        }
    }
}

/// The entries of a table, each record taken by its view.
pub open spec fn entry_views<V: View>(s: Seq<(u32, V)>) -> Seq<(u32, V::V)> {
    s.map_values(|e: (u32, V)| (e.0, e.1@))
}

/// The mathematical value of a [`Model`].
pub struct ModelView {
    pub nodes: Seq<(u32, NodeRecView)>,
    pub ports: Seq<(u32, PortRecView)>,
    pub links: Seq<(u32, (u32, u32))>,
    pub devices: Seq<(u32, Option<Seq<char>>)>,
    pub routes: Seq<RouteView>,
}

impl View for Model {
    type V = ModelView;

    open spec fn view(&self) -> ModelView {
        ModelView {
            nodes: entry_views(self.nodes@),
            ports: entry_views(self.ports@),
            links: self.links@,
            devices: entry_views(self.devices@),
            routes: self.routes@.map_values(|r: RouteEntry| r@),
        }
    }
}

/// No two cached routes share a device id and profile-device index.
pub open spec fn unique_routes(rs: Seq<RouteView>) -> bool {
    forall|i: int, j: int|
        0 <= i < rs.len() && 0 <= j < rs.len() && i != j ==> !(rs[i].device_id == rs[j].device_id
            && rs[i].profile_device == rs[j].profile_device)
}

/// Every table has unique ids and the route cache unique keys.
pub open spec fn well_formed(m: ModelView) -> bool {
    &&& unique_ids(m.nodes)
    &&& unique_ids(m.ports)
    &&& unique_ids(m.links)
    &&& unique_ids(m.devices)
    &&& unique_routes(m.routes)
}

/// Taking records by their views keeps every id where it was.
pub proof fn lemma_entry_views<V: View>(s: Seq<(u32, V)>)
    ensures
        entry_views(s).len() == s.len(),
        forall|i: int| 0 <= i < s.len() ==> #[trigger] entry_views(s)[i] == (s[i].0, s[i].1@),
        unique_ids(entry_views(s)) == unique_ids(s),
        forall|k: u32| #[trigger] id_index(entry_views(s), k) == id_index(s, k),
{
    let t = entry_views(s);
    assert(unique_ids(t) == unique_ids(s)) by {
        if unique_ids(s) {
            assert forall|i: int, j: int| 0 <= i < t.len() && 0 <= j < t.len() && i != j implies t[i].0
                != t[j].0 by {
                assert(t[i].0 == s[i].0);
                assert(t[j].0 == s[j].0);
            }
        }
        if unique_ids(t) {
            assert forall|i: int, j: int| 0 <= i < s.len() && 0 <= j < s.len() && i != j implies s[i].0
                != s[j].0 by {
                assert(t[i].0 == s[i].0);
                assert(t[j].0 == s[j].0);
            }
        }
    }
    assert forall|k: u32| #[trigger] id_index(t, k) == id_index(s, k) by {
        lemma_id_index(s, k);
        lemma_id_index(t, k);
        match id_index(s, k) {
            Some(i) => {
                assert(t[i].0 == k);
                lemma_first_match_exists(t, has_id(k), i);
                let j = id_index(t, k).unwrap();
                assert(s[j].0 == k);
                lemma_first_match_exists(s, has_id(k), j);
            },
            None => {
                if let Some(j) = id_index(t, k) {
                    assert(s[j].0 == t[j].0);
                }
            },
        }
    }
}

/// Putting a record and then taking views is taking views and then putting its view.
pub proof fn lemma_entry_views_upsert<V: View>(s: Seq<(u32, V)>, k: u32, v: V)
    ensures
        entry_views(upsert(s, k, v)) == upsert(entry_views(s), k, v@),
{
    lemma_entry_views(s);
    lemma_entry_views(upsert(s, k, v));
    assert(entry_views(upsert(s, k, v)) =~= upsert(entry_views(s), k, v@));
}

/// Taking an id and then taking views is taking views and then taking the id.
pub proof fn lemma_entry_views_without<V: View>(s: Seq<(u32, V)>, k: u32)
    ensures
        entry_views(without_id(s, k)) == without_id(entry_views(s), k),
{
    lemma_entry_views(s);
    lemma_entry_views(without_id(s, k));
    assert(entry_views(without_id(s, k)) =~= without_id(entry_views(s), k));
}

impl Model {
    /// An empty model.
    pub fn new() -> (m: Model)
        ensures
            well_formed(m@),
            m@.nodes.len() == 0,
            m@.ports.len() == 0,
            m@.links.len() == 0,
            m@.devices.len() == 0,
            m@.routes.len() == 0,
    {
        Model { nodes: Vec::new(), ports: Vec::new(), links: Vec::new(), devices: Vec::new(), routes: Vec::new() }
    }
}

// ---- registry properties ----

/// A property entry has the given name.
pub open spec fn prop_named(key: Seq<char>) -> spec_fn((String, String)) -> bool {
    |e: (String, String)| e.0@ == key
}

/// The value of the first property named `key`, if any.
pub open spec fn prop_value(props: Seq<(String, String)>, key: Seq<char>) -> Option<Seq<char>> {
    match first_match(props, prop_named(key)) {
        Some(i) => Some(props[i].1@),
        None => None,
    }
}

/// Property text read as a `u32`.
pub open spec fn as_u32(t: Option<Seq<char>>) -> Option<u32> {
    match t {
        Some(s) => match unsigned_text_value(s) {
            Some(n) => if n <= u32::MAX {
                Some(n as u32)
            } else {
                None
            },
            None => None,
        },
        None => None,
    }
}

/// Property text read as a `usize`.
pub open spec fn as_usize(t: Option<Seq<char>>) -> Option<usize> {
    match t {
        Some(s) => match unsigned_text_value(s) {
            Some(n) => if n <= usize::MAX {
                Some(n as usize)
            } else {
                None
            },
            None => None,
        },
        None => None,
    }
}

/// Property text read as an `i32`.
pub open spec fn as_i32(t: Option<Seq<char>>) -> Option<i32> {
    match t {
        Some(s) => match signed_text_value(s) {
            Some(x) => if i32::MIN <= x <= i32::MAX {
                Some(x as i32)
            } else {
                None
            },
            None => None,
        },
        None => None,
    }
}

/// Property text, or the empty text when the property is absent.
pub open spec fn or_empty(t: Option<Seq<char>>) -> Seq<char> {
    match t {
        Some(s) => s,
        None => Seq::empty(),
    }
}

/// The value of the first property named `key`.
pub fn prop<'a>(props: &'a Vec<(String, String)>, key: &str) -> (r: Option<&'a str>)
    ensures
        match r {
            Some(v) => prop_value(props@, key@) == Some(v@),
            None => prop_value(props@, key@) is None,
        },
{
    let mut i: usize = 0;
    while i < props.len()
        invariant
            i <= props@.len(),
            forall|j: int| 0 <= j < i ==> props@[j].0@ != key@,
        decreases props.len() - i,
    {
        if str_eq(props[i].0.as_str(), key) {
            proof {
                assert(is_first_match(props@, prop_named(key@), i as int));
                lemma_first_match_found(props@, prop_named(key@), i as int);
            }
            return Some(props[i].1.as_str());
        }
        i = i + 1;
    }
    proof {
        if let Some(j) = first_match(props@, prop_named(key@)) {
            assert(is_first_match(props@, prop_named(key@), j));
        }
    }
    None
}

/// A property read as a `u32`.
pub fn prop_u32(props: &Vec<(String, String)>, key: &str) -> (r: Option<u32>)
    ensures
        r == as_u32(prop_value(props@, key@)),
{
    match prop(props, key) {
        Some(t) => parse_u32(t),
        None => None,
    }
}

/// A property read as a `usize`.
pub fn prop_usize(props: &Vec<(String, String)>, key: &str) -> (r: Option<usize>)
    ensures
        r == as_usize(prop_value(props@, key@)),
{
    match prop(props, key) {
        Some(t) => parse_usize(t),
        None => None,
    }
}

/// A property read as an `i32`.
pub fn prop_i32(props: &Vec<(String, String)>, key: &str) -> (r: Option<i32>)
    ensures
        r == as_i32(prop_value(props@, key@)),
{
    match prop(props, key) {
        Some(t) => parse_i32(t),
        None => None,
    }
}

/// A property's text, or an empty string when it is absent.
fn prop_text(props: &Vec<(String, String)>, key: &str) -> (r: String)
    ensures
        r@ == or_empty(prop_value(props@, key@)),
{
    match prop(props, key) {
        Some(t) => String::from_str(t),
        None => String::new(),
    }
}

// ---- folding registry globals into the model ----

/// The node record a registry global describes. Volume, mute and a profile-device
/// index learned earlier (`prev`) survive a re-announce.
pub open spec fn ingested_node(props: Seq<(String, String)>, prev: Option<NodeRecView>) -> NodeRecView {
    NodeRecView {
        name: or_empty(prop_value(props, "node.name"@)),
        media_class: or_empty(prop_value(props, "media.class"@)),
        device_id: as_u32(prop_value(props, "device.id"@)),
        card_profile_device: match as_i32(prop_value(props, "card.profile.device"@)) {
            Some(c) => Some(c),
            None => match prev {
                Some(p) => p.card_profile_device,
                None => None,
            },
        },
        channel_volumes: match prev {
            Some(p) => p.channel_volumes,
            None => Seq::empty(),
        },
        muted: match prev {
            Some(p) => p.muted,
            None => false,
        },
    }
}

/// The port record a registry global describes; `None` without a readable `node.id`.
pub open spec fn ingested_port(props: Seq<(String, String)>) -> Option<PortRecView> {
    match as_u32(prop_value(props, "node.id"@)) {
        Some(node_id) => Some(
            PortRecView {
                node_id,
                name: or_empty(prop_value(props, "port.name"@)),
                dir: if prop_value(props, "port.direction"@) == Some("out"@) {
                    Direction::Out
                } else {
                    Direction::In
                },
                channel: as_usize(prop_value(props, "port.id"@)),
            },
        ),
        None => None,
    }
}

/// The (output port, input port) a registry link global describes, when both read.
pub open spec fn ingested_link(props: Seq<(String, String)>) -> Option<(u32, u32)> {
    match (as_u32(prop_value(props, "link.output.port"@)), as_u32(prop_value(props, "link.input.port"@))) {
        (Some(o), Some(i)) => Some((o, i)),
        _ => None,
    }
}

/// The model after folding in a registry global, or `None` when the global leaves it
/// unchanged.
pub open spec fn after_global(m: ModelView, id: u32, kind: ObjectKind, props: Option<Seq<(String, String)>>) -> Option<
    ModelView,
> {
    match props {
        None => None,
        Some(p) => match kind {
            ObjectKind::Device => Some(
                ModelView {
                    devices: upsert(
                        m.devices,
                        id,
                        match lookup(m.devices, id) {
                            Some(path) => path,
                            None => None,
                        },
                    ),
                    ..m
                },
            ),
            ObjectKind::Node => Some(ModelView { nodes: upsert(m.nodes, id, ingested_node(p, lookup(m.nodes, id))), ..m }),
            ObjectKind::Port => match ingested_port(p) {
                Some(r) => Some(ModelView { ports: upsert(m.ports, id, r), ..m }),
                None => None,
            },
            ObjectKind::Link => match ingested_link(p) {
                Some(l) => Some(ModelView { links: upsert(m.links, id, l), ..m }),
                None => None,
            },
            ObjectKind::Other => None,
        },
    }
}

/// The properties of a global, by value.
pub open spec fn global_props(g: &Global) -> Option<Seq<(String, String)>> {
    match g.props {
        Some(p) => Some(p@),
        None => None,
    }
}

/// The model without the object `id`, whatever its kind.
pub open spec fn after_removal(m: ModelView, id: u32) -> ModelView {
    ModelView {
        nodes: without_id(m.nodes, id),
        ports: without_id(m.ports, id),
        links: without_id(m.links, id),
        devices: without_id(m.devices, id),
        routes: m.routes,
    }
}

/// The model holds a node, port, link or device with id `id`.
pub open spec fn holds_id(m: ModelView, id: u32) -> bool {
    ||| id_index(m.nodes, id) is Some
    ||| id_index(m.ports, id) is Some
    ||| id_index(m.links, id) is Some
    ||| id_index(m.devices, id) is Some
}

impl Model {
    /// Folds one registry global into the model; says whether the model changed.
    pub fn ingest_global(&mut self, g: &Global) -> (r: bool)
        requires
            well_formed(old(self)@),
        ensures
            well_formed(final(self)@),
            match after_global(old(self)@, g.id, g.kind, global_props(g)) {
                Some(m) => r && final(self)@ == m,
                None => !r && final(self)@ == old(self)@,
            },
    {
        let props = match &g.props {
            Some(p) => p,
            None => {
                return false;
            },
        };
        let id = g.id;
        proof {
            lemma_entry_views(self.nodes@);
            lemma_entry_views(self.ports@);
            lemma_entry_views(self.devices@);
        }
        match g.kind {
            ObjectKind::Device => {
                let path: Option<String> = match find_id(&self.devices, id) {
                    Some(i) => match &self.devices[i].1.path {
                        Some(p) => Some(p.clone()),
                        None => None,
                    },
                    None => None,
                };
                proof {
                    lemma_upsert(self.devices@, id, DeviceRec { path });
                    lemma_entry_views_upsert(self.devices@, id, DeviceRec { path });
                }
                put(&mut self.devices, id, DeviceRec { path });
                true
            },
            ObjectKind::Node => {
                let (channel_volumes, muted, prev_cpd) = match find_id(&self.nodes, id) {
                    Some(i) => {
                        let v = self.nodes[i].1.channel_volumes.clone();
                        proof {
                            assert(v@ =~= self.nodes@[i as int].1.channel_volumes@);
                        }
                        (v, self.nodes[i].1.muted, self.nodes[i].1.card_profile_device)
                    },
                    None => (Vec::new(), false, None),
                };
                let device_id = prop_u32(props, "device.id");
                let card_profile_device = match prop_i32(props, "card.profile.device") {
                    Some(c) => Some(c),
                    None => prev_cpd,
                };
                let rec = NodeRec {
                    name: prop_text(props, "node.name"),
                    media_class: prop_text(props, "media.class"),
                    device_id,
                    card_profile_device,
                    channel_volumes,
                    muted,
                };
                proof {
                    assert(rec@ == ingested_node(props@, lookup(self@.nodes, id)));
                    lemma_upsert(self.nodes@, id, rec);
                    lemma_entry_views_upsert(self.nodes@, id, rec);
                }
                put(&mut self.nodes, id, rec);
                true
            },
            ObjectKind::Port => {
                let node_id = match prop_u32(props, "node.id") {
                    Some(n) => n,
                    None => {
                        return false;
                    },
                };
                let dir = match prop(props, "port.direction") {
                    Some(d) => if str_eq(d, "out") {
                        Direction::Out
                    } else {
                        Direction::In
                    },
                    None => Direction::In,
                };
                let rec = PortRec { node_id, name: prop_text(props, "port.name"), dir, channel: prop_usize(props, "port.id") };
                proof {
                    assert(Some(rec@) == ingested_port(props@));
                    lemma_upsert(self.ports@, id, rec);
                    lemma_entry_views_upsert(self.ports@, id, rec);
                }
                put(&mut self.ports, id, rec);
                true
            },
            ObjectKind::Link => {
                let out = prop_u32(props, "link.output.port");
                let inp = prop_u32(props, "link.input.port");
                match (out, inp) {
                    (Some(o), Some(i)) => {
                        proof {
                            lemma_upsert(self.links@, id, (o, i));
                        }
                        put(&mut self.links, id, (o, i));
                        true
                    },
                    _ => false,
                }
            },
            ObjectKind::Other => false,
        }
    }

    /// Drops the node, port, link or device with id `id`; says whether there was one.
    pub fn remove_global(&mut self, id: u32) -> (r: bool)
        requires
            well_formed(old(self)@),
        ensures
            well_formed(final(self)@),
            final(self)@ == after_removal(old(self)@, id),
            r == holds_id(old(self)@, id),
    {
        proof {
            lemma_entry_views(self.nodes@);
            lemma_entry_views(self.ports@);
            lemma_entry_views(self.devices@);
            lemma_without(self.nodes@, id);
            lemma_without(self.ports@, id);
            lemma_without(self.links@, id);
            lemma_without(self.devices@, id);
            lemma_entry_views_without(self.nodes@, id);
            lemma_entry_views_without(self.ports@, id);
            lemma_entry_views_without(self.devices@, id);
            lemma_entry_views(without_id(self.nodes@, id));
            lemma_entry_views(without_id(self.ports@, id));
            lemma_entry_views(without_id(self.devices@, id));
        }
        let a = take(&mut self.nodes, id);
        let b = take(&mut self.ports, id);
        let c = take(&mut self.links, id);
        let d = take(&mut self.devices, id);
        a || b || c || d
    }
}

// ---- the graph the model describes ----

/// The stable key of a node record.
pub open spec fn rec_key(n: NodeRecView) -> Seq<char> {
    node_key_of(n.name, n.media_class)
}

/// The stable key of port `pid`, when both the port and its node are known.
pub open spec fn port_key_in(m: ModelView, pid: u32) -> Option<Seq<char>> {
    match lookup(m.ports, pid) {
        Some(p) => match lookup(m.nodes, p.node_id) {
            Some(n) => Some(port_key_of(rec_key(n), p.name, p.dir)),
            None => None,
        },
        None => None,
    }
}

/// The ports of node `id`, in table order, keyed under the node key `nk`.
pub open spec fn ports_of(ports: Seq<(u32, PortRecView)>, id: u32, nk: Seq<char>) -> Seq<PortModel>
    decreases ports.len(),
{
    if ports.len() == 0 {
        Seq::empty()
    } else {
        let rest = ports_of(ports.drop_last(), id, nk);
        let p = ports.last().1;
        if p.node_id == id {
            rest.push(PortModel { key: port_key_of(nk, p.name, p.dir), name: p.name, direction: p.dir, channel: p.channel })
        } else {
            rest
        }
    }
}

/// How a node of the model appears in a snapshot: present, with its ports and with
/// its loudest channel as its representative level.
pub open spec fn node_view_in(m: ModelView, e: (u32, NodeRecView)) -> NodeModel {
    NodeModel {
        key: rec_key(e.1),
        name: e.1.name,
        media_class: e.1.media_class,
        ports: ports_of(m.ports, e.0, rec_key(e.1)),
        volume: loudest(e.1.channel_volumes),
        channel_volumes: e.1.channel_volumes,
        muted: e.1.muted,
        present: true,
    }
}

/// The links of `ls` whose two ports both resolve, by stable key, in table order.
pub open spec fn live_links(m: ModelView, ls: Seq<(u32, (u32, u32))>) -> Seq<(Seq<char>, Seq<char>)>
    decreases ls.len(),
{
    if ls.len() == 0 {
        Seq::empty()
    } else {
        let rest = live_links(m, ls.drop_last());
        let l = ls.last().1;
        match (port_key_in(m, l.0), port_key_in(m, l.1)) {
            (Some(o), Some(i)) => rest.push((o, i)),
            _ => rest,
        }
    }
}

/// The snapshot the model describes: connected, every node in table order, the links
/// that resolve, and no zones.
pub open spec fn graph_of(m: ModelView) -> GraphModel {
    GraphModel {
        connected: true,
        nodes: m.nodes.map_values(|e: (u32, NodeRecView)| node_view_in(m, e)),
        links: live_links(m, m.links),
        zones: Seq::empty(),
    }
}

/// The stable key of a node record.
fn node_stable_key(n: &NodeRec) -> (k: String)
    ensures
        k@ == rec_key(n@),
{
    node_key(n.name.as_str(), n.media_class.as_str())
}

impl Model {
    /// The stable key of port `port_id`, when both it and its node are known.
    pub fn port_stable_key(&self, port_id: u32) -> (r: Option<String>)
        requires
            well_formed(self@),
        ensures
            opt_chars(r) == port_key_in(self@, port_id),
    {
        proof {
            lemma_entry_views(self.ports@);
            lemma_entry_views(self.nodes@);
        }
        match find_id(&self.ports, port_id) {
            Some(i) => {
                let p = &self.ports[i].1;
                match find_id(&self.nodes, p.node_id) {
                    Some(j) => {
                        let nk = node_stable_key(&self.nodes[j].1);
                        Some(port_key(nk.as_str(), p.name.as_str(), p.dir))
                    },
                    None => None,
                }
            },
            None => None,
        }
    }

    /// The snapshot views of node `id`'s ports, keyed under `nk`.
    fn port_views(&self, id: u32, nk: &str) -> (r: Vec<PortView>)
        ensures
            r@.map_values(|p: PortView| p@) == ports_of(self@.ports, id, nk@),
    {
        let ghost ps = self@.ports;
        proof {
            lemma_entry_views(self.ports@);
        }
        let mut out: Vec<PortView> = Vec::new();
        let mut k: usize = 0;
        while k < self.ports.len()
            invariant
                ps == self@.ports,
                ps.len() == self.ports@.len(),
                forall|j: int| 0 <= j < ps.len() ==> #[trigger] ps[j] == (self.ports@[j].0, self.ports@[j].1@),
                k <= self.ports@.len(),
                out@.map_values(|p: PortView| p@) == ports_of(ps.take(k as int), id, nk@),
            decreases self.ports.len() - k,
        {
            proof {
                assert(ps.take(k + 1).drop_last() =~= ps.take(k as int));
                assert(ps.take(k + 1).last() == ps[k as int]);
            }
            let p = &self.ports[k].1;
            if p.node_id == id {
                let v = PortView { key: port_key(nk, p.name.as_str(), p.dir), name: p.name.clone(), direction: p.dir, channel: p.channel };
                let ghost before = out@;
                out.push(v);
                proof {
                    assert(out@.map_values(|q: PortView| q@) =~= before.map_values(|q: PortView| q@).push(v@));
                }
            }
            k = k + 1;
        }
        proof {
            assert(ps.take(k as int) =~= ps);
        }
        out
    }

    /// The snapshot of the graph the model describes.
    pub fn build_graph(&self) -> (g: GraphState)
        requires
            well_formed(self@),
        ensures
            g@ == graph_of(self@),
    {
        let ghost m = self@;
        proof {
            lemma_entry_views(self.nodes@);
        }
        let mut nodes: Vec<NodeView> = Vec::new();
        let mut i: usize = 0;
        while i < self.nodes.len()
            invariant
                m == self@,
                well_formed(m),
                m.nodes.len() == self.nodes@.len(),
                forall|j: int| 0 <= j < m.nodes.len() ==> #[trigger] m.nodes[j] == (self.nodes@[j].0, self.nodes@[j].1@),
                i <= self.nodes@.len(),
                nodes@.len() == i,
                forall|j: int| 0 <= j < i ==> #[trigger] nodes@[j]@ == node_view_in(m, m.nodes[j]),
            decreases self.nodes.len() - i,
        {
            let id = self.nodes[i].0;
            let n = &self.nodes[i].1;
            let nk = node_stable_key(n);
            let ports = self.port_views(id, nk.as_str());
            let volume = loudest_level(&n.channel_volumes);
            let channel_volumes = n.channel_volumes.clone();
            proof {
                assert(channel_volumes@ =~= n.channel_volumes@);
            }
            let v = NodeView {
                key: nk,
                name: n.name.clone(),
                media_class: n.media_class.clone(),
                ports,
                volume,
                channel_volumes,
                muted: n.muted,
                present: true,
            };
            proof {
                assert(v@ == node_view_in(m, m.nodes[i as int]));
            }
            nodes.push(v);
            i = i + 1;
        }
        let links = self.live_link_views();
        let g = GraphState { connected: true, nodes, links, zones: Vec::new() };
        proof {
            assert(g@.nodes =~= graph_of(m).nodes);
            assert(g@.zones =~= graph_of(m).zones);
        }
        g
    }

    /// The links whose two ports both resolve, by stable key.
    fn live_link_views(&self) -> (r: Vec<LinkView>)
        requires
            well_formed(self@),
        ensures
            r@.map_values(|l: LinkView| l@) == live_links(self@, self@.links),
    {
        let ghost m = self@;
        let mut out: Vec<LinkView> = Vec::new();
        let mut k: usize = 0;
        while k < self.links.len()
            invariant
                m == self@,
                well_formed(m),
                k <= self.links@.len(),
                out@.map_values(|l: LinkView| l@) == live_links(m, m.links.take(k as int)),
            decreases self.links.len() - k,
        {
            proof {
                assert(m.links.take(k + 1).drop_last() =~= m.links.take(k as int));
            }
            let (o, inp) = self.links[k].1;
            let ok = self.port_stable_key(o);
            let ik = self.port_stable_key(inp);
            match (ok, ik) {
                (Some(a), Some(b)) => {
                    let v = LinkView { output_port: a, input_port: b };
                    let ghost before = out@;
                    out.push(v);
                    proof {
                        assert(out@.map_values(|l: LinkView| l@) =~= before.map_values(|l: LinkView| l@).push(v@));
                    }
                },
                _ => {},
            }
            k = k + 1;
        }
        proof {
            assert(m.links.take(k as int) =~= m.links);
        }
        out
    }
}

// ---- resolving stable keys to registry ids ----

/// A port entry whose stable key is `key`.
pub open spec fn port_keyed_in(m: ModelView, key: Seq<char>) -> spec_fn((u32, PortRecView)) -> bool {
    |e: (u32, PortRecView)| port_key_in(m, e.0) == Some(key)
}

/// The (port id, node id) of the first port whose stable key is `key`.
pub open spec fn port_ids_for(m: ModelView, key: Seq<char>) -> Option<(u32, u32)> {
    match first_match(m.ports, port_keyed_in(m, key)) {
        Some(i) => Some((m.ports[i].0, m.ports[i].1.node_id)),
        None => None,
    }
}

/// A node entry whose stable key is `key`.
pub open spec fn node_keyed_in(key: Seq<char>) -> spec_fn((u32, NodeRecView)) -> bool {
    |e: (u32, NodeRecView)| rec_key(e.1) == key
}

/// The position of the first node whose stable key is `key`.
pub open spec fn node_index_for(m: ModelView, key: Seq<char>) -> Option<int> {
    first_match(m.nodes, node_keyed_in(key))
}

/// The direction a node's channels flow in: out of a source, into anything else.
pub open spec fn primary_dir(media_class: Seq<char>) -> Direction {
    if has_infix(media_class, "Source"@) {
        Direction::Out
    } else {
        Direction::In
    }
}

/// A port that counts as a channel of node `id` in direction `d`: monitor ports do not.
pub open spec fn counted(p: PortRecView, id: u32, d: Direction) -> bool {
    p.node_id == id && p.dir == d && !has_prefix(p.name, "monitor"@)
}

/// The number of channels of node `id` in direction `d`.
pub open spec fn channel_count(ports: Seq<(u32, PortRecView)>, id: u32, d: Direction) -> nat
    decreases ports.len(),
{
    if ports.len() == 0 {
        0
    } else {
        channel_count(ports.drop_last(), id, d) + if counted(ports.last().1, id, d) {
            1nat
        } else {
            0nat
        }
    }
}

/// The id and channel count of the first node whose stable key is `key`.
pub open spec fn node_for(m: ModelView, key: Seq<char>) -> Option<(u32, nat)> {
    match node_index_for(m, key) {
        Some(i) => Some((m.nodes[i].0, channel_count(m.ports, m.nodes[i].0, primary_dir(m.nodes[i].1.media_class)))),
        None => None,
    }
}

/// A cached route with the given device id and profile-device index.
pub open spec fn route_keyed(d: u32, p: i32) -> spec_fn(RouteView) -> bool {
    |r: RouteView| r.device_id == d && r.profile_device == p
}

/// The position of the cached route for device `d`, profile-device index `p`.
pub open spec fn route_at(m: ModelView, d: u32, p: i32) -> Option<int> {
    first_match(m.routes, route_keyed(d, p))
}

/// The cached route that carries the audible level of the first node keyed `key`:
/// none for a node without a device or profile-device index, or before its route has
/// been seen.
pub open spec fn route_for(m: ModelView, key: Seq<char>) -> Option<RouteView> {
    match node_index_for(m, key) {
        Some(i) => match (m.nodes[i].1.device_id, m.nodes[i].1.card_profile_device) {
            (Some(d), Some(p)) => match route_at(m, d, p) {
                Some(j) => Some(m.routes[j]),
                None => None,
            },
            _ => None,
        },
        None => None,
    }
}

/// A link entry from port `o` to port `i`.
pub open spec fn link_joins(o: u32, i: u32) -> spec_fn((u32, (u32, u32))) -> bool {
    |e: (u32, (u32, u32))| e.1 == (o, i)
}

/// The id of the first link between the ports keyed `out_key` and `in_key`.
pub open spec fn link_for(m: ModelView, out_key: Seq<char>, in_key: Seq<char>) -> Option<u32> {
    match (port_ids_for(m, out_key), port_ids_for(m, in_key)) {
        (Some(o), Some(i)) => match first_match(m.links, link_joins(o.0, i.0)) {
            Some(j) => Some(m.links[j].0),
            None => None,
        },
        _ => None,
    }
}

impl Clone for RouteRec {
    fn clone(&self) -> (r: RouteRec)
        ensures
            r.index == self.index,
            r.channel_volumes@ == self.channel_volumes@,
    {
        let v = self.channel_volumes.clone();
        proof {
            assert(v@ =~= self.channel_volumes@);
        }
        RouteRec { index: self.index, channel_volumes: v }
    }
}

impl Model {
    /// The (port id, node id) of the first port whose stable key is `key`.
    pub fn find_port_id(&self, key: &str) -> (r: Option<(u32, u32)>)
        requires
            well_formed(self@),
        ensures
            r == port_ids_for(self@, key@),
    {
        let ghost m = self@;
        proof {
            lemma_entry_views(self.ports@);
        }
        let mut i: usize = 0;
        while i < self.ports.len()
            invariant
                m == self@,
                well_formed(m),
                m.ports.len() == self.ports@.len(),
                forall|j: int| 0 <= j < m.ports.len() ==> #[trigger] m.ports[j] == (self.ports@[j].0, self.ports@[j].1@),
                i <= self.ports@.len(),
                forall|j: int| 0 <= j < i ==> !#[trigger] port_keyed_in(m, key@)(m.ports[j]),
            decreases self.ports.len() - i,
        {
            let pid = self.ports[i].0;
            let hit = match self.port_stable_key(pid) {
                Some(k) => str_eq(k.as_str(), key),
                None => false,
            };
            if hit {
                proof {
                    assert(port_keyed_in(m, key@)(m.ports[i as int]));
                    lemma_first_match_found(m.ports, port_keyed_in(m, key@), i as int);
                }
                return Some((pid, self.ports[i].1.node_id));
            }
            i = i + 1;
        }
        proof {
            if let Some(j) = first_match(m.ports, port_keyed_in(m, key@)) {
                assert(is_first_match(m.ports, port_keyed_in(m, key@), j));
            }
        }
        None
    }

    /// The position of the first node whose stable key is `key`.
    fn find_node_index(&self, key: &str) -> (r: Option<usize>)
        ensures
            match r {
                Some(i) => node_index_for(self@, key@) == Some(i as int),
                None => node_index_for(self@, key@) is None,
            },
    {
        let ghost m = self@;
        proof {
            lemma_entry_views(self.nodes@);
        }
        let mut i: usize = 0;
        while i < self.nodes.len()
            invariant
                m == self@,
                m.nodes.len() == self.nodes@.len(),
                forall|j: int| 0 <= j < m.nodes.len() ==> #[trigger] m.nodes[j] == (self.nodes@[j].0, self.nodes@[j].1@),
                i <= self.nodes@.len(),
                forall|j: int| 0 <= j < i ==> !#[trigger] node_keyed_in(key@)(m.nodes[j]),
            decreases self.nodes.len() - i,
        {
            let k = node_stable_key(&self.nodes[i].1);
            if str_eq(k.as_str(), key) {
                proof {
                    assert(node_keyed_in(key@)(m.nodes[i as int]));
                    lemma_first_match_found(m.nodes, node_keyed_in(key@), i as int);
                }
                return Some(i);
            }
            i = i + 1;
        }
        proof {
            if let Some(j) = first_match(m.nodes, node_keyed_in(key@)) {
                assert(is_first_match(m.nodes, node_keyed_in(key@), j));
            }
        }
        None
    }

    /// The number of channels of node `id` in direction `d`.
    fn count_channels(&self, id: u32, d: Direction) -> (r: usize)
        ensures
            r as nat == channel_count(self@.ports, id, d),
    {
        let ghost ps = self@.ports;
        proof {
            lemma_entry_views(self.ports@);
        }
        let mut count: usize = 0;
        let mut k: usize = 0;
        while k < self.ports.len()
            invariant
                ps == self@.ports,
                ps.len() == self.ports@.len(),
                forall|j: int| 0 <= j < ps.len() ==> #[trigger] ps[j] == (self.ports@[j].0, self.ports@[j].1@),
                k <= self.ports@.len(),
                count <= k,
                count as nat == channel_count(ps.take(k as int), id, d),
            decreases self.ports.len() - k,
        {
            proof {
                assert(ps.take(k + 1).drop_last() =~= ps.take(k as int));
                assert(ps.take(k + 1).last() == ps[k as int]);
            }
            let p = &self.ports[k].1;
            if p.node_id == id && p.dir == d && !starts_with_text(p.name.as_str(), "monitor") {
                count = count + 1;
            }
            k = k + 1;
        }
        proof {
            assert(ps.take(k as int) =~= ps);
        }
        count
    }

    /// The id and channel count of the first node whose stable key is `key`. Its
    /// channels are its ports in its primary direction, monitor ports excluded.
    pub fn find_node(&self, key: &str) -> (r: Option<(u32, usize)>)
        ensures
            match r {
                Some((id, c)) => node_for(self@, key@) == Some((id, c as nat)),
                None => node_for(self@, key@) is None,
            },
    {
        proof {
            lemma_entry_views(self.nodes@);
        }
        match self.find_node_index(key) {
            Some(i) => Some((self.nodes[i].0, self.node_channels(i))),
            None => None,
        }
    }

    /// The channel count of the node at position `i`.
    fn node_channels(&self, i: usize) -> (c: usize)
        requires
            i < self.nodes@.len(),
        ensures
            c as nat == channel_count(self@.ports, self.nodes@[i as int].0, primary_dir(self.nodes@[i as int].1.media_class@)),
    {
        let primary = if contains_text(self.nodes[i].1.media_class.as_str(), "Source") {
            Direction::Out
        } else {
            Direction::In
        };
        self.count_channels(self.nodes[i].0, primary)
    }

    /// The position of the cached route for device `d`, profile-device index `p`.
    fn find_route(&self, d: u32, p: i32) -> (r: Option<usize>)
        ensures
            match r {
                Some(j) => route_at(self@, d, p) == Some(j as int),
                None => route_at(self@, d, p) is None,
            },
    {
        let ghost m = self@;
        let mut j: usize = 0;
        while j < self.routes.len()
            invariant
                m == self@,
                j <= self.routes@.len(),
                forall|k: int| 0 <= k < j ==> !#[trigger] route_keyed(d, p)(m.routes[k]),
            decreases self.routes.len() - j,
        {
            if self.routes[j].device_id == d && self.routes[j].profile_device == p {
                proof {
                    assert(route_keyed(d, p)(m.routes[j as int]));
                    lemma_first_match_found(m.routes, route_keyed(d, p), j as int);
                }
                return Some(j);
            }
            j = j + 1;
        }
        proof {
            if let Some(k) = first_match(m.routes, route_keyed(d, p)) {
                assert(is_first_match(m.routes, route_keyed(d, p), k));
            }
        }
        None
    }

    /// The device route that carries the audible level of the node keyed `key`, as
    /// (device id, profile-device index, route).
    pub fn route_for_node(&self, key: &str) -> (r: Option<(u32, i32, RouteRec)>)
        ensures
            match r {
                Some((d, p, rec)) => route_for(self@, key@) == Some(
                    RouteView { device_id: d, profile_device: p, index: rec.index, channel_volumes: rec.channel_volumes@ },
                ),
                None => route_for(self@, key@) is None,
            },
    {
        proof {
            lemma_entry_views(self.nodes@);
        }
        match self.find_node_index(key) {
            Some(i) => {
                let n = &self.nodes[i].1;
                match (n.device_id, n.card_profile_device) {
                    (Some(d), Some(p)) => match self.find_route(d, p) {
                        Some(j) => Some((d, p, self.routes[j].route.clone())),
                        None => None,
                    },
                    _ => None,
                }
            },
            None => None,
        }
    }

    /// The ids of the ports keyed `out_key` and `in_key`, as (port id, node id) each,
    /// when both resolve.
    pub fn link_endpoints(&self, out_key: &str, in_key: &str) -> (r: Option<((u32, u32), (u32, u32))>)
        requires
            well_formed(self@),
        ensures
            r == (match (port_ids_for(self@, out_key@), port_ids_for(self@, in_key@)) {
                (Some(o), Some(i)) => Some((o, i)),
                _ => None,
            }),
    {
        match (self.find_port_id(out_key), self.find_port_id(in_key)) {
            (Some(o), Some(i)) => Some((o, i)),
            _ => None,
        }
    }

    /// The id of the first link between the ports keyed `out_key` and `in_key`.
    pub fn link_between(&self, out_key: &str, in_key: &str) -> (r: Option<u32>)
        requires
            well_formed(self@),
        ensures
            r == link_for(self@, out_key@, in_key@),
    {
        let ghost m = self@;
        let (o, i) = match (self.find_port_id(out_key), self.find_port_id(in_key)) {
            (Some(o), Some(i)) => (o.0, i.0),
            _ => {
                return None;
            },
        };
        assert(port_ids_for(m, out_key@).unwrap().0 == o && port_ids_for(m, in_key@).unwrap().0 == i);
        let mut j: usize = 0;
        while j < self.links.len()
            invariant
                m == self@,
                port_ids_for(m, out_key@) is Some && port_ids_for(m, out_key@).unwrap().0 == o,
                port_ids_for(m, in_key@) is Some && port_ids_for(m, in_key@).unwrap().0 == i,
                j <= self.links@.len(),
                forall|k: int| 0 <= k < j ==> !#[trigger] link_joins(o, i)(m.links[k]),
            decreases self.links.len() - j,
        {
            if self.links[j].1.0 == o && self.links[j].1.1 == i {
                proof {
                    assert(link_joins(o, i)(m.links[j as int]));
                    lemma_first_match_found(m.links, link_joins(o, i), j as int);
                    assert(link_for(m, out_key@, in_key@) == Some(m.links[j as int].0));
                }
                return Some(self.links[j].0);
            }
            j = j + 1;
        }
        proof {
            if let Some(k) = first_match(m.links, link_joins(o, i)) {
                assert(is_first_match(m.links, link_joins(o, i), k));
            }
        }
        None
    }
}

// ---- params and info reported by nodes and devices ----

/// Reported levels replace a node's levels unless they are empty.
pub open spec fn levels_after(current: Seq<Level>, reported: Option<Seq<Level>>) -> Seq<Level> {
    match reported {
        Some(c) => if c.len() > 0 {
            c
        } else {
            current
        },
        None => current,
    }
}

/// A node record after a report of its levels and mute.
pub open spec fn with_reported(n: NodeRecView, levels: Option<Seq<Level>>, mute: Option<bool>) -> NodeRecView {
    NodeRecView {
        channel_volumes: levels_after(n.channel_volumes, levels),
        muted: match mute {
            Some(b) => b,
            None => n.muted,
        },
        ..n
    }
}

/// The model after node `id` reports levels and mute (unchanged for an unknown node).
pub open spec fn after_node_report(m: ModelView, id: u32, levels: Option<Seq<Level>>, mute: Option<bool>) -> ModelView {
    match lookup(m.nodes, id) {
        Some(n) => ModelView { nodes: upsert(m.nodes, id, with_reported(n, levels, mute)), ..m },
        None => m,
    }
}

/// A node sits on the route of device `d` with profile-device index `p`.
pub open spec fn on_route(n: NodeRecView, d: u32, p: i32) -> bool {
    n.device_id == Some(d) && n.card_profile_device == Some(p)
}

/// Every node on the route of device `d`, profile-device `p`, after the route reports
/// levels and mute.
pub open spec fn reflected(
    nodes: Seq<(u32, NodeRecView)>,
    d: u32,
    p: i32,
    levels: Option<Seq<Level>>,
    mute: Option<bool>,
) -> Seq<(u32, NodeRecView)> {
    nodes.map_values(
        |e: (u32, NodeRecView)|
            if on_route(e.1, d, p) {
                (e.0, with_reported(e.1, levels, mute))
            } else {
                e
            },
    )
}

/// The route cache with `r` stored under its device and profile-device index.
pub open spec fn route_stored(rs: Seq<RouteView>, r: RouteView) -> Seq<RouteView> {
    match first_match(rs, route_keyed(r.device_id, r.profile_device)) {
        Some(j) => rs.update(j, r),
        None => rs.push(r),
    }
}

/// Reported levels that replace what they report on.
pub open spec fn real_levels(levels: Option<Seq<Level>>) -> bool {
    levels is Some && levels.unwrap().len() > 0
}

/// The model after device `d` reports route `(index, p)` with levels and mute: a route
/// that reports levels is cached, and every node on it takes the report.
pub open spec fn after_route_report(
    m: ModelView,
    d: u32,
    index: i32,
    p: i32,
    levels: Option<Seq<Level>>,
    mute: Option<bool>,
) -> ModelView {
    ModelView {
        nodes: reflected(m.nodes, d, p, levels, mute),
        routes: if real_levels(levels) {
            route_stored(m.routes, RouteView { device_id: d, profile_device: p, index, channel_volumes: levels.unwrap() })
        } else {
            m.routes
        },
        ..m
    }
}

/// A route report changes some node: one sits on the route and the report carries
/// levels or mute.
pub open spec fn route_report_lands(m: ModelView, d: u32, p: i32, levels: Option<Seq<Level>>, mute: Option<bool>) -> bool {
    &&& exists|i: int| 0 <= i < m.nodes.len() && on_route(#[trigger] m.nodes[i].1, d, p)
    &&& (real_levels(levels) || mute is Some)
}

/// The hardware path a device's info reports: `device.bus-path`, else `api.alsa.path`.
pub open spec fn info_path(props: Seq<(String, String)>) -> Option<Seq<char>> {
    match prop_value(props, "device.bus-path"@) {
        Some(p) => Some(p),
        None => prop_value(props, "api.alsa.path"@),
    }
}

/// The model after node `id`'s info reports a profile-device index (unchanged for an
/// unknown node or an unreadable index).
pub open spec fn after_node_info(m: ModelView, id: u32, props: Seq<(String, String)>) -> ModelView {
    match (lookup(m.nodes, id), as_i32(prop_value(props, "card.profile.device"@))) {
        (Some(n), Some(c)) => ModelView { nodes: upsert(m.nodes, id, NodeRecView { card_profile_device: Some(c), ..n }), ..m },
        _ => m,
    }
}

impl Model {
    /// Stores a new record for the node at position `i`.
    fn replace_node(&mut self, i: usize, rec: NodeRec)
        requires
            i < old(self).nodes@.len(),
            well_formed(old(self)@),
        ensures
            well_formed(final(self)@),
            final(self)@ == (ModelView { nodes: old(self)@.nodes.update(i as int, (old(self)@.nodes[i as int].0, rec@)), ..old(self)@ }),
    {
        proof {
            lemma_entry_views(self.nodes@);
        }
        let id = self.nodes[i].0;
        self.nodes.set(i, (id, rec));
        proof {
            lemma_entry_views(self.nodes@);
            assert(self@.nodes =~= old(self)@.nodes.update(i as int, (id, rec@)));
        }
    }

    /// A copy of the node record at position `i` with new levels and mute.
    fn node_with(&self, i: usize, channel_volumes: Vec<Level>, muted: bool) -> (r: NodeRec)
        requires
            i < self.nodes@.len(),
        ensures
            r@ == (NodeRecView { channel_volumes: channel_volumes@, muted, ..self.nodes@[i as int].1@ }),
    {
        let n = &self.nodes[i].1;
        NodeRec {
            name: n.name.clone(),
            media_class: n.media_class.clone(),
            device_id: n.device_id,
            card_profile_device: n.card_profile_device,
            channel_volumes,
            muted,
        }
    }

    /// The levels of the node at position `i`.
    fn node_levels(&self, i: usize) -> (r: Vec<Level>)
        requires
            i < self.nodes@.len(),
        ensures
            r@ == self.nodes@[i as int].1.channel_volumes@,
    {
        let v = self.nodes[i].1.channel_volumes.clone();
        proof {
            assert(v@ =~= self.nodes@[i as int].1.channel_volumes@);
        }
        v
    }

    /// Folds a node's `Props` param into the model; says whether it reported anything
    /// (and so whether a fresh snapshot is due).
    pub fn apply_node_param(&mut self, id: u32, param: &PodValue) -> (r: bool)
        requires
            well_formed(old(self)@),
        ensures
            well_formed(final(self)@),
            match decoded_props(*param) {
                Some((l, m)) => r && final(self)@ == after_node_report(old(self)@, id, l, m),
                None => !r && final(self)@ == old(self)@,
            },
    {
        let (levels, mute) = match decode_props(param) {
            Some(d) => d,
            None => {
                return false;
            },
        };
        proof {
            lemma_entry_views(self.nodes@);
        }
        if let Some(i) = find_id(&self.nodes, id) {
            let chans = match levels {
                Some(c) => if c.len() > 0 {
                    c
                } else {
                    self.node_levels(i)
                },
                None => self.node_levels(i),
            };
            let muted = match mute {
                Some(b) => b,
                None => self.nodes[i].1.muted,
            };
            let rec = self.node_with(i, chans, muted);
            proof {
                lemma_id_index(self.nodes@, id);
                lemma_id_index(self@.nodes, id);
            }
            self.replace_node(i, rec);
        }
        true
    }

    /// Records the profile-device index that node `id`'s info reports.
    pub fn note_node_info(&mut self, id: u32, props: &Vec<(String, String)>)
        requires
            well_formed(old(self)@),
        ensures
            well_formed(final(self)@),
            final(self)@ == after_node_info(old(self)@, id, props@),
    {
        proof {
            lemma_entry_views(self.nodes@);
        }
        let cpd = match prop_i32(props, "card.profile.device") {
            Some(c) => c,
            None => {
                return;
            },
        };
        if let Some(i) = find_id(&self.nodes, id) {
            let n = &self.nodes[i].1;
            let rec = NodeRec {
                name: n.name.clone(),
                media_class: n.media_class.clone(),
                device_id: n.device_id,
                card_profile_device: Some(cpd),
                channel_volumes: self.node_levels(i),
                muted: n.muted,
            };
            proof {
                lemma_id_index(self.nodes@, id);
            }
            self.replace_node(i, rec);
        }
    }

    /// Records the hardware path that device `id`'s info reports; says whether the
    /// recorded path changed. The path is only recorded: node keys do not fold it in
    /// (see the module documentation), so the snapshot does not change with it.
    pub fn note_device_path(&mut self, id: u32, props: &Vec<(String, String)>) -> (r: bool)
        requires
            well_formed(old(self)@),
        ensures
            well_formed(final(self)@),
            match (info_path(props@), lookup(old(self)@.devices, id)) {
                (Some(p), Some(prev)) => final(self)@ == (ModelView { devices: upsert(old(self)@.devices, id, Some(p)), ..old(self)@ })
                    && r == (prev != Some(p)),
                _ => !r && final(self)@ == old(self)@,
            },
    {
        proof {
            lemma_entry_views(self.devices@);
        }
        let path = match prop(props, "device.bus-path") {
            Some(p) => p,
            None => match prop(props, "api.alsa.path") {
                Some(p) => p,
                None => {
                    return false;
                },
            },
        };
        match find_id(&self.devices, id) {
            Some(i) => {
                let same = match &self.devices[i].1.path {
                    Some(old_path) => str_eq(old_path.as_str(), path),
                    None => false,
                };
                let rec = DeviceRec { path: Some(String::from_str(path)) };
                proof {
                    lemma_id_index(self.devices@, id);
                    lemma_upsert(self.devices@, id, rec);
                    lemma_entry_views_upsert(self.devices@, id, rec);
                }
                put(&mut self.devices, id, rec);
                !same
            },
            None => false,
        }
    }

    /// Caches route `(index, p)` of device `d` with the given levels.
    fn store_route(&mut self, d: u32, p: i32, index: i32, levels: Vec<Level>)
        requires
            well_formed(old(self)@),
        ensures
            well_formed(final(self)@),
            final(self)@ == (ModelView {
                routes: route_stored(old(self)@.routes, RouteView { device_id: d, profile_device: p, index, channel_volumes: levels@ }),
                ..old(self)@
            }),
    {
        let ghost old_routes = self@.routes;
        let entry = RouteEntry { device_id: d, profile_device: p, route: RouteRec { index, channel_volumes: levels } };
        match self.find_route(d, p) {
            Some(j) => {
                self.routes.set(j, entry);
                proof {
                    assert(self@.routes =~= old_routes.update(j as int, entry@));
                    assert forall|a: int, b: int| 0 <= a < self@.routes.len() && 0 <= b < self@.routes.len() && a != b implies !(
                    self@.routes[a].device_id == self@.routes[b].device_id && self@.routes[a].profile_device
                        == self@.routes[b].profile_device) by {
                        if a == j || b == j {
                            let o = if a == j { b } else { a };
                            assert(old_routes[j as int].device_id == d && old_routes[j as int].profile_device == p);
                        }
                    }
                }
            },
            None => {
                self.routes.push(entry);
                proof {
                    assert(self@.routes =~= old_routes.push(entry@));
                    assert forall|a: int, b: int| 0 <= a < self@.routes.len() && 0 <= b < self@.routes.len() && a != b implies !(
                    self@.routes[a].device_id == self@.routes[b].device_id && self@.routes[a].profile_device
                        == self@.routes[b].profile_device) by {
                        if a == old_routes.len() || b == old_routes.len() {
                            let o = if a == old_routes.len() { b } else { a };
                            if route_keyed(d, p)(old_routes[o]) {
                                lemma_first_match_exists(old_routes, route_keyed(d, p), o);
                            }
                        }
                    }
                }
            },
        }
    }

    /// Folds a device's `Route` param into the model: caches a route that reports levels
    /// and reflects the report onto every node on it. Says whether some node changed
    /// (and so whether a fresh snapshot is due).
    pub fn apply_route_param(&mut self, device: u32, param: &PodValue) -> (r: bool)
        requires
            well_formed(old(self)@),
        ensures
            well_formed(final(self)@),
            match decoded_route(*param) {
                Some((index, p, l, m)) => final(self)@ == after_route_report(old(self)@, device, index, p, l, m)
                    && r == route_report_lands(old(self)@, device, p, l, m),
                None => !r && final(self)@ == old(self)@,
            },
    {
        let ghost m0 = self@;
        let (index, p, levels, mute) = match decode_route(param) {
            Some(d) => d,
            None => {
                return false;
            },
        };
        let ghost lv = opt_levels(levels);
        let fresh = match &levels {
            Some(c) => c.len() > 0,
            None => false,
        };
        if fresh {
            let c = match &levels {
                Some(c) => c.clone(),
                None => Vec::new(),
            };
            proof {
                assert(c@ =~= lv.unwrap());
            }
            self.store_route(device, p, index, c);
        }
        let ghost m1 = self@;
        let mut changed = false;
        let mut i: usize = 0;
        while i < self.nodes.len()
            invariant
                well_formed(self@),
                m1.nodes == m0.nodes,
                self@ == (ModelView { nodes: self@.nodes, ..m1 }),
                self@.nodes.len() == m0.nodes.len(),
                i <= self@.nodes.len(),
                forall|j: int| 0 <= j < i ==> #[trigger] self@.nodes[j] == reflected(m0.nodes, device, p, lv, mute)[j],
                forall|j: int| i <= j < self@.nodes.len() ==> #[trigger] self@.nodes[j] == m0.nodes[j],
                changed == ((exists|j: int| 0 <= j < i && on_route(#[trigger] m0.nodes[j].1, device, p)) && (
                real_levels(lv) || mute is Some)),
                fresh == real_levels(lv),
                match &levels {
                    Some(v) => lv == Some(v@),
                    None => lv is None,
                },
            decreases self.nodes@.len() - i,
        {
            proof {
                lemma_entry_views(self.nodes@);
            }
            let n = &self.nodes[i].1;
            let hit = n.device_id == Some(device) && n.card_profile_device == Some(p);
            proof {
                assert(self@.nodes[i as int] == m0.nodes[i as int]);
                if hit {
                    assert(on_route(m0.nodes[i as int].1, device, p));
                } else {
                    assert forall|j: int| 0 <= j < i + 1 && on_route(#[trigger] m0.nodes[j].1, device, p) implies j < i by {
                    }
                }
            }
            if hit {
                let chans = if fresh {
                    match &levels {
                        Some(c) => {
                            let v = c.clone();
                            proof {
                                assert(v@ =~= lv.unwrap());
                            }
                            v
                        },
                        None => self.node_levels(i),
                    }
                } else {
                    self.node_levels(i)
                };
                let muted = match mute {
                    Some(b) => b,
                    None => n.muted,
                };
                if fresh || mute.is_some() {
                    changed = true;
                }
                let rec = self.node_with(i, chans, muted);
                self.replace_node(i, rec);
            }
            i = i + 1;
        }
        proof {
            assert(self@.nodes =~= reflected(m0.nodes, device, p, lv, mute));
        }
        changed
    }
}

// ---- commands: what to write for a volume or mute change ----

/// Where a volume change is written, and the full per-channel levels to write.
pub enum VolumeWrite {
    /// To the device route that carries the node's audible level.
    Route { device_id: u32, route_index: i32, profile_device: i32, channel_volumes: Vec<Level> },
    /// To the node's own `Props` (a node without a known route, such as a stream).
    Node { node_id: u32, channel_volumes: Vec<Level> },
    /// Nowhere: no node has the key.
    Unknown,
}

/// Where a mute change is written.
pub enum MuteWrite {
    Route { device_id: u32, route_index: i32, profile_device: i32 },
    Node { node_id: u32 },
    Unknown,
}

/// The levels of the first node keyed `key`.
pub open spec fn levels_of_node(m: ModelView, key: Seq<char>) -> Seq<Level> {
    m.nodes[node_index_for(m, key).unwrap()].1.channel_volumes
}

/// The model after the first node keyed `key` is given new levels and mute.
pub open spec fn node_set(m: ModelView, key: Seq<char>, levels: Seq<Level>, muted: bool) -> ModelView {
    let i = node_index_for(m, key).unwrap();
    ModelView { nodes: m.nodes.update(i, (m.nodes[i].0, NodeRecView { channel_volumes: levels, muted, ..m.nodes[i].1 })), ..m }
}

impl Model {
    /// Plans a volume change for the node keyed `key`. A node whose device route is
    /// known is written through the route (the level one hears on hardware): the
    /// target is laid over the route's current levels, and the cached route takes the
    /// result, so a later change to other channels of the same route keeps these.
    /// Otherwise the target is laid over the node's own levels, sized to its channels.
    pub fn plan_volume(&mut self, key: &str, target: &VolumeTarget) -> (w: VolumeWrite)
        requires
            well_formed(old(self)@),
            target_in_range(target@),
        ensures
            well_formed(final(self)@),
            match route_for(old(self)@, key@) {
                Some(rv) => {
                    let levels = channel_array(target@, rv.channel_volumes.len(), rv.channel_volumes);
                    &&& w matches VolumeWrite::Route { device_id, route_index, profile_device, channel_volumes } && device_id
                        == rv.device_id && route_index == rv.index && profile_device == rv.profile_device
                        && channel_volumes@ == levels
                    &&& final(self)@ == (ModelView {
                        routes: route_stored(old(self)@.routes, RouteView { channel_volumes: levels, ..rv }),
                        ..old(self)@
                    })
                },
                None => {
                    &&& final(self)@ == old(self)@
                    &&& match node_for(old(self)@, key@) {
                        Some((id, c)) => w matches VolumeWrite::Node { node_id, channel_volumes } && node_id == id
                            && channel_volumes@ == channel_array(target@, c, levels_of_node(old(self)@, key@)),
                        None => w is Unknown,
                    }
                },
            },
    {
        match self.route_for_node(key) {
            Some((d, p, rec)) => {
                let levels = build_channel_volumes(target, rec.channel_volumes.len(), &rec.channel_volumes);
                let cached = levels.clone();
                proof {
                    assert(cached@ =~= levels@);
                }
                self.store_route(d, p, rec.index, cached);
                VolumeWrite::Route { device_id: d, route_index: rec.index, profile_device: p, channel_volumes: levels }
            },
            None => match self.find_node_index(key) {
                Some(i) => {
                    let id = self.nodes[i].0;
                    let c = self.node_channels(i);
                    let current = self.node_levels(i);
                    proof {
                        lemma_entry_views(self.nodes@);
                    }
                    let levels = build_channel_volumes(target, c, &current);
                    VolumeWrite::Node { node_id: id, channel_volumes: levels }
                },
                None => VolumeWrite::Unknown,
            },
        }
    }

    /// Plans a mute change for the node keyed `key`: through its device route when that
    /// is known, else through the node itself.
    pub fn plan_mute(&self, key: &str) -> (w: MuteWrite)
        ensures
            match route_for(self@, key@) {
                Some(rv) => w matches MuteWrite::Route { device_id, route_index, profile_device } && device_id == rv.device_id
                    && route_index == rv.index && profile_device == rv.profile_device,
                None => match node_for(self@, key@) {
                    Some((id, c)) => w matches MuteWrite::Node { node_id } && node_id == id,
                    None => w is Unknown,
                },
            },
    {
        match self.route_for_node(key) {
            Some((d, p, rec)) => MuteWrite::Route { device_id: d, route_index: rec.index, profile_device: p },
            None => match self.find_node(key) {
                Some((id, _)) => MuteWrite::Node { node_id: id },
                None => MuteWrite::Unknown,
            },
        }
    }

    /// Reflects a volume change that was just sent into the model at once, without
    /// waiting for PipeWire to confirm it: the first node keyed `key` takes the levels
    /// that are being written to it.
    pub fn note_volume_sent(&mut self, key: &str, target: &VolumeTarget)
        requires
            well_formed(old(self)@),
            target_in_range(target@),
        ensures
            well_formed(final(self)@),
            match node_for(old(self)@, key@) {
                Some((id, c)) => final(self)@ == node_set(
                    old(self)@,
                    key@,
                    channel_array(target@, c, levels_of_node(old(self)@, key@)),
                    old(self)@.nodes[node_index_for(old(self)@, key@).unwrap()].1.muted,
                ),
                None => final(self)@ == old(self)@,
            },
    {
        proof {
            lemma_entry_views(self.nodes@);
        }
        match self.find_node_index(key) {
            Some(i) => {
                let c = self.node_channels(i);
                let current = self.node_levels(i);
                let levels = build_channel_volumes(target, c, &current);
                let muted = self.nodes[i].1.muted;
                let rec = self.node_with(i, levels, muted);
                self.replace_node(i, rec);
            },
            None => {},
        }
    }

    /// Reflects a mute change that was just sent into the model at once: the first node
    /// keyed `key` takes the new mute state.
    pub fn note_mute_sent(&mut self, key: &str, muted: bool)
        requires
            well_formed(old(self)@),
        ensures
            well_formed(final(self)@),
            match node_index_for(old(self)@, key@) {
                Some(i) => final(self)@ == node_set(old(self)@, key@, levels_of_node(old(self)@, key@), muted),
                None => final(self)@ == old(self)@,
            },
    {
        proof {
            lemma_entry_views(self.nodes@);
        }
        match self.find_node_index(key) {
            Some(i) => {
                let levels = self.node_levels(i);
                let rec = self.node_with(i, levels, muted);
                self.replace_node(i, rec);
            },
            None => {},
        }
    }
}

} // verus!
