//! Snapshot types: everything a client needs to render, in one message.
//!
//! Volumes are carried as [`Level`]s: signed integers in millionths of full scale,
//! so `1_000_000` is 1.0 (unity gain) and `500_000` is 0.5.

use vstd::prelude::*;

verus! {

/// A volume level in millionths of full scale (`LEVEL_FULL` = 1.0).
pub type Level = i64;

/// Full scale: the level that stands for a volume of 1.0.
pub const LEVEL_FULL: Level = 1_000_000;

/// Port direction.
#[derive(Clone, Copy, Debug, PartialEq, Eq, Structural)]
pub enum Direction {
    In,
    Out,
}

/// One port of a node.
#[derive(Debug, PartialEq)]
pub struct PortView {
    /// Stable key: `(node_key, port.name, direction)`.
    pub key: String,
    pub name: String,
    pub direction: Direction,
    /// Channel index into the owning node's `channel_volumes`, when reported.
    pub channel: Option<usize>,
}

/// One node (device or stream) of the graph.
#[derive(Debug, PartialEq)]
pub struct NodeView {
    /// Stable key: `media.class|node.name`.
    pub key: String,
    pub name: String,
    pub media_class: String,
    pub ports: Vec<PortView>,
    /// Representative level (the loudest channel); `None` without volume control.
    pub volume: Option<Level>,
    /// Per-channel levels in the node's channel order.
    pub channel_volumes: Vec<Level>,
    pub muted: bool,
    /// False when the device is not currently present.
    pub present: bool,
}

/// A live link between an output port and an input port (both by stable key).
#[derive(Debug, PartialEq, Eq)]
pub struct LinkView {
    pub output_port: String,
    pub input_port: String,
}

/// A zone as clients see it: its recipe plus its live status.
#[derive(Debug, PartialEq)]
pub struct ZoneView {
    pub name: String,
    /// The zone's defined links (its routing recipe).
    pub links: Vec<LinkView>,
    pub active: bool,
    /// True when the zone is active but some of its ports are missing.
    pub degraded: bool,
    /// Stable keys of ports the zone wants but can't currently reach.
    pub missing: Vec<String>,
    /// The node whose volume the zone tile controls: the first volume-spec node, else
    /// the node behind the zone's first link.
    pub volume_node: Option<String>,
    /// Live representative level of `volume_node`, if that node is present.
    pub volume: Option<Level>,
    /// Live mute state of `volume_node` (false when there is none).
    pub muted: bool,
}

/// The full graph snapshot.
#[derive(Debug, PartialEq)]
pub struct GraphState {
    /// True when talking to a live PipeWire (false = degraded/mock).
    pub connected: bool,
    pub nodes: Vec<NodeView>,
    pub links: Vec<LinkView>,
    pub zones: Vec<ZoneView>,
}

impl Default for GraphState {
    fn default() -> (g: GraphState)
        ensures
            !g.connected,
            g.nodes@.len() == 0,
            g.links@.len() == 0,
            g.zones@.len() == 0,
    {
        GraphState { connected: false, nodes: Vec::new(), links: Vec::new(), zones: Vec::new() }
    }
}

impl Clone for LinkView {
    fn clone(&self) -> (r: LinkView)
        ensures
            r == *self,
    {
        LinkView { output_port: self.output_port.clone(), input_port: self.input_port.clone() }
    }
}


/// The mathematical value of a [`PortView`].
pub struct PortModel {
    pub key: Seq<char>,
    pub name: Seq<char>,
    pub direction: Direction,
    pub channel: Option<usize>,
}

impl View for PortView {
    type V = PortModel;

    open spec fn view(&self) -> PortModel {
        PortModel { key: self.key@, name: self.name@, direction: self.direction, channel: self.channel }
    }
}

/// The mathematical value of a [`NodeView`].
pub struct NodeModel {
    pub key: Seq<char>,
    pub name: Seq<char>,
    pub media_class: Seq<char>,
    pub ports: Seq<PortModel>,
    pub volume: Option<Level>,
    pub channel_volumes: Seq<Level>,
    pub muted: bool,
    pub present: bool,
}

impl View for NodeView {
    type V = NodeModel;

    open spec fn view(&self) -> NodeModel {
        NodeModel {
            key: self.key@,
            name: self.name@,
            media_class: self.media_class@,
            ports: self.ports@.map_values(|p: PortView| p@),
            volume: self.volume,
            channel_volumes: self.channel_volumes@,
            muted: self.muted,
            present: self.present,
        }
    }
}

impl View for LinkView {
    type V = (Seq<char>, Seq<char>);

    open spec fn view(&self) -> (Seq<char>, Seq<char>) {
        (self.output_port@, self.input_port@)
    }
}

/// The mathematical value of a [`ZoneView`].
pub struct ZoneViewModel {
    pub name: Seq<char>,
    pub links: Seq<(Seq<char>, Seq<char>)>,
    pub active: bool,
    pub degraded: bool,
    pub missing: Seq<Seq<char>>,
    pub volume_node: Option<Seq<char>>,
    pub volume: Option<Level>,
    pub muted: bool,
}

/// The character view of an optional string.
pub open spec fn opt_text(s: Option<String>) -> Option<Seq<char>> {
    match s {
        Some(t) => Some(t@),
        None => None,
    }
}

impl View for ZoneView {
    type V = ZoneViewModel;

    open spec fn view(&self) -> ZoneViewModel {
        ZoneViewModel {
            name: self.name@,
            links: self.links@.map_values(|l: LinkView| l@),
            active: self.active,
            degraded: self.degraded,
            missing: self.missing@.map_values(|m: String| m@),
            volume_node: opt_text(self.volume_node),
            volume: self.volume,
            muted: self.muted,
        }
    }
}

/// The mathematical value of a [`GraphState`].
pub struct GraphModel {
    pub connected: bool,
    pub nodes: Seq<NodeModel>,
    pub links: Seq<(Seq<char>, Seq<char>)>,
    pub zones: Seq<ZoneViewModel>,
}

impl View for GraphState {
    type V = GraphModel;

    open spec fn view(&self) -> GraphModel {
        GraphModel {
            connected: self.connected,
            nodes: self.nodes@.map_values(|n: NodeView| n@),
            links: self.links@.map_values(|l: LinkView| l@),
            zones: self.zones@.map_values(|z: ZoneView| z@),
        }
    }
}

/// A node has the given key.
pub open spec fn keyed(key: Seq<char>) -> spec_fn(NodeModel) -> bool {
    |n: NodeModel| n.key == key
}

/// Some present node has a port with the given key.
pub open spec fn port_present(g: GraphModel, port: Seq<char>) -> bool {
    exists|i: int, j: int|
        0 <= i < g.nodes.len() && g.nodes[i].present && 0 <= j < g.nodes[i].ports.len()
            && #[trigger] g.nodes[i].ports[j].key == port
}


impl Clone for PortView {
    fn clone(&self) -> (r: PortView)
        ensures
            r == *self,
    {
        PortView { key: self.key.clone(), name: self.name.clone(), direction: self.direction, channel: self.channel }
    }
}

impl Clone for NodeView {
    fn clone(&self) -> (r: NodeView)
        ensures
            r@ == self@,
    {
        let ports = self.ports.clone();
        let channel_volumes = self.channel_volumes.clone();
        proof {
            assert(ports@ =~= self.ports@);
            assert(channel_volumes@ =~= self.channel_volumes@);
        }
        NodeView {
            key: self.key.clone(),
            name: self.name.clone(),
            media_class: self.media_class.clone(),
            ports,
            volume: self.volume,
            channel_volumes,
            muted: self.muted,
            present: self.present,
        }
    }
}

impl Clone for ZoneView {
    fn clone(&self) -> (r: ZoneView)
        ensures
            r@ == self@,
    {
        let links = self.links.clone();
        let missing = self.missing.clone();
        proof {
            assert(links@ =~= self.links@);
            assert(missing@ =~= self.missing@);
        }
        ZoneView {
            name: self.name.clone(),
            links,
            active: self.active,
            degraded: self.degraded,
            missing,
            volume_node: self.volume_node.clone(),
            volume: self.volume,
            muted: self.muted,
        }
    }
}

impl Clone for GraphState {
    fn clone(&self) -> (r: GraphState)
        ensures
            r@ == self@,
    {
        let nodes = self.nodes.clone();
        let links = self.links.clone();
        let zones = self.zones.clone();
        proof {
            assert(nodes@.map_values(|n: NodeView| n@) =~= self.nodes@.map_values(|n: NodeView| n@));
            assert(links@ =~= self.links@);
            assert(zones@.map_values(|z: ZoneView| z@) =~= self.zones@.map_values(|z: ZoneView| z@));
        }
        GraphState { connected: self.connected, nodes, links, zones }
    }
}

} // verus!
