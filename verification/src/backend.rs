//! What a backend does to the graph when it applies an action, for the in-memory
//! (mock) backend, and how a volume target becomes a full per-channel array for the
//! PipeWire backend. Locking, broadcasting and PipeWire itself live in the application.

use vstd::prelude::*;
use vstd::string::*;

use crate::identity::{node_key, port_key, node_key_of, port_key_of};
use crate::model::{find_node, has_link, Action, ActionModel, TargetModel, VolumeTarget};
use crate::search::first_match;
use crate::text::str_eq;
use crate::wire::{
    keyed, Direction, GraphModel, GraphState, Level, LinkView, NodeModel, NodeView, PortModel, PortView,
    LEVEL_FULL,
};

verus! {

/// Why a backend refused an action.
#[derive(Debug, PartialEq, Eq)]
pub enum BackendError {
    Rejected(String),
}

/// A level clamped to `0..=LEVEL_FULL`.
pub open spec fn clamp_level(v: Level) -> Level {
    if v < 0 {
        0
    } else if v > LEVEL_FULL {
        LEVEL_FULL
    } else {
        v
    }
}

/// Clamps a level to `0..=LEVEL_FULL`.
pub fn clamp(v: Level) -> (r: Level)
    ensures
        r == clamp_level(v),
{
    if v < 0 {
        0
    } else if v > LEVEL_FULL {
        LEVEL_FULL
    } else {
        v
    }
}

/// The loudest level of `s`, or `None` when `s` is empty.
pub open spec fn loudest(s: Seq<Level>) -> Option<Level>
    decreases s.len(),
{
    if s.len() == 0 {
        None
    } else {
        match loudest(s.drop_last()) {
            None => Some(s.last()),
            Some(m) => Some(if s.last() > m { s.last() } else { m }),
        }
    }
}

/// The loudest level of `s`, or `None` when `s` is empty.
pub fn loudest_level(s: &Vec<Level>) -> (r: Option<Level>)
    ensures
        r == loudest(s@),
{
    let mut best: Option<Level> = None;
    let mut i: usize = 0;
    while i < s.len()
        invariant
            i <= s.len(),
            best == loudest(s@.take(i as int)),
        decreases s.len() - i,
    {
        proof {
            assert(s@.take(i + 1).drop_last() =~= s@.take(i as int));
        }
        let x = s[i];
        best = match best {
            None => Some(x),
            Some(m) => Some(if x > m { x } else { m }),
        };
        i = i + 1;
    }
    proof {
        assert(s@.take(i as int) =~= s@);
    }
    best
}

/// `s` with channel `idx` set to `v`, first grown with zeros to cover `idx`.
pub open spec fn overlay_channel(s: Seq<Level>, idx: usize, v: Level) -> Seq<Level> {
    let grown = if idx >= s.len() {
        s + Seq::new((idx + 1 - s.len()) as nat, |k: int| 0 as Level)
    } else {
        s
    };
    grown.update(idx as int, clamp_level(v))
}

/// `s` with each listed channel overlaid in turn.
pub open spec fn overlay_channels(s: Seq<Level>, ps: Seq<(usize, Level)>) -> Seq<Level>
    decreases ps.len(),
{
    if ps.len() == 0 {
        s
    } else {
        overlay_channel(overlay_channels(s, ps.drop_last()), ps.last().0, ps.last().1)
    }
}

/// The per-channel levels of a node after a volume target is applied: uniform fills
/// every channel (at least one) with the clamped level; per-channel overlays the
/// listed channels, growing the array with zeros as needed.
pub open spec fn channels_after(s: Seq<Level>, t: TargetModel) -> Seq<Level> {
    match t {
        TargetModel::Uniform(v) => Seq::new(
            if s.len() > 1 { s.len() } else { 1 },
            |k: int| clamp_level(v),
        ),
        TargetModel::Channels(ps) => overlay_channels(s, ps),
    }
}

/// A node after a volume target is applied: its channels per [`channels_after`] and its
/// representative volume the loudest channel.
pub open spec fn volume_applied(n: NodeModel, t: TargetModel) -> NodeModel {
    NodeModel {
        channel_volumes: channels_after(n.channel_volumes, t),
        volume: loudest(channels_after(n.channel_volumes, t)),
        ..n
    }
}

/// A target can be applied without index overflow.
pub open spec fn target_in_range(t: TargetModel) -> bool {
    match t {
        TargetModel::Uniform(_) => true,
        TargetModel::Channels(ps) => channels_in_range(ps),
    }
}

/// Every listed channel index is below `usize::MAX`.
pub open spec fn channels_in_range(ps: Seq<(usize, Level)>) -> bool {
    forall|k: int| 0 <= k < ps.len() ==> (#[trigger] ps[k]).0 < usize::MAX
}

/// Two nodes agree on everything but their levels.
pub open spec fn same_but_levels(a: NodeView, b: NodeView) -> bool {
    &&& a.key == b.key
    &&& a.name == b.name
    &&& a.media_class == b.media_class
    &&& a.ports == b.ports
    &&& a.muted == b.muted
    &&& a.present == b.present
}

/// Applies a volume target to a node's channel levels, then refreshes its
/// representative volume (the loudest channel).
pub fn apply_volume_target(n: &mut NodeView, target: &VolumeTarget)
    requires
        target_in_range(target@),
    ensures
        final(n)@ == volume_applied(old(n)@, target@),
{
    match target {
        VolumeTarget::Uniform(v) => {
            let v = clamp(*v);
            let len = if n.channel_volumes.len() > 1 { n.channel_volumes.len() } else { 1 };
            let mut cv: Vec<Level> = Vec::new();
            let mut i: usize = 0;
            while i < len
                invariant
                    i <= len,
                    cv@ == Seq::new(i as nat, |k: int| v),
                decreases len - i,
            {
                cv.push(v);
                proof {
                    assert(cv@ =~= Seq::new((i + 1) as nat, |k: int| v));
                }
                i = i + 1;
            }
            proof {
                assert(cv@ =~= channels_after(old(n)@.channel_volumes, target@));
            }
            n.channel_volumes = cv;
        },
        VolumeTarget::Channels(pairs) => {
            let ghost ps = pairs@;
            let ghost start = n.channel_volumes@;
            let mut k: usize = 0;
            while k < pairs.len()
                invariant
                    ps == pairs@,
                    same_but_levels(*n, *old(n)),
                    target_in_range(TargetModel::Channels(ps)),
                    k <= pairs.len(),
                    n.channel_volumes@ == overlay_channels(start, ps.take(k as int)),
                decreases pairs.len() - k,
            {
                let (idx, v) = pairs[k];
                proof {
                    assert(channels_in_range(ps));
                    assert(ps[k as int].0 < usize::MAX);
                    assert(ps.take(k + 1).drop_last() =~= ps.take(k as int));
                    assert(ps.take(k + 1).last() == (idx, v));
                }
                let ghost before = n.channel_volumes@;
                proof {
                    assert(before =~= before + Seq::new(0, |j: int| 0 as Level));
                }
                while n.channel_volumes.len() <= idx
                    invariant
                        same_but_levels(*n, *old(n)),
                        idx < usize::MAX,
                        n.channel_volumes@.len() >= before.len(),
                        n.channel_volumes@.len() <= idx + 1 || n.channel_volumes@.len() == before.len(),
                        n.channel_volumes@ == before + Seq::new(
                            (n.channel_volumes@.len() - before.len()) as nat,
                            |j: int| 0 as Level,
                        ),
                    decreases idx + 1 - n.channel_volumes.len(),
                {
                    let ghost cur = n.channel_volumes@;
                    n.channel_volumes.push(0);
                    proof {
                        assert(n.channel_volumes@ =~= before + Seq::new(
                            (n.channel_volumes@.len() - before.len()) as nat,
                            |j: int| 0 as Level,
                        ));
                    }
                }
                proof {
                    if idx >= before.len() {
                        assert(n.channel_volumes@ =~= before + Seq::new((idx + 1 - before.len()) as nat, |j: int| 0 as Level));
                    } else {
                        assert(n.channel_volumes@ =~= before);
                    }
                }
                let c = clamp(v);
                n.channel_volumes.set(idx, c);
                proof {
                    assert(n.channel_volumes@ =~= overlay_channel(before, idx, v));
                }
                k = k + 1;
            }
            proof {
                assert(ps.take(k as int) =~= ps);
                assert(n.channel_volumes@ == channels_after(old(n)@.channel_volumes, target@));
            }
        },
    }
    n.volume = loudest_level(&n.channel_volumes);
    proof {
        assert(n@.channel_volumes == channels_after(old(n)@.channel_volumes, target@));
        assert(n@.volume == loudest(channels_after(old(n)@.channel_volumes, target@)));
    }
}


/// An action can be applied without index overflow.
pub open spec fn action_in_range(a: ActionModel) -> bool {
    match a {
        ActionModel::SetVolume(_, t) => target_in_range(t),
        _ => true,
    }
}

/// The live links without every copy of `l`.
pub open spec fn without_link(links: Seq<(Seq<char>, Seq<char>)>, l: (Seq<char>, Seq<char>)) -> Seq<
    (Seq<char>, Seq<char>),
> {
    links.filter(other_than(l))
}

/// A link other than `l`.
pub open spec fn other_than(l: (Seq<char>, Seq<char>)) -> spec_fn((Seq<char>, Seq<char>)) -> bool {
    |x: (Seq<char>, Seq<char>)| x != l
}

/// What the in-memory backend makes of the graph for an action: `None` when the action
/// names a node the graph does not have (the action is then refused).
pub open spec fn graph_after(g: GraphModel, a: ActionModel) -> Option<GraphModel> {
    match a {
        ActionModel::CreateLink(o, i) => Some(
            GraphModel {
                links: if g.links.contains((o, i)) {
                    g.links
                } else {
                    g.links.push((o, i))
                },
                ..g
            },
        ),
        ActionModel::DestroyLink(o, i) => Some(GraphModel { links: without_link(g.links, (o, i)), ..g }),
        ActionModel::SetVolume(k, t) => match first_match(g.nodes, keyed(k)) {
            Some(i) => Some(GraphModel { nodes: g.nodes.update(i, volume_applied(g.nodes[i], t)), ..g }),
            None => None,
        },
        ActionModel::SetMute(k, m) => match first_match(g.nodes, keyed(k)) {
            Some(i) => Some(GraphModel { nodes: g.nodes.update(i, NodeModel { muted: m, ..g.nodes[i] }), ..g }),
            None => None,
        },
    }
}

/// The node key an action names, for the actions that name one.
pub open spec fn action_node(a: ActionModel) -> Seq<char> {
    match a {
        ActionModel::SetVolume(k, _) => k,
        ActionModel::SetMute(k, _) => k,
        _ => Seq::empty(),
    }
}

/// The refusal message for an action on an unknown node.
pub fn no_node_message(key: &str) -> (m: String)
    ensures
        m@ == "no node "@ + key@,
{
    String::from_str("no node ").concat(key)
}

/// Applies an action to the in-memory graph. A link that already exists is not added
/// twice; destroying a link removes every copy; a volume or mute change on an unknown
/// node is refused and leaves the graph unchanged.
pub fn apply_action(g: &mut GraphState, action: Action) -> (r: Result<(), BackendError>)
    requires
        action_in_range(action@),
    ensures
        match graph_after(old(g)@, action@) {
            Some(next) => r is Ok && final(g)@ == next,
            None => {
                &&& final(g)@ == old(g)@
                &&& r matches Err(BackendError::Rejected(m)) && m@ == "no node "@ + action_node(action@)
            },
        },
{
    match action {
        Action::CreateLink { output_port, input_port } => {
            let ghost l = (output_port@, input_port@);
            if !has_link(&g.links, output_port.as_str(), input_port.as_str()) {
                let ghost prev = g@.links;
                g.links.push(LinkView { output_port, input_port });
                proof {
                    assert(g@.links =~= prev.push(l));
                }
            }
            Ok(())
        },
        Action::DestroyLink { output_port, input_port } => {
            let ghost l = (output_port@, input_port@);
            let ghost src = g@.links;
            let mut kept: Vec<LinkView> = Vec::new();
            let mut i: usize = 0;
            while i < g.links.len()
                invariant
                    src == g@.links,
                    i <= g.links.len(),
                    l == (output_port@, input_port@),
                    kept@.map_values(|x: LinkView| x@) == without_link(src.take(i as int), l),
                decreases g.links.len() - i,
            {
                proof {
                    assert(src.take(i + 1) =~= src.take(i as int).push(src[i as int]));
                    src.take(i as int).lemma_filter_push(src[i as int], other_than(l));
                }
                let same = str_eq(g.links[i].output_port.as_str(), output_port.as_str()) && str_eq(
                    g.links[i].input_port.as_str(),
                    input_port.as_str(),
                );
                proof {
                    assert(src[i as int] == g.links@[i as int]@);
                    assert(same == (src[i as int] == l));
                }
                if !same {
                    let x = g.links[i].clone();
                    let ghost prev = kept@.map_values(|x: LinkView| x@);
                    kept.push(x);
                    proof {
                        assert(kept@.map_values(|x: LinkView| x@) =~= prev.push(x@));
                    }
                }
                i = i + 1;
            }
            proof {
                assert(src.take(i as int) =~= src);
            }
            g.links = kept;
            Ok(())
        },
        Action::SetVolume { node_key, target } => {
            match find_node(&g.nodes, node_key.as_str()) {
                Some(i) => {
                    let ghost prev = g@.nodes;
                    let mut n = g.nodes.remove(i);
                    apply_volume_target(&mut n, &target);
                    g.nodes.insert(i, n);
                    proof {
                        assert(g@.nodes =~= prev.update(i as int, volume_applied(prev[i as int], target@)));
                    }
                    Ok(())
                },
                None => Err(BackendError::Rejected(no_node_message(node_key.as_str()))),
            }
        },
        Action::SetMute { node_key, muted } => {
            match find_node(&g.nodes, node_key.as_str()) {
                Some(i) => {
                    let ghost prev = g@.nodes;
                    let mut n = g.nodes.remove(i);
                    n.muted = muted;
                    g.nodes.insert(i, n);
                    proof {
                        assert(g@.nodes =~= prev.update(i as int, NodeModel { muted, ..prev[i as int] }));
                    }
                    Ok(())
                },
                None => Err(BackendError::Rejected(no_node_message(node_key.as_str()))),
            }
        },
    }
}


/// A two-channel sink amp as the mock graph seeds it.
pub open spec fn sink_model(key: Seq<char>, name: Seq<char>) -> NodeModel {
    NodeModel {
        key,
        name,
        media_class: "Audio/Sink"@,
        ports: seq![
            PortModel {
                key: port_key_of(key, "playback_FL"@, Direction::In),
                name: "playback_FL"@,
                direction: Direction::In,
                channel: Some(0),
            },
            PortModel {
                key: port_key_of(key, "playback_FR"@, Direction::In),
                name: "playback_FR"@,
                direction: Direction::In,
                channel: Some(1),
            },
        ],
        volume: Some(800_000),
        channel_volumes: seq![800_000, 800_000],
        muted: false,
        present: true,
    }
}

/// The graph the mock backend starts with: one USB capture source and two sink amps
/// to route to, not connected to PipeWire.
pub open spec fn seed_model() -> GraphModel {
    let src = node_key_of("USB Capture"@, "Audio/Source"@);
    GraphModel {
        connected: false,
        nodes: seq![
            NodeModel {
                key: src,
                name: "USB Capture"@,
                media_class: "Audio/Source"@,
                ports: seq![
                    PortModel {
                        key: port_key_of(src, "capture_FL"@, Direction::Out),
                        name: "capture_FL"@,
                        direction: Direction::Out,
                        channel: Some(0),
                    },
                    PortModel {
                        key: port_key_of(src, "capture_FR"@, Direction::Out),
                        name: "capture_FR"@,
                        direction: Direction::Out,
                        channel: Some(1),
                    },
                ],
                volume: None,
                channel_volumes: Seq::empty(),
                muted: false,
                present: true,
            },
            sink_model(node_key_of("Kitchen Amp"@, "Audio/Sink"@), "Kitchen Amp"@),
            sink_model(node_key_of("Patio Amp"@, "Audio/Sink"@), "Patio Amp"@),
        ],
        links: Seq::empty(),
        zones: Seq::empty(),
    }
}

/// One port of a seeded node.
fn seed_port(node: &str, name: &str, direction: Direction, channel: usize) -> (p: PortView)
    ensures
        p@ == (PortModel {
            key: port_key_of(node@, name@, direction),
            name: name@,
            direction,
            channel: Some(channel),
        }),
{
    PortView { key: port_key(node, name, direction), name: String::from_str(name), direction, channel: Some(channel) }
}

/// A two-channel sink amp at 0.8 on both channels.
pub fn sink(key: &str, name: &str) -> (n: NodeView)
    ensures
        n@ == sink_model(key@, name@),
{
    let mut ports: Vec<PortView> = Vec::new();
    ports.push(seed_port(key, "playback_FL", Direction::In, 0));
    ports.push(seed_port(key, "playback_FR", Direction::In, 1));
    let mut cv: Vec<Level> = Vec::new();
    cv.push(800_000);
    cv.push(800_000);
    let n = NodeView {
        key: String::from_str(key),
        name: String::from_str(name),
        media_class: String::from_str("Audio/Sink"),
        ports,
        volume: Some(800_000),
        channel_volumes: cv,
        muted: false,
        present: true,
    };
    proof {
        assert(n@.ports =~= sink_model(key@, name@).ports);
        assert(n@.channel_volumes =~= sink_model(key@, name@).channel_volumes);
    }
    n
}

/// The graph the mock backend starts with.
pub fn seed_graph() -> (g: GraphState)
    ensures
        g@ == seed_model(),
{
    let src = node_key("USB Capture", "Audio/Source");
    let kitchen = node_key("Kitchen Amp", "Audio/Sink");
    let patio = node_key("Patio Amp", "Audio/Sink");
    let mut ports: Vec<PortView> = Vec::new();
    ports.push(seed_port(src.as_str(), "capture_FL", Direction::Out, 0));
    ports.push(seed_port(src.as_str(), "capture_FR", Direction::Out, 1));
    let source = NodeView {
        key: src,
        name: String::from_str("USB Capture"),
        media_class: String::from_str("Audio/Source"),
        ports,
        volume: None,
        channel_volumes: Vec::new(),
        muted: false,
        present: true,
    };
    let mut nodes: Vec<NodeView> = Vec::new();
    nodes.push(source);
    nodes.push(sink(kitchen.as_str(), "Kitchen Amp"));
    nodes.push(sink(patio.as_str(), "Patio Amp"));
    let g = GraphState { connected: false, nodes, links: Vec::new(), zones: Vec::new() };
    proof {
        assert(g@.nodes[0].ports =~= seed_model().nodes[0].ports);
        assert(g@.nodes[0].channel_volumes =~= seed_model().nodes[0].channel_volumes);
        assert(g@.nodes =~= seed_model().nodes);
        assert(g@.links =~= seed_model().links);
        assert(g@.zones =~= seed_model().zones);
    }
    g
}

/// The full per-channel array to write for a volume target on a node with
/// `channel_count` channels whose current levels are `current`: it covers every
/// channel, keeps `current` (or full scale where unknown) on unlisted channels, and
/// clamps the levels it sets.
pub open spec fn channel_array(t: TargetModel, channel_count: nat, current: Seq<Level>) -> Seq<Level> {
    match t {
        TargetModel::Uniform(v) => {
            let n = if channel_count > current.len() { channel_count } else { current.len() };
            Seq::new(if n > 1 { n } else { 1 }, |k: int| clamp_level(v))
        },
        TargetModel::Channels(ps) => {
            let m = if channel_count > current.len() { channel_count } else { current.len() };
            let n = if m > span(ps) { m } else { span(ps) };
            set_listed(Seq::new(n, |k: int| if k < current.len() { current[k] } else { LEVEL_FULL }), ps)
        },
    }
}

/// One past the highest listed channel (0 when none is listed).
pub open spec fn span(ps: Seq<(usize, Level)>) -> nat
    decreases ps.len(),
{
    if ps.len() == 0 {
        0
    } else {
        let rest = span(ps.drop_last());
        if ps.last().0 + 1 > rest { (ps.last().0 + 1) as nat } else { rest }
    }
}

/// `s` with each listed channel that it covers set to the clamped level, in order.
pub open spec fn set_listed(s: Seq<Level>, ps: Seq<(usize, Level)>) -> Seq<Level>
    decreases ps.len(),
{
    if ps.len() == 0 {
        s
    } else {
        let prev = set_listed(s, ps.drop_last());
        if (ps.last().0 as int) < prev.len() {
            prev.update(ps.last().0 as int, clamp_level(ps.last().1))
        } else {
            prev
        }
    }
}

proof fn lemma_set_listed_len(s: Seq<Level>, ps: Seq<(usize, Level)>)
    ensures
        set_listed(s, ps).len() == s.len(),
    decreases ps.len(),
{
    if ps.len() > 0 {
        lemma_set_listed_len(s, ps.drop_last());
    }
}

/// Builds the full per-channel array to write for a volume target.
pub fn build_channel_volumes(target: &VolumeTarget, channel_count: usize, current: &Vec<Level>) -> (r: Vec<Level>)
    requires
        target_in_range(target@),
    ensures
        r@ == channel_array(target@, channel_count as nat, current@),
{
    match target {
        VolumeTarget::Uniform(v) => {
            let v = clamp(*v);
            let m = if channel_count > current.len() { channel_count } else { current.len() };
            let n = if m > 1 { m } else { 1 };
            let mut out: Vec<Level> = Vec::new();
            let mut i: usize = 0;
            while i < n
                invariant
                    i <= n,
                    out@ == Seq::new(i as nat, |k: int| v),
                decreases n - i,
            {
                out.push(v);
                proof {
                    assert(out@ =~= Seq::new((i + 1) as nat, |k: int| v));
                }
                i = i + 1;
            }
            proof {
                assert(out@ =~= channel_array(target@, channel_count as nat, current@));
            }
            out
        },
        VolumeTarget::Channels(pairs) => {
            let ghost ps = pairs@;
            let mut top: usize = 0;
            let mut k: usize = 0;
            while k < pairs.len()
                invariant
                    ps == pairs@,
                    channels_in_range(ps),
                    k <= pairs.len(),
                    top as nat == span(ps.take(k as int)),
                decreases pairs.len() - k,
            {
                proof {
                    assert(ps.take(k + 1).drop_last() =~= ps.take(k as int));
                    assert(ps[k as int].0 < usize::MAX);
                }
                let idx = pairs[k].0;
                if idx + 1 > top {
                    top = idx + 1;
                }
                k = k + 1;
            }
            proof {
                assert(ps.take(k as int) =~= ps);
            }
            let m = if channel_count > current.len() { channel_count } else { current.len() };
            let n = if m > top { m } else { top };
            let mut out: Vec<Level> = Vec::new();
            let mut i: usize = 0;
            while i < n
                invariant
                    i <= n,
                    out@ == Seq::new(i as nat, |j: int| if j < current@.len() { current@[j] } else { LEVEL_FULL }),
                decreases n - i,
            {
                let x = if i < current.len() { current[i] } else { LEVEL_FULL };
                out.push(x);
                proof {
                    assert(out@ =~= Seq::new((i + 1) as nat, |j: int| if j < current@.len() { current@[j] } else { LEVEL_FULL }));
                }
                i = i + 1;
            }
            let ghost base = out@;
            let mut k: usize = 0;
            while k < pairs.len()
                invariant
                    ps == pairs@,
                    k <= pairs.len(),
                    out@ == set_listed(base, ps.take(k as int)),
                decreases pairs.len() - k,
            {
                proof {
                    assert(ps.take(k + 1).drop_last() =~= ps.take(k as int));
                    lemma_set_listed_len(base, ps.take(k as int));
                }
                let (idx, v) = pairs[k];
                if idx < out.len() {
                    let c = clamp(v);
                    out.set(idx, c);
                }
                k = k + 1;
            }
            proof {
                assert(ps.take(k as int) =~= ps);
            }
            out
        },
    }
}

} // verus!
