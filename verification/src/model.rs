//! Reconciliation — the controller core.
//!
//! The desired state (the merged links and volumes of the active zones) is compared
//! with the actual graph, and the minimal set of actions that drives actual toward
//! desired is emitted. Turning a zone on, a device returning and a volume drifting are
//! all handled by the same diff.

use vstd::prelude::*;
use vstd::string::*;

use crate::api::{is_self_loop, self_loop};
use crate::search::{first_match, lemma_first_match_found, lemma_first_match_none};
use crate::sorted::{
    insert_pair, insert_text, lemma_ordered_set, lemma_pair_order_strict, lemma_text_order_strict, ordered_set,
    pair_order, pair_views, sorted_by, text_order, text_views,
};
use crate::text::str_eq;
use crate::wire::{keyed, port_present, GraphModel, GraphState, Level, LinkView, NodeModel, NodeView};
use crate::zones::{zone_index, ChannelVolume, LinkSpec, VolumeSpec, VolumeSpecView, ZoneDefView, ZoneStore, ZoneStoreView};

verus! {

/// How a volume change addresses a node: one level on every channel, or levels on
/// listed channels.
#[derive(Debug, PartialEq, Eq)]
pub enum VolumeTarget {
    Uniform(Level),
    Channels(Vec<(usize, Level)>),
}

/// The mathematical value of a [`VolumeTarget`].
pub enum TargetModel {
    Uniform(Level),
    Channels(Seq<(usize, Level)>),
}

impl View for VolumeTarget {
    type V = TargetModel;

    open spec fn view(&self) -> TargetModel {
        match self {
            VolumeTarget::Uniform(v) => TargetModel::Uniform(*v),
            VolumeTarget::Channels(ps) => TargetModel::Channels(ps@),
        }
    }
}

/// A single mutation the backend should apply.
#[derive(Debug, PartialEq, Eq)]
pub enum Action {
    CreateLink { output_port: String, input_port: String },
    DestroyLink { output_port: String, input_port: String },
    SetVolume { node_key: String, target: VolumeTarget },
    SetMute { node_key: String, muted: bool },
}

/// The mathematical value of an [`Action`].
pub enum ActionModel {
    CreateLink(Seq<char>, Seq<char>),
    DestroyLink(Seq<char>, Seq<char>),
    SetVolume(Seq<char>, TargetModel),
    SetMute(Seq<char>, bool),
}

impl View for Action {
    type V = ActionModel;

    open spec fn view(&self) -> ActionModel {
        match self {
            Action::CreateLink { output_port, input_port } => ActionModel::CreateLink(output_port@, input_port@),
            Action::DestroyLink { output_port, input_port } => ActionModel::DestroyLink(output_port@, input_port@),
            Action::SetVolume { node_key, target } => ActionModel::SetVolume(node_key@, target@),
            Action::SetMute { node_key, muted } => ActionModel::SetMute(node_key@, *muted),
        }
    }
}

/// The merged target derived from all active zones.
#[derive(Debug)]
pub struct Desired {
    /// `(output_port, input_port)` pairs, strictly sorted (an ordered set).
    pub links: Vec<(String, String)>,
    /// Volume specs, at most one per node: the last active zone to name a node wins.
    pub volumes: Vec<VolumeSpec>,
}

/// The mathematical value of a [`Desired`].
pub struct DesiredModel {
    pub links: Seq<(Seq<char>, Seq<char>)>,
    pub volumes: Seq<VolumeSpecView>,
}

impl View for Desired {
    type V = DesiredModel;

    open spec fn view(&self) -> DesiredModel {
        DesiredModel {
            links: pair_views(self.links@),
            volumes: self.volumes@.map_values(|v: VolumeSpec| v@),
        }
    }
}

impl Default for Desired {
    fn default() -> (d: Desired)
        ensures
            d@.links.len() == 0,
            d@.volumes.len() == 0,
    {
        Desired { links: Vec::new(), volumes: Vec::new() }
    }
}

/// The links of a zone as key pairs.
pub open spec fn zone_link_pairs(z: ZoneDefView) -> Seq<(Seq<char>, Seq<char>)> {
    z.links.map_values(|l: LinkSpec| (l.output_port@, l.input_port@))
}

/// The zone the `a`-th active name refers to (the first zone of that name), if any.
pub open spec fn active_zone(store: ZoneStoreView, a: int) -> Option<ZoneDefView> {
    match zone_index(store.zones, store.active[a]) {
        Some(i) => Some(store.zones[i]),
        None => None,
    }
}

/// The links of the zones named by the first `n` active names, in order.
pub open spec fn wanted_links(store: ZoneStoreView, n: nat) -> Seq<(Seq<char>, Seq<char>)>
    decreases n,
{
    if n == 0 {
        Seq::empty()
    } else {
        wanted_links(store, (n - 1) as nat) + match active_zone(store, n - 1) {
            Some(z) => zone_link_pairs(z),
            None => Seq::empty(),
        }
    }
}

/// `acc` after taking in the specs `vs` one by one: each replaces any earlier spec for
/// the same node and goes to the end.
pub open spec fn merge_volumes(acc: Seq<VolumeSpecView>, vs: Seq<VolumeSpecView>) -> Seq<VolumeSpecView>
    decreases vs.len(),
{
    if vs.len() == 0 {
        acc
    } else {
        merge_volumes(acc, vs.drop_last()).filter(|e: VolumeSpecView| e.node_key != vs.last().node_key).push(
            vs.last(),
        )
    }
}

/// The merged volume specs of the zones named by the first `n` active names.
pub open spec fn wanted_volumes(store: ZoneStoreView, n: nat) -> Seq<VolumeSpecView>
    decreases n,
{
    if n == 0 {
        Seq::empty()
    } else {
        let prev = wanted_volumes(store, (n - 1) as nat);
        match active_zone(store, n - 1) {
            Some(z) => merge_volumes(prev, z.volumes),
            None => prev,
        }
    }
}

/// The desired state of a store: the links of its active zones as an ordered set, and
/// their volume specs merged last-active-wins.
pub open spec fn desired_of(store: ZoneStoreView) -> DesiredModel {
    DesiredModel {
        links: ordered_set(
            |x: (Seq<char>, Seq<char>)| wanted_links(store, store.active.len()).contains(x),
            pair_order(),
        ),
        volumes: wanted_volumes(store, store.active.len()),
    }
}

pub proof fn lemma_push_contains<A>(s: Seq<A>, e: A)
    ensures
        forall|x: A| #[trigger] s.push(e).contains(x) <==> (s.contains(x) || x == e),
{
    assert forall|x: A| #[trigger] s.push(e).contains(x) <==> (s.contains(x) || x == e) by {
        if s.push(e).contains(x) {
            let i = choose|i: int| 0 <= i < s.push(e).len() && s.push(e)[i] == x;
            if i < s.len() {
                assert(s[i] == x);
            }
        }
        if s.contains(x) {
            let i = choose|i: int| 0 <= i < s.len() && s[i] == x;
            assert(s.push(e)[i] == x);
        }
        if x == e {
            assert(s.push(e)[s.len() as int] == x);
        }
    }
}

/// Keeps the volume specs that are not for the node `key`.
fn drop_volume_for(vols: &Vec<VolumeSpec>, key: &str) -> (r: Vec<VolumeSpec>)
    ensures
        r@.map_values(|v: VolumeSpec| v@) == vols@.map_values(|v: VolumeSpec| v@).filter(
            |e: VolumeSpecView| e.node_key != key@,
        ),
{
    let ghost src = vols@.map_values(|v: VolumeSpec| v@);
    let mut r: Vec<VolumeSpec> = Vec::new();
    let mut i: usize = 0;
    while i < vols.len()
        invariant
            src == vols@.map_values(|v: VolumeSpec| v@),
            i <= vols.len(),
            r@.map_values(|v: VolumeSpec| v@) == src.take(i as int).filter(|e: VolumeSpecView| e.node_key != key@),
        decreases vols.len() - i,
    {
        proof {
            assert(src.take(i + 1) =~= src.take(i as int).push(src[i as int]));
            src.take(i as int).lemma_filter_push(src[i as int], |e: VolumeSpecView| e.node_key != key@);
        }
        if !str_eq(vols[i].node_key.as_str(), key) {
            let v = vols[i].clone();
            let ghost prev = r@.map_values(|v: VolumeSpec| v@);
            r.push(v);
            proof {
                assert(r@.map_values(|v: VolumeSpec| v@) =~= prev.push(v@));
            }
        }
        i = i + 1;
    }
    proof {
        assert(src.take(vols.len() as int) =~= src);
    }
    r
}

/// Builds the desired state from the active zones: the union of their links (as an
/// ordered set) and their volume specs merged last-active-wins per node.
pub fn desired_from_active(store: &ZoneStore) -> (d: Desired)
    ensures
        sorted_by(d@.links, pair_order()),
        forall|x: (Seq<char>, Seq<char>)| #[trigger] d@.links.contains(x)
            <==> wanted_links(store@, store@.active.len()).contains(x),
        d@.volumes == wanted_volumes(store@, store@.active.len()),
        d@ == desired_of(store@),
{
    let mut d = Desired::default();
    let mut a: usize = 0;
    while a < store.active.len()
        invariant
            a <= store.active.len(),
            sorted_by(d@.links, pair_order()),
            forall|x: (Seq<char>, Seq<char>)| #[trigger] d@.links.contains(x)
                <==> wanted_links(store@, a as nat).contains(x),
            d@.volumes == wanted_volumes(store@, a as nat),
        decreases store.active.len() - a,
    {
        match store.get(store.active[a].as_str()) {
            Some(z) => {
                proof {
                    assert(active_zone(store@, a as int) == Some(z@));
                }
                let ghost base = wanted_links(store@, a as nat);
                let mut k: usize = 0;
                while k < z.links.len()
                    invariant
                        k <= z.links.len(),
                        d@.volumes == wanted_volumes(store@, a as nat),
                        sorted_by(d@.links, pair_order()),
                        forall|x: (Seq<char>, Seq<char>)| #[trigger] d@.links.contains(x)
                            <==> (base + zone_link_pairs(z@).take(k as int)).contains(x),
                    decreases z.links.len() - k,
                {
                    let l = &z.links[k];
                    insert_pair(&mut d.links, (l.output_port.clone(), l.input_port.clone()));
                    proof {
                        let t = zone_link_pairs(z@);
                        assert(t[k as int] == (l.output_port@, l.input_port@));
                        assert(base + t.take(k + 1) =~= (base + t.take(k as int)).push(t[k as int]));
                        lemma_push_contains(base + t.take(k as int), t[k as int]);
                    }
                    k = k + 1;
                }
                proof {
                    assert(zone_link_pairs(z@).take(k as int) =~= zone_link_pairs(z@));
                    assert(wanted_links(store@, (a + 1) as nat) == base + zone_link_pairs(z@));
                }
                let ghost acc = wanted_volumes(store@, a as nat);
                let ghost zv = z@.volumes;
                let ghost links_now = d@.links;
                proof {
                    assert(zv.take(0) =~= Seq::<VolumeSpecView>::empty());
                }
                let mut k: usize = 0;
                while k < z.volumes.len()
                    invariant
                        zv == z@.volumes,
                        d@.links == links_now,
                        k <= z.volumes.len(),
                        d@.volumes == merge_volumes(acc, zv.take(k as int)),
                    decreases z.volumes.len() - k,
                {
                    let kept = drop_volume_for(&d.volumes, z.volumes[k].node_key.as_str());
                    d.volumes = kept;
                    let v = z.volumes[k].clone();
                    let ghost prev = d@.volumes;
                    d.volumes.push(v);
                    proof {
                        assert(d@.volumes =~= prev.push(v@));
                        assert(zv.take(k + 1).drop_last() =~= zv.take(k as int));
                        assert(zv.take(k + 1).last() == zv[k as int]);
                    }
                    k = k + 1;
                }
                proof {
                    assert(zv.take(k as int) =~= zv);
                }
            },
            None => {
                proof {
                    assert(active_zone(store@, a as int) is None);
                    assert(wanted_links(store@, (a + 1) as nat) =~= wanted_links(store@, a as nat));
                }
            },
        }
        a = a + 1;
    }
    proof {
        lemma_pair_order_strict();
        lemma_ordered_set(
            d@.links,
            |x: (Seq<char>, Seq<char>)| wanted_links(store@, store@.active.len()).contains(x),
            pair_order(),
        );
    }
    d
}


/// Two levels closer than this count as equal.
pub const VOLUME_TOLERANCE: Level = 1000;

/// Two levels differ by more than the tolerance.
pub open spec fn far_apart(a: Level, b: Level) -> bool {
    a - b > VOLUME_TOLERANCE || b - a > VOLUME_TOLERANCE
}

/// Whether two levels differ by more than the tolerance.
pub fn levels_far_apart(a: Level, b: Level) -> (r: bool)
    ensures
        r == far_apart(a, b),
{
    let d = (a as i128) - (b as i128);
    d > (VOLUME_TOLERANCE as i128) || -d > (VOLUME_TOLERANCE as i128)
}

/// The volume target a spec asks for: its channels when it lists any, else its
/// uniform level, else nothing.
pub open spec fn target_of(v: VolumeSpecView) -> Option<TargetModel> {
    if v.channels.len() > 0 {
        Some(TargetModel::Channels(v.channels.map_values(|c: ChannelVolume| (c.channel, c.volume))))
    } else {
        match v.volume {
            Some(x) => Some(TargetModel::Uniform(x)),
            None => None,
        }
    }
}

/// Channel `c` of the node is missing or off from `x`.
pub open spec fn channel_off(n: NodeModel, c: usize, x: Level) -> bool {
    c >= n.channel_volumes.len() || far_apart(n.channel_volumes[c as int], x)
}

/// The node's live volume does not satisfy the spec.
pub open spec fn needs_volume(n: NodeModel, v: VolumeSpecView) -> bool {
    match target_of(v) {
        None => false,
        Some(TargetModel::Uniform(x)) => match n.volume {
            None => true,
            Some(cur) => far_apart(cur, x),
        },
        Some(TargetModel::Channels(ps)) => any_channel_off(n, ps),
    }
}

/// Some listed channel of the node is missing or off from its level.
pub open spec fn any_channel_off(n: NodeModel, ps: Seq<(usize, Level)>) -> bool {
    exists|k: int| 0 <= k < ps.len() && #[trigger] channel_off(n, ps[k].0, ps[k].1)
}

/// The actions one volume spec calls for against the live nodes: nothing when its node
/// is absent; else a volume correction and/or a mute correction where they differ.
pub open spec fn spec_actions(v: VolumeSpecView, nodes: Seq<NodeModel>) -> Seq<ActionModel> {
    match first_match(nodes, keyed(v.node_key)) {
        None => Seq::empty(),
        Some(i) => (if needs_volume(nodes[i], v) {
            seq![ActionModel::SetVolume(v.node_key, target_of(v).unwrap())]
        } else {
            Seq::empty()
        }) + (if nodes[i].muted != v.muted {
            seq![ActionModel::SetMute(v.node_key, v.muted)]
        } else {
            Seq::empty()
        }),
    }
}

/// The actions for a sequence of volume specs, in order.
pub open spec fn volume_actions(vols: Seq<VolumeSpecView>, nodes: Seq<NodeModel>) -> Seq<ActionModel>
    decreases vols.len(),
{
    if vols.len() == 0 {
        Seq::empty()
    } else {
        volume_actions(vols.drop_last(), nodes) + spec_actions(vols.last(), nodes)
    }
}

/// A `CreateLink` for every desired link not already live, in order. A feedback link
/// (one that loops a node into itself) is never created.
pub open spec fn link_actions(links: Seq<(Seq<char>, Seq<char>)>, live: Seq<(Seq<char>, Seq<char>)>) -> Seq<
    ActionModel,
>
    decreases links.len(),
{
    if links.len() == 0 {
        Seq::empty()
    } else {
        link_actions(links.drop_last(), live) + if live.contains(links.last()) || self_loop(
            links.last().0,
            links.last().1,
        ) {
            Seq::empty()
        } else {
            seq![ActionModel::CreateLink(links.last().0, links.last().1)]
        }
    }
}

/// What reconcile emits: link creations first, then volume and mute corrections.
pub open spec fn reconcile_actions(d: DesiredModel, g: GraphModel) -> Seq<ActionModel> {
    link_actions(d.links, g.links) + volume_actions(d.volumes, g.nodes)
}

/// Whether `links` holds the link `out -> inp`.
pub fn has_link(links: &Vec<LinkView>, out: &str, inp: &str) -> (r: bool)
    ensures
        r == links@.map_values(|l: LinkView| l@).contains((out@, inp@)),
{
    let ghost lv = links@.map_values(|l: LinkView| l@);
    let mut i: usize = 0;
    while i < links.len()
        invariant
            lv == links@.map_values(|l: LinkView| l@),
            i <= links.len(),
            forall|j: int| 0 <= j < i ==> #[trigger] lv[j] != (out@, inp@),
        decreases links.len() - i,
    {
        if str_eq(links[i].output_port.as_str(), out) && str_eq(links[i].input_port.as_str(), inp) {
            proof {
                assert(lv[i as int] == (out@, inp@));
            }
            return true;
        }
        i = i + 1;
    }
    false
}

/// Index of the first node with the given key.
pub fn find_node(nodes: &Vec<NodeView>, key: &str) -> (r: Option<usize>)
    ensures
        match r {
            Some(i) => first_match(nodes@.map_values(|n: NodeView| n@), keyed(key@)) == Some(i as int),
            None => first_match(nodes@.map_values(|n: NodeView| n@), keyed(key@)) is None,
        },
{
    let ghost nv = nodes@.map_values(|n: NodeView| n@);
    let mut i: usize = 0;
    while i < nodes.len()
        invariant
            nv == nodes@.map_values(|n: NodeView| n@),
            i <= nodes.len(),
            forall|j: int| 0 <= j < i ==> !keyed(key@)(#[trigger] nv[j]),
        decreases nodes.len() - i,
    {
        if str_eq(nodes[i].key.as_str(), key) {
            proof {
                lemma_first_match_found(nv, keyed(key@), i as int);
            }
            return Some(i);
        }
        i = i + 1;
    }
    proof {
        lemma_first_match_none(nv, keyed(key@));
    }
    None
}

/// The volume target a spec asks for.
pub fn volume_target(v: &VolumeSpec) -> (r: Option<VolumeTarget>)
    ensures
        match r {
            Some(t) => target_of(v@) == Some(t@),
            None => target_of(v@) is None,
        },
{
    if v.channels.len() > 0 {
        let mut ps: Vec<(usize, Level)> = Vec::new();
        let mut i: usize = 0;
        while i < v.channels.len()
            invariant
                i <= v.channels.len(),
                ps@ == v.channels@.take(i as int).map_values(|c: ChannelVolume| (c.channel, c.volume)),
            decreases v.channels.len() - i,
        {
            ps.push((v.channels[i].channel, v.channels[i].volume));
            proof {
                assert(v.channels@.take(i + 1) =~= v.channels@.take(i as int).push(v.channels@[i as int]));
                assert(ps@ =~= v.channels@.take(i + 1).map_values(|c: ChannelVolume| (c.channel, c.volume)));
            }
            i = i + 1;
        }
        proof {
            assert(v.channels@.take(i as int) =~= v.channels@);
        }
        Some(VolumeTarget::Channels(ps))
    } else {
        match v.volume {
            Some(x) => Some(VolumeTarget::Uniform(x)),
            None => None,
        }
    }
}

/// Whether the node's live volume does not satisfy the spec.
pub fn volume_needs_correction(n: &NodeView, v: &VolumeSpec) -> (r: bool)
    ensures
        r == needs_volume(n@, v@),
{
    if v.channels.len() > 0 {
        let ghost ps = v.channels@.map_values(|c: ChannelVolume| (c.channel, c.volume));
        let mut i: usize = 0;
        while i < v.channels.len()
            invariant
                ps == v.channels@.map_values(|c: ChannelVolume| (c.channel, c.volume)),
                i <= v.channels.len(),
                forall|k: int| 0 <= k < i ==> !#[trigger] channel_off(n@, ps[k].0, ps[k].1),
            decreases v.channels.len() - i,
        {
            let c = v.channels[i].channel;
            let x = v.channels[i].volume;
            let off = if c >= n.channel_volumes.len() {
                true
            } else {
                levels_far_apart(n.channel_volumes[c], x)
            };
            if off {
                proof {
                    assert(ps[i as int] == (c, x));
                    assert(channel_off(n@, ps[i as int].0, ps[i as int].1));
                    assert(target_of(v@) == Some(TargetModel::Channels(ps)));
                    assert(any_channel_off(n@, ps));
                }
                return true;
            }
            i = i + 1;
        }
        false
    } else {
        match v.volume {
            None => false,
            Some(x) => match n.volume {
                None => true,
                Some(cur) => levels_far_apart(cur, x),
            },
        }
    }
}

/// Diffs desired against actual and emits the actions that drive actual toward desired:
/// a `CreateLink` for each desired link that is not live and is not a feedback link, in
/// the desired links' ascending order (links are never destroyed here, so links the
/// zones did not make are left alone), then for each desired volume spec whose node is
/// present, a `SetVolume` where the level is off by more than the tolerance and a
/// `SetMute` where the mute state differs.
pub fn reconcile(desired: &Desired, actual: &GraphState) -> (r: Vec<Action>)
    requires
        sorted_by(desired@.links, pair_order()),
    ensures
        r@.map_values(|a: Action| a@) == reconcile_actions(desired@, actual@),
{
    let mut actions: Vec<Action> = Vec::new();
    let ghost dl = desired@.links;
    let ghost live = actual@.links;
    let mut i: usize = 0;
    while i < desired.links.len()
        invariant
            dl == desired@.links,
            live == actual@.links,
            i <= desired.links.len(),
            actions@.map_values(|a: Action| a@) == link_actions(dl.take(i as int), live),
        decreases desired.links.len() - i,
    {
        let out = desired.links[i].0.as_str();
        let inp = desired.links[i].1.as_str();
        proof {
            assert(dl.take(i + 1).drop_last() =~= dl.take(i as int));
            assert(dl.take(i + 1).last() == (out@, inp@));
        }
        if !is_self_loop(out, inp) && !has_link(&actual.links, out, inp) {
            let ghost prev = actions@.map_values(|a: Action| a@);
            actions.push(Action::CreateLink { output_port: String::from_str(out), input_port: String::from_str(inp) });
            proof {
                assert(actions@.map_values(|a: Action| a@) =~= prev.push(ActionModel::CreateLink(out@, inp@)));
            }
        }
        proof {
            assert(actions@.map_values(|a: Action| a@) =~= link_actions(dl.take(i + 1), live));
        }
        i = i + 1;
    }
    proof {
        assert(dl.take(i as int) =~= dl);
    }
    let ghost base = actions@.map_values(|a: Action| a@);
    let ghost dv = desired@.volumes;
    let ghost nodes = actual@.nodes;
    let mut k: usize = 0;
    proof {
        assert(dv.take(0) =~= Seq::<VolumeSpecView>::empty());
        assert(base + volume_actions(dv.take(0), nodes) =~= base);
    }
    while k < desired.volumes.len()
        invariant
            dv == desired@.volumes,
            nodes == actual@.nodes,
            k <= desired.volumes.len(),
            actions@.map_values(|a: Action| a@) == base + volume_actions(dv.take(k as int), nodes),
        decreases desired.volumes.len() - k,
    {
        let v = &desired.volumes[k];
        let ghost before = actions@.map_values(|a: Action| a@);
        proof {
            assert(dv.take(k + 1).drop_last() =~= dv.take(k as int));
            assert(dv.take(k + 1).last() == v@);
        }
        match find_node(&actual.nodes, v.node_key.as_str()) {
            Some(ni) => {
                let n = &actual.nodes[ni];
                let need = volume_needs_correction(n, v);
                if need {
                    match volume_target(v) {
                        Some(t) => {
                            let ghost tv = t@;
                            actions.push(Action::SetVolume { node_key: v.node_key.clone(), target: t });
                            proof {
                                assert(actions@.map_values(|a: Action| a@) =~= before.push(
                                    ActionModel::SetVolume(v@.node_key, tv),
                                ));
                            }
                        },
                        None => {},
                    }
                }
                let ghost mid = actions@.map_values(|a: Action| a@);
                if n.muted != v.muted {
                    actions.push(Action::SetMute { node_key: v.node_key.clone(), muted: v.muted });
                    proof {
                        assert(actions@.map_values(|a: Action| a@) =~= mid.push(
                            ActionModel::SetMute(v@.node_key, v.muted),
                        ));
                    }
                }
                proof {
                    assert(nodes[ni as int] == n@);
                    assert(actions@.map_values(|a: Action| a@) =~= before + spec_actions(v@, nodes));
                }
            },
            None => {
                proof {
                    assert(spec_actions(v@, nodes) =~= Seq::<ActionModel>::empty());
                    assert(actions@.map_values(|a: Action| a@) =~= before + spec_actions(v@, nodes));
                }
            },
        }
        proof {
            assert(base + volume_actions(dv.take(k + 1), nodes) =~= base + volume_actions(dv.take(k as int), nodes)
                + spec_actions(v@, nodes));
        }
        k = k + 1;
    }
    proof {
        assert(dv.take(k as int) =~= dv);
    }
    actions
}


/// Whether some present node has a port with the given key.
pub fn port_is_present(g: &GraphState, key: &str) -> (r: bool)
    ensures
        r == port_present(g@, key@),
{
    let ghost gv = g@;
    let mut i: usize = 0;
    while i < g.nodes.len()
        invariant
            gv == g@,
            i <= g.nodes.len(),
            forall|a: int, b: int|
                0 <= a < i && gv.nodes[a].present && 0 <= b < gv.nodes[a].ports.len()
                    ==> #[trigger] gv.nodes[a].ports[b].key != key@,
        decreases g.nodes.len() - i,
    {
        let n = &g.nodes[i];
        if n.present {
            let mut j: usize = 0;
            while j < n.ports.len()
                invariant
                    gv == g@,
                    i < g.nodes.len(),
                    n@ == gv.nodes[i as int],
                    n.present,
                    j <= n.ports.len(),
                    forall|b: int| 0 <= b < j ==> #[trigger] gv.nodes[i as int].ports[b].key != key@,
                decreases n.ports.len() - j,
            {
                if str_eq(n.ports[j].key.as_str(), key) {
                    proof {
                        assert(gv.nodes[i as int].present);
                        assert(gv.nodes[i as int].ports[j as int].key == key@);
                        assert(port_present(gv, key@));
                    }
                    return true;
                }
                j = j + 1;
            }
        }
        i = i + 1;
    }
    false
}

/// One of the link's two ports is `x`.
pub open spec fn link_touches(l: LinkSpec, x: Seq<char>) -> bool {
    l.output_port@ == x || l.input_port@ == x
}

/// `x` is a port of the zone `name`'s links that no present node offers.
pub open spec fn zone_missing(store: ZoneStoreView, name: Seq<char>, g: GraphModel, x: Seq<char>) -> bool {
    match zone_index(store.zones, name) {
        None => false,
        Some(i) => {
            &&& !port_present(g, x)
            &&& exists|k: int| 0 <= k < store.zones[i].links.len() && #[trigger] link_touches(store.zones[i].links[k], x)
        },
    }
}

/// The ports of the zone `name` that are missing, as an ordered set.
pub open spec fn missing_keys(store: ZoneStoreView, name: Seq<char>, g: GraphModel) -> Seq<Seq<char>> {
    ordered_set(|x: Seq<char>| zone_missing(store, name, g, x), text_order())
}

/// Stable keys of the ports the zone `zone_name` links that are not present, as an
/// ordered set (empty for an unknown zone).
pub fn missing_for_zone(store: &ZoneStore, zone_name: &str, actual: &GraphState) -> (r: Vec<String>)
    ensures
        sorted_by(text_views(r@), text_order()),
        forall|x: Seq<char>| #[trigger] text_views(r@).contains(x)
            <==> zone_missing(store@, zone_name@, actual@, x),
        text_views(r@) == missing_keys(store@, zone_name@, actual@),
{
    proof {
        lemma_text_order_strict();
    }
    let mut missing: Vec<String> = Vec::new();
    let z = match store.get(zone_name) {
        Some(z) => z,
        None => {
            proof {
                assert(text_views(missing@) =~= Seq::<Seq<char>>::empty());
                lemma_ordered_set(
                    text_views(missing@),
                    |x: Seq<char>| zone_missing(store@, zone_name@, actual@, x),
                    text_order(),
                );
            }
            return missing;
        },
    };
    let ghost zl = z@.links;
    let mut k: usize = 0;
    while k < z.links.len()
        invariant
            zl == z@.links,
            z@ == store@.zones[zone_index(store@.zones, zone_name@).unwrap()],
            zone_index(store@.zones, zone_name@) is Some,
            k <= z.links.len(),
            sorted_by(text_views(missing@), text_order()),
            forall|x: Seq<char>| #[trigger] text_views(missing@).contains(x) <==> (!port_present(actual@, x)
                && exists|m: int| 0 <= m < k && #[trigger] link_touches(zl[m], x)),
        decreases z.links.len() - k,
    {
        let l = &z.links[k];
        let out_present = port_is_present(actual, l.output_port.as_str());
        if !out_present {
            insert_text(&mut missing, l.output_port.clone());
        }
        let in_present = port_is_present(actual, l.input_port.as_str());
        if !in_present {
            insert_text(&mut missing, l.input_port.clone());
        }
        proof {
            assert(zl[k as int] == *l);
            assert forall|x: Seq<char>| #[trigger] text_views(missing@).contains(x) <==> (!port_present(actual@, x)
                && exists|m: int| 0 <= m < k + 1 && #[trigger] link_touches(zl[m], x)) by {
                if !port_present(actual@, x) && exists|m: int| 0 <= m < k + 1 && #[trigger] link_touches(zl[m], x) {
                    let m = choose|m: int| 0 <= m < k + 1 && #[trigger] link_touches(zl[m], x);
                    if m < k {
                        assert(exists|m: int| 0 <= m < k && #[trigger] link_touches(zl[m], x));
                    }
                }
                if text_views(missing@).contains(x) {
                    if x == l.output_port@ || x == l.input_port@ {
                        assert(link_touches(zl[k as int], x));
                    }
                }
            }
        }
        k = k + 1;
    }
    proof {
        lemma_ordered_set(
            text_views(missing@),
            |x: Seq<char>| zone_missing(store@, zone_name@, actual@, x),
            text_order(),
        );
    }
    missing
}

} // verus!
