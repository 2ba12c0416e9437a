//! The decisions behind the REST handlers: feedback-loop rejection, request
//! validation and error statuses, which links a zone edit orphans, which node and
//! channels a zone's volume drives, and the zone overlay clients see.

use vstd::prelude::*;
use vstd::string::*;

use crate::backend::{loudest, loudest_level};
use crate::model::{
    find_node, missing_for_zone, missing_keys, zone_link_pairs, Action, ActionModel, TargetModel, VolumeTarget,
};
use crate::search::{first_match, lemma_first_match_found, lemma_first_match_none};
use crate::sorted::{index_order, insert_index, lemma_index_order_strict, lemma_ordered_set, ordered_set, sorted_by};
use crate::text::{before_char, str_eq};
use crate::wire::{
    keyed, GraphModel, GraphState, Level, LinkView, NodeModel, NodeView, PortModel, ZoneView, ZoneViewModel,
};
use crate::zones::{
    governed_by_active_zone, node_of_port_key, upserted, zone_index, zone_level_set, LinkSpec, VolumeSpecView,
    ZoneDef, ZoneDefView, ZoneError, ZoneStore, ZoneStoreView,
};

verus! {

/// A refused request: the HTTP status and the message for the body.
#[derive(Debug, PartialEq, Eq)]
pub struct ApiError {
    pub status: u16,
    pub message: String,
}

/// 400 Bad Request.
pub const BAD_REQUEST: u16 = 400;

/// 404 Not Found.
pub const NOT_FOUND: u16 = 404;

/// 409 Conflict.
pub const CONFLICT: u16 = 409;

/// 422 Unprocessable Entity.
pub const UNPROCESSABLE_ENTITY: u16 = 422;

/// 500 Internal Server Error.
pub const INTERNAL_SERVER_ERROR: u16 = 500;

/// The node key owning a port, from its stable key (`<node_key>#<port>`).
pub fn node_of_port(port_key: &str) -> (r: &str)
    ensures
        r@ == node_of_port_key(port_key@),
{
    before_char(port_key, '#')
}

/// A link whose two ports are on the same node (a device fed back into itself).
pub open spec fn self_loop(output_port: Seq<char>, input_port: Seq<char>) -> bool {
    node_of_port_key(output_port) == node_of_port_key(input_port)
}

/// Whether the link `output_port -> input_port` loops a node into itself.
pub fn is_self_loop(output_port: &str, input_port: &str) -> (r: bool)
    ensures
        r == self_loop(output_port@, input_port@),
{
    str_eq(node_of_port(output_port), node_of_port(input_port))
}

/// A zone link that loops a node into itself.
pub open spec fn looping() -> spec_fn(LinkSpec) -> bool {
    |l: LinkSpec| self_loop(l.output_port@, l.input_port@)
}

/// The message refusing a feedback link.
pub open spec fn self_loop_message(output_port: Seq<char>, input_port: Seq<char>) -> Seq<char> {
    "link '"@ + output_port + "' -> '"@ + input_port
        + "' loops a device into itself (feedback); route a capture source into the destination instead"@
}

/// Refuses a link set that holds a feedback link, naming the first one (400).
pub fn reject_self_loops(links: &Vec<LinkSpec>) -> (r: Result<(), ApiError>)
    ensures
        match first_match(links@, looping()) {
            None => r is Ok,
            Some(i) => r matches Err(e) && e.status == BAD_REQUEST && e.message@ == self_loop_message(
                links@[i].output_port@,
                links@[i].input_port@,
            ),
        },
{
    let mut i: usize = 0;
    while i < links.len()
        invariant
            i <= links.len(),
            forall|j: int| 0 <= j < i ==> !looping()(#[trigger] links@[j]),
        decreases links.len() - i,
    {
        let l = &links[i];
        if is_self_loop(l.output_port.as_str(), l.input_port.as_str()) {
            proof {
                lemma_first_match_found(links@, looping(), i as int);
            }
            let m = String::from_str("link '").concat(l.output_port.as_str()).concat("' -> '").concat(
                l.input_port.as_str(),
            ).concat(
                "' loops a device into itself (feedback); route a capture source into the destination instead",
            );
            proof {
                assert(m@ =~= self_loop_message(l.output_port@, l.input_port@));
            }
            return Err(ApiError { status: BAD_REQUEST, message: m });
        }
        i = i + 1;
    }
    proof {
        lemma_first_match_none(links@, looping());
    }
    Ok(())
}

/// Checks the links of a zone create or edit: at least one, and no feedback link (400).
pub fn check_zone_links(links: &Vec<LinkSpec>) -> (r: Result<(), ApiError>)
    ensures
        links@.len() == 0 ==> (r matches Err(e) && e.status == BAD_REQUEST && e.message@
            == "a zone needs at least one link"@),
        links@.len() > 0 ==> match first_match(links@, looping()) {
            None => r is Ok,
            Some(i) => r matches Err(e) && e.status == BAD_REQUEST && e.message@ == self_loop_message(
                links@[i].output_port@,
                links@[i].input_port@,
            ),
        },
{
    if links.len() == 0 {
        return Err(
            ApiError { status: BAD_REQUEST, message: String::from_str("a zone needs at least one link") },
        );
    }
    reject_self_loops(links)
}

/// The status a refused zone edit answers with: 409 for a taken name, 400 for an
/// invalid one, 404 for an unknown zone.
pub fn zone_edit_status(e: &ZoneError) -> (s: u16)
    ensures
        s == match e {
            ZoneError::ZoneExists(_) => CONFLICT,
            ZoneError::InvalidZone(_) => BAD_REQUEST,
            ZoneError::NoSuchZone(_) => NOT_FOUND,
        },
{
    match e {
        ZoneError::ZoneExists(_) => CONFLICT,
        ZoneError::InvalidZone(_) => BAD_REQUEST,
        ZoneError::NoSuchZone(_) => NOT_FOUND,
    }
}

/// A link spec as a key pair.
pub open spec fn link_key(l: LinkSpec) -> (Seq<char>, Seq<char>) {
    (l.output_port@, l.input_port@)
}

/// Some zone lists the link `p`.
pub open spec fn claimed(zones: Seq<ZoneDefView>, p: (Seq<char>, Seq<char>)) -> bool {
    exists|i: int, k: int|
        0 <= i < zones.len() && 0 <= k < zones[i].links.len() && #[trigger] link_key(zones[i].links[k]) == p
}

/// A removed link to tear down: it is live and no remaining zone lists it.
pub open spec fn orphaned(live: Seq<(Seq<char>, Seq<char>)>, zones: Seq<ZoneDefView>) -> spec_fn(
    (Seq<char>, Seq<char>),
) -> bool {
    |p: (Seq<char>, Seq<char>)| live.contains(p) && !claimed(zones, p)
}

/// Whether some zone lists the link `out -> inp`.
fn is_claimed(zones: &Vec<ZoneDef>, out: &str, inp: &str) -> (r: bool)
    ensures
        r == claimed(zones@.map_values(|z: ZoneDef| z@), (out@, inp@)),
{
    let ghost zs = zones@.map_values(|z: ZoneDef| z@);
    let mut i: usize = 0;
    while i < zones.len()
        invariant
            zs == zones@.map_values(|z: ZoneDef| z@),
            i <= zones.len(),
            forall|a: int, k: int|
                0 <= a < i && 0 <= k < zs[a].links.len() ==> #[trigger] link_key(zs[a].links[k]) != (out@, inp@),
        decreases zones.len() - i,
    {
        let z = &zones[i];
        let mut k: usize = 0;
        while k < z.links.len()
            invariant
                zs == zones@.map_values(|z: ZoneDef| z@),
                i < zones.len(),
                z@ == zs[i as int],
                k <= z.links.len(),
                forall|b: int| 0 <= b < k ==> #[trigger] link_key(zs[i as int].links[b]) != (out@, inp@),
            decreases z.links.len() - k,
        {
            if str_eq(z.links[k].output_port.as_str(), out) && str_eq(z.links[k].input_port.as_str(), inp) {
                proof {
                    assert(link_key(zs[i as int].links[k as int]) == (out@, inp@));
                }
                return true;
            }
            k = k + 1;
        }
        i = i + 1;
    }
    false
}

/// The links a zone edit or delete leaves orphaned, in order: each removed link that is
/// live and that no remaining zone lists. Only these are torn down, so a link another
/// zone still wants, or one that is not live, is never touched.
pub fn orphaned_links(removed: &Vec<LinkSpec>, live: &Vec<LinkView>, zones: &Vec<ZoneDef>) -> (r: Vec<LinkSpec>)
    ensures
        r@.map_values(|l: LinkSpec| link_key(l)) == removed@.map_values(|l: LinkSpec| link_key(l)).filter(
            orphaned(live@.map_values(|l: LinkView| l@), zones@.map_values(|z: ZoneDef| z@)),
        ),
{
    let ghost src = removed@.map_values(|l: LinkSpec| link_key(l));
    let ghost pred = orphaned(live@.map_values(|l: LinkView| l@), zones@.map_values(|z: ZoneDef| z@));
    let mut r: Vec<LinkSpec> = Vec::new();
    let mut i: usize = 0;
    while i < removed.len()
        invariant
            src == removed@.map_values(|l: LinkSpec| link_key(l)),
            pred == orphaned(live@.map_values(|l: LinkView| l@), zones@.map_values(|z: ZoneDef| z@)),
            i <= removed.len(),
            r@.map_values(|l: LinkSpec| link_key(l)) == src.take(i as int).filter(pred),
        decreases removed.len() - i,
    {
        proof {
            assert(src.take(i + 1) =~= src.take(i as int).push(src[i as int]));
            src.take(i as int).lemma_filter_push(src[i as int], pred);
        }
        let l = &removed[i];
        let is_live = crate::model::has_link(live, l.output_port.as_str(), l.input_port.as_str());
        let keep = is_live && !is_claimed(zones, l.output_port.as_str(), l.input_port.as_str());
        proof {
            assert(src[i as int] == (l.output_port@, l.input_port@));
            assert(keep == pred(src[i as int]));
        }
        if keep {
            let c = l.clone();
            let ghost prev = r@.map_values(|l: LinkSpec| link_key(l));
            r.push(c);
            proof {
                assert(r@.map_values(|l: LinkSpec| link_key(l)) =~= prev.push(link_key(c)));
            }
        }
        i = i + 1;
    }
    proof {
        assert(src.take(i as int) =~= src);
    }
    r
}

/// The volume target for a level on a zone's channels: uniform when the zone drives the
/// whole node (no channel), else the level on each of its channels.
pub fn volume_target_for(channels: &Vec<usize>, level: Level) -> (t: VolumeTarget)
    ensures
        t@ == if channels@.len() == 0 {
            TargetModel::Uniform(level)
        } else {
            TargetModel::Channels(channels@.map_values(|c: usize| (c, level)))
        },
{
    if channels.len() == 0 {
        return VolumeTarget::Uniform(level);
    }
    let mut ps: Vec<(usize, Level)> = Vec::new();
    let mut i: usize = 0;
    while i < channels.len()
        invariant
            i <= channels.len(),
            ps@ == channels@.take(i as int).map_values(|c: usize| (c, level)),
        decreases channels.len() - i,
    {
        ps.push((channels[i], level));
        proof {
            assert(channels@.take(i + 1) =~= channels@.take(i as int).push(channels@[i as int]));
            assert(ps@ =~= channels@.take(i + 1).map_values(|c: usize| (c, level)));
        }
        i = i + 1;
    }
    proof {
        assert(channels@.take(i as int) =~= channels@);
    }
    VolumeTarget::Channels(ps)
}


/// A port has the given key.
pub open spec fn port_keyed(key: Seq<char>) -> spec_fn(PortModel) -> bool {
    |p: PortModel| p.key == key
}

/// The channel a zone link lands on at the node: the channel of the node's port that
/// the link's input port names, when the link feeds this node and the port has one.
pub open spec fn link_channel(node: NodeModel, l: LinkSpec) -> Option<usize> {
    if node_of_port_key(l.input_port@) == node.key {
        match first_match(node.ports, port_keyed(l.input_port@)) {
            Some(j) => node.ports[j].channel,
            None => None,
        }
    } else {
        None
    }
}

/// The present node a zone's first link feeds, if the zone has a link and that node is
/// in the graph.
pub open spec fn destination(z: ZoneDefView, g: GraphModel) -> Option<int> {
    if z.links.len() > 0 {
        first_match(g.nodes, keyed(node_of_port_key(z.links[0].input_port@)))
    } else {
        None
    }
}

/// The channels of `node` the zone's links land on, ascending and without repeats.
pub open spec fn zone_channels(z: ZoneDefView, node: NodeModel) -> Seq<usize> {
    ordered_set(
        |c: usize| exists|k: int| 0 <= k < z.links.len() && #[trigger] link_channel(node, z.links[k]) == Some(c),
        index_order(),
    )
}

/// The channels a volume spec lists, ascending and without repeats.
pub open spec fn spec_channels(v: VolumeSpecView) -> Seq<usize> {
    ordered_set(
        |c: usize| exists|k: int| 0 <= k < v.channels.len() && #[trigger] v.channels[k].channel == c,
        index_order(),
    )
}

/// The node and channels a zone's volume drives: the destination of its first link and
/// the channels its links land on there; else its first volume spec's node and the
/// channels that spec lists; else nothing. Channels come ascending and without repeats.
pub open spec fn zone_target(z: ZoneDefView, g: GraphModel) -> Option<(Seq<char>, Seq<usize>)> {
    match destination(z, g) {
        Some(i) => Some((g.nodes[i].key, zone_channels(z, g.nodes[i]))),
        None => if z.volumes.len() > 0 {
            Some((z.volumes[0].node_key, spec_channels(z.volumes[0])))
        } else {
            None
        },
    }
}

/// `c` is one of the channels a zone's volume drives: one its links land on at the
/// destination, else one its first volume spec lists.
pub open spec fn target_channel(z: ZoneDefView, g: GraphModel, c: usize) -> bool {
    match destination(z, g) {
        Some(i) => exists|k: int| 0 <= k < z.links.len() && #[trigger] link_channel(g.nodes[i], z.links[k]) == Some(c),
        None => z.volumes.len() > 0 && exists|k: int|
            0 <= k < z.volumes[0].channels.len() && #[trigger] z.volumes[0].channels[k].channel == c,
    }
}

/// Resolves the node and channels a zone's volume drives; the channels come ascending
/// and without repeats.
pub fn zone_volume_target(zone: &ZoneDef, g: &GraphState) -> (r: Option<(String, Vec<usize>)>)
    ensures
        match r {
            Some((k, cs)) => {
                &&& zone_target(zone@, g@) == Some((k@, cs@))
                &&& sorted_by(cs@, index_order())
                &&& forall|c: usize| #[trigger] cs@.contains(c) <==> target_channel(zone@, g@, c)
            },
            None => zone_target(zone@, g@) is None,
        },
{
    proof {
        lemma_index_order_strict();
    }
    if zone.links.len() > 0 {
        let nk = node_of_port(zone.links[0].input_port.as_str());
        match find_node(&g.nodes, nk) {
            Some(ni) => {
                let node = &g.nodes[ni];
                let ghost nm = node@;
                let ghost zv = zone@;
                proof {
                    assert(nm == g@.nodes[ni as int]);
                }
                let mut cs: Vec<usize> = Vec::new();
                let mut k: usize = 0;
                while k < zone.links.len()
                    invariant
                        zv == zone@,
                        nm == node@,
                        k <= zone.links.len(),
                        sorted_by(cs@, index_order()),
                        forall|c: usize| #[trigger] cs@.contains(c) <==> exists|m: int|
                            0 <= m < k && #[trigger] link_channel(nm, zv.links[m]) == Some(c),
                    decreases zone.links.len() - k,
                {
                    let l = &zone.links[k];
                    let ghost before = cs@;
                    let mut found: Option<usize> = None;
                    if str_eq(node_of_port(l.input_port.as_str()), node.key.as_str()) {
                        let mut j: usize = 0;
                        let mut hit = false;
                        while j < node.ports.len()
                            invariant_except_break
                                !hit,
                                found is None,
                            invariant
                                nm == node@,
                                j <= node.ports.len(),
                                forall|b: int| 0 <= b < j ==> !port_keyed(l.input_port@)(#[trigger] nm.ports[b]),
                            ensures
                                hit ==> j < node.ports.len() && first_match(nm.ports, port_keyed(l.input_port@))
                                    == Some(j as int) && found == nm.ports[j as int].channel,
                                !hit ==> j == node.ports.len() && found is None,
                            decreases node.ports.len() - j,
                        {
                            if str_eq(node.ports[j].key.as_str(), l.input_port.as_str()) {
                                proof {
                                    lemma_first_match_found(nm.ports, port_keyed(l.input_port@), j as int);
                                }
                                found = node.ports[j].channel;
                                hit = true;
                                break;
                            }
                            j = j + 1;
                        }
                        proof {
                            if !hit {
                                lemma_first_match_none(nm.ports, port_keyed(l.input_port@));
                            }
                        }
                    }
                    proof {
                        assert(zv.links[k as int] == *l);
                        assert(found == link_channel(nm, *l));
                    }
                    match found {
                        Some(c) => {
                            insert_index(&mut cs, c);
                        },
                        None => {},
                    }
                    proof {
                        assert forall|c: usize| #[trigger] cs@.contains(c) <==> exists|m: int|
                            0 <= m < k + 1 && #[trigger] link_channel(nm, zv.links[m]) == Some(c) by {
                            if exists|m: int| 0 <= m < k + 1 && #[trigger] link_channel(nm, zv.links[m]) == Some(c) {
                                let m = choose|m: int| 0 <= m < k + 1 && #[trigger] link_channel(nm, zv.links[m]) == Some(c);
                                if m < k {
                                    assert(before.contains(c));
                                }
                            }
                            if cs@.contains(c) && !before.contains(c) {
                                assert(link_channel(nm, zv.links[k as int]) == Some(c));
                            }
                        }
                    }
                    k = k + 1;
                }
                proof {
                    lemma_ordered_set(
                        cs@,
                        |c: usize| exists|k: int| 0 <= k < zv.links.len() && #[trigger] link_channel(nm, zv.links[k]) == Some(c),
                        index_order(),
                    );
                    assert(nm.key == nk@);
                }
                return Some((String::from_str(nk), cs));
            },
            None => {},
        }
    }
    if zone.volumes.len() == 0 {
        return None;
    }
    let v = &zone.volumes[0];
    let ghost vv = v@;
    proof {
        assert(vv == zone@.volumes[0]);
    }
    let mut cs: Vec<usize> = Vec::new();
    let mut k: usize = 0;
    while k < v.channels.len()
        invariant
            vv == v@,
            k <= v.channels.len(),
            sorted_by(cs@, index_order()),
            forall|c: usize| #[trigger] cs@.contains(c) <==> exists|m: int| 0 <= m < k && #[trigger] vv.channels[m].channel == c,
        decreases v.channels.len() - k,
    {
        let ghost before = cs@;
        let c = v.channels[k].channel;
        insert_index(&mut cs, c);
        proof {
            assert(vv.channels[k as int].channel == c);
            assert forall|x: usize| #[trigger] cs@.contains(x) <==> exists|m: int|
                0 <= m < k + 1 && #[trigger] vv.channels[m].channel == x by {
                if exists|m: int| 0 <= m < k + 1 && #[trigger] vv.channels[m].channel == x {
                    let m = choose|m: int| 0 <= m < k + 1 && #[trigger] vv.channels[m].channel == x;
                    if m < k {
                        assert(before.contains(x));
                    }
                }
            }
        }
        k = k + 1;
    }
    proof {
        lemma_ordered_set(
            cs@,
            |c: usize| exists|m: int| 0 <= m < vv.channels.len() && #[trigger] vv.channels[m].channel == c,
            index_order(),
        );
    }
    Some((v.node_key.clone(), cs))
}


/// The node's levels on the listed channels it has, in the listed order.
pub open spec fn channel_levels(n: NodeModel, cs: Seq<usize>) -> Seq<Level> {
    cs.filter_map(
        |c: usize|
            if (c as int) < n.channel_volumes.len() {
                Some(n.channel_volumes[c as int])
            } else {
                None
            },
    )
}

/// The level a zone tile shows: the loudest of its channels on the node, or the node's
/// representative volume when it drives the whole node or none of its channels exist.
pub open spec fn representative(n: NodeModel, cs: Seq<usize>) -> Option<Level> {
    if cs.len() == 0 {
        n.volume
    } else {
        match loudest(channel_levels(n, cs)) {
            Some(m) => Some(m),
            None => n.volume,
        }
    }
}

/// The level a zone tile shows for a node and the zone's channels on it.
pub fn representative_volume(node: &NodeView, channels: &Vec<usize>) -> (r: Option<Level>)
    ensures
        r == representative(node@, channels@),
{
    if channels.len() == 0 {
        return node.volume;
    }
    let ghost nm = node@;
    let mut vals: Vec<Level> = Vec::new();
    let mut i: usize = 0;
    while i < channels.len()
        invariant
            nm == node@,
            i <= channels.len(),
            vals@ == channel_levels(nm, channels@.take(i as int)),
        decreases channels.len() - i,
    {
        let c = channels[i];
        proof {
            assert(channels@.take(i + 1).drop_last() =~= channels@.take(i as int));
            assert(channels@.take(i + 1).last() == c);
        }
        if c < node.channel_volumes.len() {
            let ghost prev = vals@;
            vals.push(node.channel_volumes[c]);
            proof {
                assert(vals@ =~= prev + seq![nm.channel_volumes[c as int]]);
            }
        }
        i = i + 1;
    }
    proof {
        assert(channels@.take(i as int) =~= channels@);
    }
    match loudest_level(&vals) {
        Some(m) => Some(m),
        None => node.volume,
    }
}

/// The node a zone's tile controls, if any: the first volume spec's node, else the node
/// behind the zone's first link.
pub open spec fn zone_volume_node(z: ZoneDefView, g: GraphModel) -> Option<Seq<char>> {
    ZoneDef::primary_node_of(z)
}

/// The channels of the volume node `p` that the tile reads: the channels the zone's
/// volume drives when it drives `p`, else none (the whole node).
pub open spec fn tile_channels(z: ZoneDefView, g: GraphModel, p: Seq<char>) -> Seq<usize> {
    match zone_target(z, g) {
        Some(t) => if t.0 == p {
            t.1
        } else {
            Seq::empty()
        },
        None => Seq::empty(),
    }
}

/// The live level a zone's tile shows: that of its volume node on the tile's channels;
/// none when the zone has no volume node or that node is absent.
pub open spec fn zone_level(z: ZoneDefView, g: GraphModel) -> Option<Level> {
    match zone_volume_node(z, g) {
        Some(p) => match first_match(g.nodes, keyed(p)) {
            Some(i) => representative(g.nodes[i], tile_channels(z, g, p)),
            None => None,
        },
        None => None,
    }
}

/// The live mute state a zone's tile shows: that of its volume node, false when it has
/// none or that node is absent.
pub open spec fn zone_muted(z: ZoneDefView, g: GraphModel) -> bool {
    match zone_volume_node(z, g) {
        Some(p) => match first_match(g.nodes, keyed(p)) {
            Some(i) => g.nodes[i].muted,
            None => false,
        },
        None => false,
    }
}

/// What clients see of a zone: its recipe, whether it is on, the ports it misses while
/// on (degraded when there are any), and its volume node's live level and mute.
pub open spec fn zone_view_of(store: ZoneStoreView, z: ZoneDefView, g: GraphModel) -> ZoneViewModel {
    let active = store.active.contains(z.name);
    let missing = if active {
        missing_keys(store, z.name, g)
    } else {
        Seq::empty()
    };
    ZoneViewModel {
        name: z.name,
        links: zone_link_pairs(z),
        active,
        degraded: missing.len() > 0,
        missing,
        volume_node: zone_volume_node(z, g),
        volume: zone_level(z, g),
        muted: zone_muted(z, g),
    }
}

/// The backend graph with the zone overlay.
pub open spec fn composed(store: ZoneStoreView, g: GraphModel) -> GraphModel {
    GraphModel { zones: store.zones.map_values(|z: ZoneDefView| zone_view_of(store, z, g)), ..g }
}

/// Builds the client view of one zone.
pub fn zone_view(store: &ZoneStore, z: &ZoneDef, g: &GraphState) -> (v: ZoneView)
    ensures
        v@ == zone_view_of(store@, z@, g@),
{
    let active = store.is_active(z.name.as_str());
    let missing = if active {
        missing_for_zone(store, z.name.as_str(), g)
    } else {
        Vec::new()
    };
    let mut links: Vec<LinkView> = Vec::new();
    let mut k: usize = 0;
    while k < z.links.len()
        invariant
            k <= z.links.len(),
            links@.map_values(|l: LinkView| l@) == zone_link_pairs(z@).take(k as int),
        decreases z.links.len() - k,
    {
        let l = &z.links[k];
        let ghost prev = links@.map_values(|l: LinkView| l@);
        links.push(LinkView { output_port: l.output_port.clone(), input_port: l.input_port.clone() });
        proof {
            assert(links@.map_values(|l: LinkView| l@) =~= prev.push((l.output_port@, l.input_port@)));
            assert(z@.links[k as int] == *l);
            assert(zone_link_pairs(z@).take(k + 1) =~= zone_link_pairs(z@).take(k as int).push(
                zone_link_pairs(z@)[k as int],
            ));
            assert(links@.map_values(|l: LinkView| l@) =~= zone_link_pairs(z@).take(k + 1));
        }
        k = k + 1;
    }
    proof {
        assert(zone_link_pairs(z@).take(k as int) =~= zone_link_pairs(z@));
    }
    let volume_node = z.primary_node();
    let (volume, muted) = match &volume_node {
        Some(p) => match find_node(&g.nodes, p.as_str()) {
            Some(i) => {
                let n = &g.nodes[i];
                let channels = match zone_volume_target(z, g) {
                    Some((k, cs)) => if str_eq(k.as_str(), p.as_str()) {
                        cs
                    } else {
                        Vec::new()
                    },
                    None => Vec::new(),
                };
                proof {
                    assert(channels@ == tile_channels(z@, g@, p@));
                }
                (representative_volume(n, &channels), n.muted)
            },
            None => (None, false),
        },
        None => (None, false),
    };
    let degraded = missing.len() > 0;
    let v = ZoneView {
        name: z.name.clone(),
        links,
        active,
        degraded,
        missing,
        volume_node,
        volume,
        muted,
    };
    proof {
        if !active {
            assert(v@.missing =~= Seq::<Seq<char>>::empty());
        }
    }
    v
}

/// The backend graph plus the zone overlay (active, degraded, missing, volume) that
/// clients see.
pub fn compose(store: &ZoneStore, graph: GraphState) -> (r: GraphState)
    ensures
        r@ == composed(store@, graph@),
{
    let mut g = graph;
    let mut zones: Vec<ZoneView> = Vec::new();
    let ghost zs = store@.zones;
    let mut i: usize = 0;
    while i < store.zones.len()
        invariant
            zs == store@.zones,
            g@ == graph@,
            i <= store.zones.len(),
            zones@.map_values(|v: ZoneView| v@) == zs.take(i as int).map_values(
                |z: ZoneDefView| zone_view_of(store@, z, graph@),
            ),
        decreases store.zones.len() - i,
    {
        let v = zone_view(store, &store.zones[i], &g);
        let ghost prev = zones@.map_values(|v: ZoneView| v@);
        zones.push(v);
        proof {
            assert(store.zones@[i as int]@ == zs[i as int]);
            assert(v@ == zone_view_of(store@, zs[i as int], graph@));
            assert(zones@.map_values(|v: ZoneView| v@) =~= prev.push(v@));
            assert(zs.take(i + 1) =~= zs.take(i as int).push(zs[i as int]));
            assert(zones@.map_values(|v: ZoneView| v@) =~= zs.take(i + 1).map_values(
                |z: ZoneDefView| zone_view_of(store@, z, graph@),
            ));
        }
        i = i + 1;
    }
    proof {
        assert(zs.take(i as int) =~= zs);
    }
    g.zones = zones;
    g
}

// ---- volume requests ----

/// What a volume request leads to once the zone store has taken it.
pub enum VolumePlan {
    /// An active zone holds the level: reconcile drives the backend to it.
    Reconcile,
    /// Apply these actions to the backend, in order.
    Direct(Vec<Action>),
}

/// The actions that set a node's level and, when given, its mute.
pub open spec fn direct_actions(key: Seq<char>, t: TargetModel, muted: Option<bool>) -> Seq<ActionModel> {
    seq![ActionModel::SetVolume(key, t)] + match muted {
        Some(m) => seq![ActionModel::SetMute(key, m)],
        None => Seq::empty(),
    }
}

/// The target of a level on a zone's channels: uniform when there is none.
pub open spec fn channels_target(channels: Seq<usize>, level: Level) -> TargetModel {
    if channels.len() == 0 {
        TargetModel::Uniform(level)
    } else {
        TargetModel::Channels(channels.map_values(|c: usize| (c, level)))
    }
}

/// The message for an unknown zone.
pub open spec fn no_zone_message(name: Seq<char>) -> Seq<char> {
    "no such zone: "@ + name
}

/// Builds the actions that set a node's level on `target` and, when given, its mute.
fn direct(key: &str, target: VolumeTarget, muted: Option<bool>) -> (r: Vec<Action>)
    ensures
        r@.map_values(|a: Action| a@) == direct_actions(key@, target@, muted),
{
    let mut acts: Vec<Action> = Vec::new();
    let ghost t = target@;
    acts.push(Action::SetVolume { node_key: String::from_str(key), target });
    match muted {
        Some(m) => {
            acts.push(Action::SetMute { node_key: String::from_str(key), muted: m });
        },
        None => {},
    }
    proof {
        assert(acts@.map_values(|a: Action| a@) =~= direct_actions(key@, t, muted));
    }
    acts
}

/// Takes a zone-volume request: the level goes on the channels the zone's links feed
/// at its destination node and is stored on the zone, so reconcile keeps it and it
/// survives a restart. An active zone is then reconciled; an inactive one, which
/// reconcile ignores, gets the change applied directly. An unknown zone is a 404 and a
/// zone with no controllable destination a 422, with the store unchanged.
pub fn zone_volume_plan(
    store: &mut ZoneStore,
    name: &str,
    g: &GraphState,
    level: Level,
    muted: Option<bool>,
) -> (r: Result<VolumePlan, ApiError>)
    ensures
        match zone_index(old(store)@.zones, name@) {
            None => {
                &&& final(store)@ == old(store)@
                &&& r matches Err(e) && e.status == NOT_FOUND && e.message@ == no_zone_message(name@)
            },
            Some(i) => match zone_target(old(store)@.zones[i], g@) {
                None => {
                    &&& final(store)@ == old(store)@
                    &&& r matches Err(e) && e.status == UNPROCESSABLE_ENTITY && e.message@
                        == "zone has no controllable destination"@
                },
                Some((key, channels)) => {
                    &&& final(store)@.version == old(store)@.version
                    &&& final(store)@.active == old(store)@.active
                    &&& final(store)@.zones == old(store)@.zones.update(
                        i,
                        ZoneDefView {
                            volumes: upserted(old(store)@.zones[i].volumes, key, channels, level, muted),
                            ..old(store)@.zones[i]
                        },
                    )
                    &&& if old(store)@.active.contains(name@) {
                        r matches Ok(VolumePlan::Reconcile)
                    } else {
                        r matches Ok(VolumePlan::Direct(acts)) && acts@.map_values(|a: Action| a@) == direct_actions(
                            key,
                            channels_target(channels, level),
                            muted,
                        )
                    }
                },
            },
        },
{
    let (key, channels) = match store.get(name) {
        None => {
            return Err(ApiError { status: NOT_FOUND, message: String::from_str("no such zone: ").concat(name) });
        },
        Some(zone) => match zone_volume_target(zone, g) {
            Some(t) => t,
            None => {
                return Err(
                    ApiError {
                        status: UNPROCESSABLE_ENTITY,
                        message: String::from_str("zone has no controllable destination"),
                    },
                );
            },
        },
    };
    let active = store.is_active(name);
    store.upsert_zone_volume(name, key.as_str(), &channels, level, muted);
    if active {
        Ok(VolumePlan::Reconcile)
    } else {
        let target = volume_target_for(&channels, level);
        Ok(VolumePlan::Direct(direct(key.as_str(), target, muted)))
    }
}

/// Takes a node-volume request: the level is stored on every active zone that has a
/// volume spec for the node, so reconcile keeps it. When some active zone governs the
/// node the store has changed and the plan is to reconcile; otherwise the store is as
/// it was and the change goes to the backend directly, as a uniform level.
pub fn node_volume_plan(store: &mut ZoneStore, key: &str, level: Level, muted: Option<bool>) -> (r: VolumePlan)
    ensures
        final(store)@.version == old(store)@.version,
        final(store)@.active == old(store)@.active,
        final(store)@.zones == old(store)@.zones.map_values(
            |z: ZoneDefView| zone_level_set(z, old(store)@.active, key@, level, muted),
        ),
        if governed_by_active_zone(old(store)@, key@) {
            r matches VolumePlan::Reconcile
        } else {
            r matches VolumePlan::Direct(acts) && acts@.map_values(|a: Action| a@) == direct_actions(
                key@,
                TargetModel::Uniform(level),
                muted,
            )
        },
{
    if store.set_node_volume(key, level, muted) {
        VolumePlan::Reconcile
    } else {
        VolumePlan::Direct(direct(key, VolumeTarget::Uniform(level), muted))
    }
}

} // verus!
