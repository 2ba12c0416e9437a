//! Properties of the PipeWire backend's model that span its operations.

use vstd::prelude::*;

use crate::backend::{channel_array, set_listed, span};
use crate::model::TargetModel;
use crate::pw_model::{
    after_global, after_removal, as_i32, graph_of, holds_id, ingested_node, live_links, node_index_for,
    port_ids_for, port_key_in, port_keyed_in, ports_of, prop_value, rec_key, route_at, route_for, route_keyed,
    route_stored, well_formed, ModelView, ObjectKind, PortRecView, RouteView,
};
use crate::search::{is_first_match, lemma_first_match_exists, lemma_first_match_found};
use crate::table::{has_id, id_index, lemma_id_index, lemma_id_index_at, lemma_upsert, lookup, upsert, without_id};
use crate::identity::port_key_of;
use crate::wire::{Level, LEVEL_FULL};

verus! {

/// Re-announcing a known node keeps the levels and mute the model has learned for it,
/// and its profile-device index unless the announcement carries a readable one.
pub proof fn reannounce_keeps_node_state(m: ModelView, id: u32, props: Seq<(String, String)>)
    requires
        well_formed(m),
        lookup(m.nodes, id) is Some,
    ensures
        ({
            let n = lookup(m.nodes, id).unwrap();
            let r = lookup(after_global(m, id, ObjectKind::Node, Some(props)).unwrap().nodes, id).unwrap();
            &&& r.channel_volumes == n.channel_volumes
            &&& r.muted == n.muted
            &&& r.card_profile_device == match as_i32(prop_value(props, "card.profile.device"@)) {
                Some(c) => Some(c),
                None => n.card_profile_device,
            }
        }),
{
    let n = lookup(m.nodes, id);
    lemma_upsert(m.nodes, id, ingested_node(props, n));
}

/// Re-announcing a known device keeps the hardware path the model has learned for it.
pub proof fn reannounce_keeps_device_path(m: ModelView, id: u32, props: Seq<(String, String)>)
    requires
        well_formed(m),
        lookup(m.devices, id) is Some,
    ensures
        lookup(after_global(m, id, ObjectKind::Device, Some(props)).unwrap().devices, id) == lookup(m.devices, id),
{
    lemma_upsert(m.devices, id, lookup(m.devices, id).unwrap());
}

proof fn lemma_push_then_without<V>(s: Seq<(u32, V)>, k: u32, v: V)
    requires
        id_index(s, k) is None,
    ensures
        upsert(s, k, v) == s.push((k, v)),
        without_id(s.push((k, v)), k) == s,
{
    lemma_id_index(s, k);
    let t = s.push((k, v));
    assert(is_first_match(t, has_id(k), s.len() as int));
    lemma_first_match_found(t, has_id(k), s.len() as int);
    assert(t.remove(s.len() as int) =~= s);
}

/// Announcing an object with a new id and then removing that id leaves the model as
/// it was.
pub proof fn announce_then_remove(m: ModelView, id: u32, kind: ObjectKind, props: Seq<(String, String)>)
    requires
        !holds_id(m, id),
        after_global(m, id, kind, Some(props)) is Some,
    ensures
        after_removal(after_global(m, id, kind, Some(props)).unwrap(), id) == m,
{
    let m2 = after_global(m, id, kind, Some(props)).unwrap();
    match kind {
        ObjectKind::Device => lemma_push_then_without(m.devices, id, None::<Seq<char>>),
        ObjectKind::Node => lemma_push_then_without(m.nodes, id, ingested_node(props, lookup(m.nodes, id))),
        ObjectKind::Port => lemma_push_then_without(m.ports, id, m2.ports.last().1),
        ObjectKind::Link => lemma_push_then_without(m.links, id, m2.links.last().1),
        ObjectKind::Other => {},
    }
}

proof fn lemma_set_listed_keeps(s: Seq<Level>, ps: Seq<(usize, Level)>, c: int)
    requires
        0 <= c < s.len(),
        forall|j: int| 0 <= j < ps.len() ==> ps[j].0 != c,
    ensures
        set_listed(s, ps).len() == s.len(),
        set_listed(s, ps)[c] == s[c],
    decreases ps.len(),
{
    if ps.len() > 0 {
        lemma_set_listed_keeps(s, ps.drop_last(), c);
        assert(ps.last().0 != c);
    }
}

/// Two volume changes written through the same device route, one after the other:
/// the route the second one finds is the one the first one wrote, and a second change
/// to other channels leaves each channel the first one set as it was. So zones that
/// share a device do not undo each other's levels.
pub proof fn route_writes_keep_other_channels(
    m: ModelView,
    key: Seq<char>,
    first: TargetModel,
    second: Seq<(usize, Level)>,
    c: int,
)
    requires
        well_formed(m),
        route_for(m, key) is Some,
        0 <= c < channel_array(first, route_for(m, key).unwrap().channel_volumes.len(), route_for(m, key).unwrap().channel_volumes).len(),
        forall|j: int| 0 <= j < second.len() ==> second[j].0 != c,
    ensures
        ({
            let rv = route_for(m, key).unwrap();
            let written = channel_array(first, rv.channel_volumes.len(), rv.channel_volumes);
            let m1 = ModelView { routes: route_stored(m.routes, RouteView { channel_volumes: written, ..rv }), ..m };
            &&& route_for(m1, key) == Some(RouteView { channel_volumes: written, ..rv })
            &&& channel_array(TargetModel::Channels(second), written.len(), written)[c] == written[c]
        }),
{
    let rv = route_for(m, key).unwrap();
    let written = channel_array(first, rv.channel_volumes.len(), rv.channel_volumes);
    let r1 = RouteView { channel_volumes: written, ..rv };
    let i = node_index_for(m, key).unwrap();
    let d = m.nodes[i].1.device_id.unwrap();
    let p = m.nodes[i].1.card_profile_device.unwrap();
    let j = route_at(m, d, p).unwrap();
    assert(is_first_match(m.routes, route_keyed(d, p), j));
    let rs = m.routes.update(j, r1);
    assert(route_stored(m.routes, r1) == rs);
    assert(is_first_match(rs, route_keyed(d, p), j));
    lemma_first_match_found(rs, route_keyed(d, p), j);
    let n = written.len();
    let top = if n > span(second) { n } else { span(second) };
    let base = Seq::new(top, |k: int| if k < written.len() { written[k] } else { LEVEL_FULL });
    lemma_set_listed_keeps(base, second, c);
}

proof fn lemma_ports_of_source(ports: Seq<(u32, PortRecView)>, id: u32, nk: Seq<char>, j: int)
    requires
        0 <= j < ports_of(ports, id, nk).len(),
    ensures
        exists|k: int|
            0 <= k < ports.len() && #[trigger] ports[k].1.node_id == id && ports_of(ports, id, nk)[j].key
                == port_key_of(nk, ports[k].1.name, ports[k].1.dir),
    decreases ports.len(),
{
    let rest = ports_of(ports.drop_last(), id, nk);
    if j < rest.len() {
        lemma_ports_of_source(ports.drop_last(), id, nk, j);
        let k = choose|k: int|
            0 <= k < ports.drop_last().len() && #[trigger] ports.drop_last()[k].1.node_id == id && rest[j].key
                == port_key_of(nk, ports.drop_last()[k].1.name, ports.drop_last()[k].1.dir);
        assert(ports[k] == ports.drop_last()[k]);
    } else {
        let k = ports.len() - 1;
        assert(ports[k].1.node_id == id);
    }
}

/// Every port key a snapshot of the model lists resolves back to a port id, so a link
/// asked for between ports a client saw can be made.
pub proof fn snapshot_ports_resolve(m: ModelView, i: int, j: int)
    requires
        well_formed(m),
        0 <= i < m.nodes.len(),
        0 <= j < graph_of(m).nodes[i].ports.len(),
    ensures
        port_ids_for(m, graph_of(m).nodes[i].ports[j].key) is Some,
{
    let id = m.nodes[i].0;
    let nk = rec_key(m.nodes[i].1);
    let key = graph_of(m).nodes[i].ports[j].key;
    assert(graph_of(m).nodes[i].ports == ports_of(m.ports, id, nk));
    lemma_ports_of_source(m.ports, id, nk, j);
    let k = choose|k: int|
        0 <= k < m.ports.len() && #[trigger] m.ports[k].1.node_id == id && ports_of(m.ports, id, nk)[j].key
            == port_key_of(nk, m.ports[k].1.name, m.ports[k].1.dir);
    lemma_id_index_at(m.ports, k);
    lemma_id_index_at(m.nodes, i);
    assert(port_key_in(m, m.ports[k].0) == Some(key));
    assert(port_keyed_in(m, key)(m.ports[k]));
    lemma_first_match_exists(m.ports, port_keyed_in(m, key), k);
}

proof fn lemma_live_links_source(m: ModelView, ls: Seq<(u32, (u32, u32))>, j: int)
    requires
        0 <= j < live_links(m, ls).len(),
    ensures
        exists|k: int|
            0 <= k < ls.len() && port_key_in(m, #[trigger] ls[k].1.0) == Some(live_links(m, ls)[j].0) && port_key_in(
                m,
                ls[k].1.1,
            ) == Some(live_links(m, ls)[j].1),
    decreases ls.len(),
{
    let rest = live_links(m, ls.drop_last());
    if j < rest.len() {
        lemma_live_links_source(m, ls.drop_last(), j);
        let k = choose|k: int|
            0 <= k < ls.drop_last().len() && port_key_in(m, #[trigger] ls.drop_last()[k].1.0) == Some(rest[j].0)
                && port_key_in(m, ls.drop_last()[k].1.1) == Some(rest[j].1);
        assert(ls[k] == ls.drop_last()[k]);
    } else {
        let k = ls.len() - 1;
        assert(port_key_in(m, ls[k].1.0) is Some);
    }
}

/// Both ends of every link a snapshot of the model lists resolve back to port ids, so
/// a client can ask to remove any link it saw.
pub proof fn snapshot_links_resolve(m: ModelView, j: int)
    requires
        well_formed(m),
        0 <= j < graph_of(m).links.len(),
    ensures
        port_ids_for(m, graph_of(m).links[j].0) is Some,
        port_ids_for(m, graph_of(m).links[j].1) is Some,
{
    let l = graph_of(m).links[j];
    lemma_live_links_source(m, m.links, j);
    let k = choose|k: int|
        0 <= k < m.links.len() && port_key_in(m, #[trigger] m.links[k].1.0) == Some(l.0) && port_key_in(
            m,
            m.links[k].1.1,
        ) == Some(l.1);
    let o = m.links[k].1.0;
    let t = m.links[k].1.1;
    lemma_id_index(m.ports, o);
    lemma_id_index(m.ports, t);
    let ko = id_index(m.ports, o).unwrap();
    let kt = id_index(m.ports, t).unwrap();
    lemma_id_index_at(m.ports, ko);
    lemma_id_index_at(m.ports, kt);
    assert(port_keyed_in(m, l.0)(m.ports[ko]));
    assert(port_keyed_in(m, l.1)(m.ports[kt]));
    lemma_first_match_exists(m.ports, port_keyed_in(m, l.0), ko);
    lemma_first_match_exists(m.ports, port_keyed_in(m, l.1), kt);
}

proof fn lemma_live_links_cover(m: ModelView, ls: Seq<(u32, (u32, u32))>, k: int)
    requires
        0 <= k < ls.len(),
        port_key_in(m, ls[k].1.0) is Some,
        port_key_in(m, ls[k].1.1) is Some,
    ensures
        live_links(m, ls).contains((port_key_in(m, ls[k].1.0).unwrap(), port_key_in(m, ls[k].1.1).unwrap())),
    decreases ls.len(),
{
    let init = ls.drop_last();
    let rest = live_links(m, init);
    let pair = (port_key_in(m, ls[k].1.0).unwrap(), port_key_in(m, ls[k].1.1).unwrap());
    if k < init.len() {
        assert(init[k] == ls[k]);
        lemma_live_links_cover(m, init, k);
        let j = choose|j: int| 0 <= j < rest.len() && rest[j] == pair;
        let r = live_links(m, ls);
        assert(r[j] == rest[j]);
    } else {
        let r = live_links(m, ls);
        assert(r[r.len() - 1] == pair);
    }
}

/// Every link of the model whose two ports both resolve to stable keys is in the
/// snapshot, whatever its place in the model: the snapshot lists all resolvable links,
/// not some of them.
pub proof fn resolvable_links_are_listed(m: ModelView, k: int)
    requires
        0 <= k < m.links.len(),
        port_key_in(m, m.links[k].1.0) is Some,
        port_key_in(m, m.links[k].1.1) is Some,
    ensures
        graph_of(m).links.contains((port_key_in(m, m.links[k].1.0).unwrap(), port_key_in(m, m.links[k].1.1).unwrap())),
{
    lemma_live_links_cover(m, m.links, k);
}

/// Every link the snapshot lists comes from a link of the model whose two ports
/// resolve to exactly those keys: the snapshot makes up no link.
pub proof fn listed_links_are_model_links(m: ModelView, j: int)
    requires
        0 <= j < graph_of(m).links.len(),
    ensures
        exists|k: int|
            0 <= k < m.links.len() && port_key_in(m, #[trigger] m.links[k].1.0) == Some(graph_of(m).links[j].0)
                && port_key_in(m, m.links[k].1.1) == Some(graph_of(m).links[j].1),
{
    lemma_live_links_source(m, m.links, j);
}

} // verus!
