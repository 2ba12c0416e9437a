//! Properties that span the library's operations, stated over their models and proved.

use vstd::prelude::*;

use crate::api::{channel_levels, claimed, link_key, orphaned, representative, self_loop};
use crate::backend::{
    channels_after, clamp_level, graph_after, loudest, other_than, overlay_channel, overlay_channels, volume_applied,
    without_link,
};
use crate::identity::port_key_of;
use crate::identity::port_key_names_its_node;
use crate::model::{
    active_zone, any_channel_off, channel_off, desired_of, link_actions, merge_volumes, needs_volume,
    reconcile_actions, spec_actions, target_of, volume_actions, wanted_volumes, zone_missing, ActionModel,
    DesiredModel, TargetModel, VOLUME_TOLERANCE,
};
use crate::search::{first_match, lemma_first_match_exists, lemma_first_match_found};
use crate::text::lacks;
use crate::wire::{keyed, Direction, GraphModel, Level, NodeModel, LEVEL_FULL};
use crate::zones::{
    for_node, governed_by_active_zone, named, renamed, upserted, without_name, without_zone, zone_index,
    zone_level_set, ChannelVolume, VolumeSpecView, ZoneDefView, ZoneStoreView,
};

verus! {

/// Every desired link other than a feedback link is live, and every desired volume spec
/// whose node is present is met by that node's level and mute state.
pub open spec fn satisfied(d: DesiredModel, g: GraphModel) -> bool {
    &&& forall|i: int|
        0 <= i < d.links.len() && !self_loop(d.links[i].0, d.links[i].1) ==> g.links.contains(#[trigger] d.links[i])
    &&& forall|i: int| 0 <= i < d.volumes.len() ==> #[trigger] spec_met(d.volumes[i], g)
}

/// The spec's node is absent, or present with a satisfying level and mute state.
pub open spec fn spec_met(v: VolumeSpecView, g: GraphModel) -> bool {
    match first_match(g.nodes, keyed(v.node_key)) {
        None => true,
        Some(i) => !needs_volume(g.nodes[i], v) && g.nodes[i].muted == v.muted,
    }
}

proof fn lemma_link_actions_empty(links: Seq<(Seq<char>, Seq<char>)>, live: Seq<(Seq<char>, Seq<char>)>)
    ensures
        link_actions(links, live).len() == 0 <==> forall|i: int|
            0 <= i < links.len() && !self_loop(links[i].0, links[i].1) ==> live.contains(#[trigger] links[i]),
    decreases links.len(),
{
    if links.len() > 0 {
        let init = links.drop_last();
        lemma_link_actions_empty(init, live);
        if forall|i: int| 0 <= i < links.len() && !self_loop(links[i].0, links[i].1) ==> live.contains(#[trigger] links[i]) {
            assert forall|i: int| 0 <= i < init.len() && !self_loop(init[i].0, init[i].1) implies live.contains(
                #[trigger] init[i],
            ) by {
                assert(init[i] == links[i]);
            }
            let l = links[links.len() - 1];
            if !self_loop(l.0, l.1) {
                assert(live.contains(links[links.len() - 1]));
            }
        }
        if link_actions(links, live).len() == 0 {
            assert forall|i: int| 0 <= i < links.len() && !self_loop(links[i].0, links[i].1) implies live.contains(
                #[trigger] links[i],
            ) by {
                if i < links.len() - 1 {
                    assert(init[i] == links[i]);
                }
            }
        }
    }
}

proof fn lemma_volume_actions_empty(vols: Seq<VolumeSpecView>, g: GraphModel)
    ensures
        volume_actions(vols, g.nodes).len() == 0 <==> forall|i: int| 0 <= i < vols.len() ==> #[trigger] spec_met(
            vols[i],
            g,
        ),
    decreases vols.len(),
{
    if vols.len() > 0 {
        let init = vols.drop_last();
        lemma_volume_actions_empty(init, g);
        if forall|i: int| 0 <= i < vols.len() ==> #[trigger] spec_met(vols[i], g) {
            assert forall|i: int| 0 <= i < init.len() implies #[trigger] spec_met(init[i], g) by {
                assert(init[i] == vols[i]);
            }
            assert(spec_met(vols[vols.len() - 1], g));
        }
        if volume_actions(vols, g.nodes).len() == 0 {
            assert forall|i: int| 0 <= i < vols.len() implies #[trigger] spec_met(vols[i], g) by {
                if i < vols.len() - 1 {
                    assert(init[i] == vols[i]);
                }
            }
        }
    }
}

/// Reconcile asks for nothing exactly when the graph already satisfies the desired
/// state: every desired link that is not a feedback link is live (feedback links are
/// never created) and every present node named by a desired volume spec has the wanted
/// level (within tolerance) and mute state.
pub proof fn reconcile_is_noop_iff_satisfied(d: DesiredModel, g: GraphModel)
    ensures
        reconcile_actions(d, g).len() == 0 <==> satisfied(d, g),
{
    lemma_link_actions_empty(d.links, g.links);
    lemma_volume_actions_empty(d.volumes, g);
}

proof fn lemma_link_actions_create(links: Seq<(Seq<char>, Seq<char>)>, live: Seq<(Seq<char>, Seq<char>)>)
    ensures
        forall|i: int| 0 <= i < link_actions(links, live).len() ==> #[trigger] link_actions(links, live)[i] is CreateLink,
        forall|i: int|
            0 <= i < link_actions(links, live).len() ==> (#[trigger] link_actions(links, live)[i] matches ActionModel::CreateLink(
                o,
                p,
            ) && !self_loop(o, p)),
    decreases links.len(),
{
    if links.len() > 0 {
        lemma_link_actions_create(links.drop_last(), live);
        let prev = link_actions(links.drop_last(), live);
        assert forall|i: int| 0 <= i < link_actions(links, live).len() implies (#[trigger] link_actions(links, live)[i] matches ActionModel::CreateLink(
            o,
            p,
        ) && !self_loop(o, p)) by {
            if i < prev.len() {
                assert(link_actions(links, live)[i] == prev[i]);
            }
        }
    }
}

/// Reconcile never creates a feedback link (one that loops a node into itself): such a
/// desired link is skipped.
pub proof fn reconcile_skips_feedback_links(d: DesiredModel, g: GraphModel)
    ensures
        forall|i: int|
            0 <= i < reconcile_actions(d, g).len() ==> (#[trigger] reconcile_actions(d, g)[i] matches ActionModel::CreateLink(
                o,
                p,
            ) ==> !self_loop(o, p)),
{
    lemma_link_actions_create(d.links, g.links);
    lemma_volume_actions_adjust(d.volumes, g);
    let la = link_actions(d.links, g.links);
    assert forall|i: int| 0 <= i < reconcile_actions(d, g).len() implies (#[trigger] reconcile_actions(d, g)[i] matches ActionModel::CreateLink(
        o,
        p,
    ) ==> !self_loop(o, p)) by {
        if i < la.len() {
            assert(reconcile_actions(d, g)[i] == la[i]);
        } else {
            assert(reconcile_actions(d, g)[i] == volume_actions(d.volumes, g.nodes)[i - la.len()]);
        }
    }
}

proof fn lemma_volume_actions_adjust(vols: Seq<VolumeSpecView>, g: GraphModel)
    ensures
        forall|i: int| 0 <= i < volume_actions(vols, g.nodes).len() ==> {
            let a = #[trigger] volume_actions(vols, g.nodes)[i];
            a is SetVolume || a is SetMute
        },
    decreases vols.len(),
{
    if vols.len() > 0 {
        lemma_volume_actions_adjust(vols.drop_last(), g);
    }
}

/// Reconcile only creates links and corrects volume and mute: it never destroys a link,
/// so links it did not make are left alone.
pub proof fn reconcile_never_destroys(d: DesiredModel, g: GraphModel)
    ensures
        forall|i: int| 0 <= i < reconcile_actions(d, g).len() ==> !(#[trigger] reconcile_actions(d, g)[i] is DestroyLink),
{
    lemma_link_actions_create(d.links, g.links);
    lemma_volume_actions_adjust(d.volumes, g);
    let la = link_actions(d.links, g.links);
    assert forall|i: int| 0 <= i < reconcile_actions(d, g).len() implies !(#[trigger] reconcile_actions(d, g)[i] is DestroyLink) by {
        if i < la.len() {
            assert(reconcile_actions(d, g)[i] == la[i]);
        } else {
            assert(reconcile_actions(d, g)[i] == volume_actions(d.volumes, g.nodes)[i - la.len()]);
        }
    }
}

/// No two specs name the same node.
pub open spec fn one_spec_per_node(vols: Seq<VolumeSpecView>) -> bool {
    forall|i: int, j: int| 0 <= i < j < vols.len() ==> #[trigger] vols[i].node_key != #[trigger] vols[j].node_key
}

proof fn lemma_merge_one_per_node(acc: Seq<VolumeSpecView>, vs: Seq<VolumeSpecView>)
    requires
        one_spec_per_node(acc),
    ensures
        one_spec_per_node(merge_volumes(acc, vs)),
    decreases vs.len(),
{
    if vs.len() > 0 {
        lemma_merge_one_per_node(acc, vs.drop_last());
        let prev = merge_volumes(acc, vs.drop_last());
        let key = vs.last().node_key;
        let pred = |e: VolumeSpecView| e.node_key != key;
        let f = prev.filter(pred);
        assert(one_spec_per_node(f)) by {
            crate::laws::lemma_filter_keeps_one_per_node(prev, pred);
        }
        assert forall|i: int| 0 <= i < f.len() implies #[trigger] f[i].node_key != key by {
            prev.lemma_filter_pred(pred, i);
        }
        let r = f.push(vs.last());
        assert forall|i: int, j: int| 0 <= i < j < r.len() implies #[trigger] r[i].node_key != #[trigger] r[j].node_key by {
            if j == r.len() - 1 {
                assert(r[i] == f[i]);
            } else {
                assert(r[i] == f[i] && r[j] == f[j]);
            }
        }
    }
}

proof fn lemma_filter_keeps_one_per_node(s: Seq<VolumeSpecView>, p: spec_fn(VolumeSpecView) -> bool)
    requires
        one_spec_per_node(s),
    ensures
        one_spec_per_node(s.filter(p)),
    decreases s.len(),
{
    reveal(Seq::filter);
    if s.len() > 0 {
        let init = s.drop_last();
        assert(one_spec_per_node(init)) by {
            assert forall|i: int, j: int| 0 <= i < j < init.len() implies #[trigger] init[i].node_key
                != #[trigger] init[j].node_key by {
                assert(init[i] == s[i] && init[j] == s[j]);
            }
        }
        lemma_filter_keeps_one_per_node(init, p);
        if p(s.last()) {
            let f = init.filter(p);
            assert forall|i: int| 0 <= i < f.len() implies #[trigger] f[i].node_key != s.last().node_key by {
                crate::laws::lemma_filter_member(init, p, i);
                let k = choose|k: int| 0 <= k < init.len() && init[k] == f[i];
                assert(s[k] == init[k]);
            }
            let r = f.push(s.last());
            assert forall|i: int, j: int| 0 <= i < j < r.len() implies #[trigger] r[i].node_key
                != #[trigger] r[j].node_key by {
                if j == r.len() - 1 {
                    assert(r[i] == f[i]);
                } else {
                    assert(r[i] == f[i] && r[j] == f[j]);
                }
            }
        }
    }
}

proof fn lemma_filter_member<A>(s: Seq<A>, p: spec_fn(A) -> bool, i: int)
    requires
        0 <= i < s.filter(p).len(),
    ensures
        exists|k: int| 0 <= k < s.len() && s[k] == s.filter(p)[i],
{
    s.lemma_filter_contains_rev(p, s.filter(p)[i]);
    assert(s.filter(p).contains(s.filter(p)[i]));
}

/// The merged volume specs of the active zones name each node at most once (a later
/// active zone's spec for a node replaces an earlier one).
pub proof fn desired_volumes_one_per_node(store: ZoneStoreView, n: nat)
    ensures
        one_spec_per_node(wanted_volumes(store, n)),
    decreases n,
{
    if n > 0 {
        desired_volumes_one_per_node(store, (n - 1) as nat);
        match active_zone(store, n - 1) {
            Some(z) => {
                lemma_merge_one_per_node(wanted_volumes(store, (n - 1) as nat), z.volumes);
            },
            None => {},
        }
    }
}


/// No two zones share a name.
pub open spec fn names_unique(zones: Seq<ZoneDefView>) -> bool {
    forall|i: int, j: int| 0 <= i < j < zones.len() ==> #[trigger] zones[i].name != #[trigger] zones[j].name
}

/// A zone added under a name no zone holds is what a lookup of that name finds, and
/// zone names stay unique.
pub proof fn added_zone_is_found(zones: Seq<ZoneDefView>, z: ZoneDefView)
    requires
        zone_index(zones, z.name) is None,
    ensures
        zone_index(zones.push(z), z.name) == Some(zones.len() as int),
        names_unique(zones) ==> names_unique(zones.push(z)),
{
    let s = zones.push(z);
    assert forall|j: int| 0 <= j < zones.len() implies !named(z.name)(#[trigger] s[j]) by {
        assert(s[j] == zones[j]);
        if named(z.name)(zones[j]) {
            lemma_first_match_exists(zones, named(z.name), j);
        }
    }
    lemma_first_match_found(s, named(z.name), zones.len() as int);
    if names_unique(zones) {
        assert forall|i: int, j: int| 0 <= i < j < s.len() implies #[trigger] s[i].name != #[trigger] s[j].name by {
            if j == zones.len() {
                assert(!named(z.name)(s[i]));
            } else {
                assert(s[i] == zones[i] && s[j] == zones[j]);
            }
        }
    }
}

/// After a zone is removed, no lookup of its name finds a zone and it is not active;
/// zone names stay unique.
pub proof fn removed_zone_is_gone(zones: Seq<ZoneDefView>, active: Seq<Seq<char>>, name: Seq<char>)
    ensures
        zone_index(without_zone(zones, name), name) is None,
        !without_name(active, name).contains(name),
        names_unique(zones) ==> names_unique(without_zone(zones, name)),
{
    let f = without_zone(zones, name);
    let pz = |z: ZoneDefView| z.name != name;
    assert forall|j: int| 0 <= j < f.len() implies !named(name)(#[trigger] f[j]) by {
        zones.lemma_filter_pred(pz, j);
    }
    if zone_index(f, name) is Some {
        let j = zone_index(f, name).unwrap();
        let k = choose|k: int| crate::search::is_first_match(f, named(name), k);
        assert(named(name)(f[k]));
    }
    let g = without_name(active, name);
    let pn = |n: Seq<char>| n != name;
    if g.contains(name) {
        let j = choose|j: int| 0 <= j < g.len() && g[j] == name;
        active.lemma_filter_pred(pn, j);
    }
    if names_unique(zones) {
        crate::laws::lemma_filter_names_unique(zones, pz);
    }
}

proof fn lemma_filter_names_unique(s: Seq<ZoneDefView>, p: spec_fn(ZoneDefView) -> bool)
    requires
        names_unique(s),
    ensures
        names_unique(s.filter(p)),
    decreases s.len(),
{
    reveal(Seq::filter);
    if s.len() > 0 {
        let init = s.drop_last();
        assert(names_unique(init)) by {
            assert forall|i: int, j: int| 0 <= i < j < init.len() implies #[trigger] init[i].name
                != #[trigger] init[j].name by {
                assert(init[i] == s[i] && init[j] == s[j]);
            }
        }
        lemma_filter_names_unique(init, p);
        if p(s.last()) {
            let f = init.filter(p);
            assert forall|i: int| 0 <= i < f.len() implies #[trigger] f[i].name != s.last().name by {
                lemma_filter_member(init, p, i);
                let k = choose|k: int| 0 <= k < init.len() && init[k] == f[i];
                assert(s[k] == init[k]);
            }
            let r = f.push(s.last());
            assert forall|i: int, j: int| 0 <= i < j < r.len() implies #[trigger] r[i].name != #[trigger] r[j].name by {
                if j == r.len() - 1 {
                    assert(r[i] == f[i]);
                } else {
                    assert(r[i] == f[i] && r[j] == f[j]);
                }
            }
        }
    }
}

/// A zone edit that keeps the name or moves to a name no zone holds keeps names unique,
/// and an active zone stays active under its new name.
pub proof fn updated_zone_keeps_names_unique(
    zones: Seq<ZoneDefView>,
    active: Seq<Seq<char>>,
    i: int,
    z: ZoneDefView,
)
    requires
        0 <= i < zones.len(),
        names_unique(zones),
        z.name == zones[i].name || zone_index(zones, z.name) is None,
    ensures
        names_unique(zones.update(i, z)),
        active.contains(zones[i].name) ==> renamed(active, zones[i].name, z.name).contains(z.name),
{
    let s = zones.update(i, z);
    assert forall|a: int, b: int| 0 <= a < b < s.len() implies #[trigger] s[a].name != #[trigger] s[b].name by {
        if a == i || b == i {
            let o = if a == i { b } else { a };
            if z.name != zones[i].name {
                if named(z.name)(zones[o]) {
                    lemma_first_match_exists(zones, named(z.name), o);
                }
            }
        }
    }
    if active.contains(zones[i].name) {
        let j = choose|j: int| 0 <= j < active.len() && active[j] == zones[i].name;
        assert(renamed(active, zones[i].name, z.name)[j] == z.name);
    }
}

/// Turning a zone on makes it active; turning it off makes it inactive; turning on an
/// active zone changes nothing.
pub proof fn set_active_takes_effect(active: Seq<Seq<char>>, name: Seq<char>, on: bool)
    ensures
        ({
            let after = if on && !active.contains(name) {
                active.push(name)
            } else if !on && active.contains(name) {
                without_name(active, name)
            } else {
                active
            };
            after.contains(name) == on
        }),
{
    if on && !active.contains(name) {
        assert(active.push(name)[active.len() as int] == name);
    }
    if !on && active.contains(name) {
        let g = without_name(active, name);
        let pn = |n: Seq<char>| n != name;
        if g.contains(name) {
            let j = choose|j: int| 0 <= j < g.len() && g[j] == name;
            active.lemma_filter_pred(pn, j);
        }
    }
}

/// A link between ports of two nodes is a feedback loop exactly when the two nodes are
/// the same (for node keys without `#`).
pub proof fn self_loop_iff_same_node(
    n1: Seq<char>,
    p1: Seq<char>,
    d1: Direction,
    n2: Seq<char>,
    p2: Seq<char>,
    d2: Direction,
)
    requires
        lacks(n1, '#'),
        lacks(n2, '#'),
    ensures
        self_loop(port_key_of(n1, p1, d1), port_key_of(n2, p2, d2)) <==> n1 == n2,
{
    port_key_names_its_node(n1, p1, d1);
    port_key_names_its_node(n2, p2, d2);
}

/// Creating a link makes it live, creating it again changes nothing, and destroying it
/// afterwards leaves it not live.
pub proof fn link_create_destroy(g: GraphModel, o: Seq<char>, i: Seq<char>)
    ensures
        graph_after(g, ActionModel::CreateLink(o, i)).unwrap().links.contains((o, i)),
        graph_after(graph_after(g, ActionModel::CreateLink(o, i)).unwrap(), ActionModel::CreateLink(o, i))
            == graph_after(g, ActionModel::CreateLink(o, i)),
        !graph_after(
            graph_after(g, ActionModel::CreateLink(o, i)).unwrap(),
            ActionModel::DestroyLink(o, i),
        ).unwrap().links.contains((o, i)),
{
    let g1 = graph_after(g, ActionModel::CreateLink(o, i)).unwrap();
    if !g.links.contains((o, i)) {
        assert(g1.links[g.links.len() as int] == (o, i));
    }
    let f = without_link(g1.links, (o, i));
    if f.contains((o, i)) {
        let j = choose|j: int| 0 <= j < f.len() && f[j] == (o, i);
        g1.links.lemma_filter_pred(other_than((o, i)), j);
    }
}


/// The graph after applying actions in order; a refused action leaves it unchanged.
pub open spec fn apply_all(g: GraphModel, acts: Seq<ActionModel>) -> GraphModel
    decreases acts.len(),
{
    if acts.len() == 0 {
        g
    } else {
        let prev = apply_all(g, acts.drop_last());
        match graph_after(prev, acts.last()) {
            Some(next) => next,
            None => prev,
        }
    }
}

proof fn lemma_apply_one(g: GraphModel, a: ActionModel)
    ensures
        apply_all(g, seq![a]) == match graph_after(g, a) {
            Some(next) => next,
            None => g,
        },
{
    assert(seq![a].drop_last() =~= Seq::<ActionModel>::empty());
    assert(apply_all(g, Seq::<ActionModel>::empty()) == g);
}

proof fn lemma_apply_all_concat(g: GraphModel, a: Seq<ActionModel>, b: Seq<ActionModel>)
    ensures
        apply_all(g, a + b) == apply_all(apply_all(g, a), b),
    decreases b.len(),
{
    if b.len() == 0 {
        assert(a + b =~= a);
    } else {
        lemma_apply_all_concat(g, a, b.drop_last());
        assert((a + b).drop_last() =~= a + b.drop_last());
        assert((a + b).last() == b.last());
    }
}

/// Applying the link creations keeps the nodes, keeps every live link, and makes every
/// desired link live.
proof fn lemma_link_phase(g: GraphModel, links: Seq<(Seq<char>, Seq<char>)>)
    ensures
        apply_all(g, link_actions(links, g.links)).nodes == g.nodes,
        forall|x: (Seq<char>, Seq<char>)| #[trigger] g.links.contains(x) ==> apply_all(g, link_actions(links, g.links)).links.contains(x),
        forall|i: int|
            0 <= i < links.len() && !self_loop(links[i].0, links[i].1) ==> apply_all(g, link_actions(links, g.links)).links.contains(
                #[trigger] links[i],
            ),
    decreases links.len(),
{
    if links.len() > 0 {
        let init = links.drop_last();
        lemma_link_phase(g, init);
        let la = link_actions(init, g.links);
        let g1 = apply_all(g, la);
        let l = links.last();
        if g.links.contains(l) || self_loop(l.0, l.1) {
            assert(link_actions(links, g.links) =~= la);
        } else {
            let act = ActionModel::CreateLink(l.0, l.1);
            assert(link_actions(links, g.links) == la + seq![act]);
            lemma_apply_all_concat(g, la, seq![act]);
            lemma_apply_one(g1, act);
            let g2 = graph_after(g1, act).unwrap();
            assert forall|x: (Seq<char>, Seq<char>)| g1.links.contains(x) implies #[trigger] g2.links.contains(x) by {
                if !g1.links.contains((l.0, l.1)) {
                    let j = choose|j: int| 0 <= j < g1.links.len() && g1.links[j] == x;
                    assert(g2.links[j] == x);
                }
            }
            if !g1.links.contains((l.0, l.1)) {
                assert(g2.links[g1.links.len() as int] == l);
            }
        }
        let gf = apply_all(g, link_actions(links, g.links));
        assert forall|i: int| 0 <= i < links.len() && !self_loop(links[i].0, links[i].1) implies gf.links.contains(
            #[trigger] links[i],
        ) by {
            if i < links.len() - 1 {
                assert(init[i] == links[i]);
                assert(g1.links.contains(init[i]));
            }
        }
    }
}

/// The node a spec's actions leave: level corrected when needed, then mute.
pub open spec fn fixed_node(n: NodeModel, v: VolumeSpecView) -> NodeModel {
    let n1 = if needs_volume(n, v) {
        volume_applied(n, target_of(v).unwrap())
    } else {
        n
    };
    if n.muted != v.muted {
        NodeModel { muted: v.muted, ..n1 }
    } else {
        n1
    }
}

/// Node sequences with the same keys at the same positions.
pub open spec fn same_keys(a: Seq<NodeModel>, b: Seq<NodeModel>) -> bool {
    a.len() == b.len() && forall|j: int| 0 <= j < a.len() ==> #[trigger] a[j].key == b[j].key
}

proof fn lemma_same_keys_find(a: Seq<NodeModel>, b: Seq<NodeModel>, k: Seq<char>)
    requires
        same_keys(a, b),
    ensures
        first_match(a, keyed(k)) == first_match(b, keyed(k)),
{
    match first_match(a, keyed(k)) {
        Some(j) => {
            crate::laws::lemma_first_match_props(a, keyed(k));
            assert forall|m: int| 0 <= m < j implies !keyed(k)(#[trigger] b[m]) by {
                assert(!keyed(k)(a[m]));
            }
            lemma_first_match_found(b, keyed(k), j);
        },
        None => {
            if first_match(b, keyed(k)) is Some {
                crate::laws::lemma_first_match_props(b, keyed(k));
                let j = first_match(b, keyed(k)).unwrap();
                assert(keyed(k)(a[j]));
                lemma_first_match_exists(a, keyed(k), j);
            }
        },
    }
}

proof fn lemma_first_match_props<A>(s: Seq<A>, p: spec_fn(A) -> bool)
    requires
        first_match(s, p) is Some,
    ensures
        crate::search::is_first_match(s, p, first_match(s, p).unwrap()),
{
}

/// A spec's levels are within full scale and its channels are listed once each.
pub open spec fn attainable_spec(v: VolumeSpecView) -> bool {
    &&& match v.volume {
        Some(x) => 0 <= x <= LEVEL_FULL,
        None => true,
    }
    &&& forall|k: int| 0 <= k < v.channels.len() ==> 0 <= #[trigger] v.channels[k].volume <= LEVEL_FULL
    &&& forall|a: int, b: int| 0 <= a < b < v.channels.len() ==> #[trigger] v.channels[a].channel
        != #[trigger] v.channels[b].channel
}

/// A desired state that can be met: one spec per node, each attainable.
pub open spec fn attainable(d: DesiredModel) -> bool {
    &&& one_spec_per_node(d.volumes)
    &&& forall|i: int| 0 <= i < d.volumes.len() ==> #[trigger] attainable_spec(d.volumes[i])
}

/// `n` copies of `x`.
pub open spec fn constant_levels(n: nat, x: Level) -> Seq<Level> {
    Seq::new(n, |k: int| x)
}

proof fn lemma_loudest_constant(n: nat, x: Level)
    requires
        n > 0,
    ensures
        loudest(constant_levels(n, x)) == Some(x),
    decreases n,
{
    let s = constant_levels(n, x);
    if n > 1 {
        lemma_loudest_constant((n - 1) as nat, x);
        assert(s.drop_last() =~= constant_levels((n - 1) as nat, x));
        assert(loudest(s.drop_last()) == Some(x));
        assert(s.last() == x);
    } else {
        assert(s.drop_last() =~= Seq::<Level>::empty());
        assert(loudest(s.drop_last()) == None::<Level>);
        assert(s.last() == x);
    }
}

proof fn lemma_needs_volume_levels(a: NodeModel, b: NodeModel, v: VolumeSpecView)
    requires
        a.volume == b.volume,
        a.channel_volumes == b.channel_volumes,
    ensures
        needs_volume(a, v) == needs_volume(b, v),
{
    match target_of(v) {
        Some(TargetModel::Channels(ps)) => {
            if any_channel_off(a, ps) {
                let k = choose|k: int| 0 <= k < ps.len() && #[trigger] channel_off(a, ps[k].0, ps[k].1);
                assert(channel_off(b, ps[k].0, ps[k].1));
            }
            if any_channel_off(b, ps) {
                let k = choose|k: int| 0 <= k < ps.len() && #[trigger] channel_off(b, ps[k].0, ps[k].1);
                assert(channel_off(a, ps[k].0, ps[k].1));
            }
        },
        _ => {},
    }
}

proof fn lemma_overlay_sets(s: Seq<Level>, ps: Seq<(usize, Level)>)
    requires
        forall|a: int, b: int| 0 <= a < b < ps.len() ==> #[trigger] ps[a].0 != #[trigger] ps[b].0,
    ensures
        forall|k: int| 0 <= k < ps.len() ==> (#[trigger] ps[k]).0 < overlay_channels(s, ps).len()
            && overlay_channels(s, ps)[ps[k].0 as int] == clamp_level(ps[k].1),
        overlay_channels(s, ps).len() >= s.len(),
    decreases ps.len(),
{
    if ps.len() > 0 {
        let init = ps.drop_last();
        assert forall|a: int, b: int| 0 <= a < b < init.len() implies #[trigger] init[a].0 != #[trigger] init[b].0 by {
            assert(init[a] == ps[a] && init[b] == ps[b]);
        }
        lemma_overlay_sets(s, init);
        let prev = overlay_channels(s, init);
        let last = ps.last();
        let r = overlay_channel(prev, last.0, last.1);
        assert forall|k: int| 0 <= k < ps.len() implies (#[trigger] ps[k]).0 < r.len() && r[ps[k].0 as int]
            == clamp_level(ps[k].1) by {
            if k < ps.len() - 1 {
                assert(init[k] == ps[k]);
                assert(ps[k].0 != last.0);
                let grown = if last.0 >= prev.len() {
                    prev + Seq::new((last.0 + 1 - prev.len()) as nat, |j: int| 0 as Level)
                } else {
                    prev
                };
                assert(grown[ps[k].0 as int] == prev[ps[k].0 as int]);
            }
        }
    }
}

proof fn lemma_fixed_meets(n: NodeModel, v: VolumeSpecView)
    requires
        attainable_spec(v),
    ensures
        !needs_volume(fixed_node(n, v), v),
        fixed_node(n, v).muted == v.muted,
        fixed_node(n, v).key == n.key,
{
    let n1 = if needs_volume(n, v) {
        volume_applied(n, target_of(v).unwrap())
    } else {
        n
    };
    assert(!needs_volume(n1, v)) by {
        if needs_volume(n, v) {
            match target_of(v) {
                Some(TargetModel::Uniform(x)) => {
                    let len: nat = if n.channel_volumes.len() > 1 { n.channel_volumes.len() } else { 1 };
                    assert(channels_after(n.channel_volumes, TargetModel::Uniform(x)) =~= constant_levels(len, clamp_level(x)));
                    lemma_loudest_constant(len, clamp_level(x));
                    assert(clamp_level(x) == x);
                },
                Some(TargetModel::Channels(ps)) => {
                    assert(ps == v.channels.map_values(|c: ChannelVolume| (c.channel, c.volume)));
                    assert forall|a: int, b: int| 0 <= a < b < ps.len() implies #[trigger] ps[a].0 != #[trigger] ps[b].0 by {
                        assert(ps[a].0 == v.channels[a].channel && ps[b].0 == v.channels[b].channel);
                    }
                    lemma_overlay_sets(n.channel_volumes, ps);
                    assert forall|k: int| 0 <= k < ps.len() implies !#[trigger] channel_off(n1, ps[k].0, ps[k].1) by {
                        assert(ps[k].1 == v.channels[k].volume);
                        assert(clamp_level(ps[k].1) == ps[k].1);
                        assert(n1.channel_volumes == overlay_channels(n.channel_volumes, ps));
                    }
                    assert(!any_channel_off(n1, ps));
                },
                None => {},
            }
        }
    }
    lemma_needs_volume_levels(fixed_node(n, v), n1, v);
}

/// Applying the volume actions of the first `m` specs, computed against the nodes `n0`,
/// to a graph whose nodes are `n0`: the nodes named by those specs are fixed, the rest
/// untouched, links and keys unchanged.
proof fn lemma_volume_phase(g: GraphModel, vols: Seq<VolumeSpecView>, m: int)
    requires
        0 <= m <= vols.len(),
        one_spec_per_node(vols),
    ensures
        ({
            let gm = apply_all(g, volume_actions(vols.take(m), g.nodes));
            &&& gm.links == g.links
            &&& same_keys(gm.nodes, g.nodes)
            &&& forall|k: int| 0 <= k < m ==> match #[trigger] first_match(g.nodes, keyed(vols[k].node_key)) {
                Some(j) => gm.nodes[j] == fixed_node(g.nodes[j], vols[k]),
                None => true,
            }
            &&& forall|j: int| 0 <= j < g.nodes.len() && (forall|k: int| 0 <= k < m ==> #[trigger] first_match(
                g.nodes,
                keyed(vols[k].node_key),
            ) != Some(j)) ==> gm.nodes[j] == g.nodes[j]
        }),
    decreases m,
{
    let n0 = g.nodes;
    if m == 0 {
        assert(vols.take(0) =~= Seq::<VolumeSpecView>::empty());
        assert(same_keys(n0, n0));
    } else {
        lemma_volume_phase(g, vols, m - 1);
        let prev_acts = volume_actions(vols.take(m - 1), n0);
        let gp = apply_all(g, prev_acts);
        let v = vols[m - 1];
        assert(vols.take(m).drop_last() =~= vols.take(m - 1));
        assert(vols.take(m).last() == v);
        let sa = spec_actions(v, n0);
        assert(volume_actions(vols.take(m), n0) == prev_acts + sa);
        lemma_apply_all_concat(g, prev_acts, sa);
        let gm = apply_all(gp, sa);
        lemma_same_keys_find(gp.nodes, n0, v.node_key);
        match first_match(n0, keyed(v.node_key)) {
            None => {
                assert(sa =~= Seq::<ActionModel>::empty());
                assert(gm == gp);
            },
            Some(j) => {
                lemma_first_match_props(n0, keyed(v.node_key));
                assert forall|k: int| 0 <= k < m - 1 implies #[trigger] first_match(n0, keyed(vols[k].node_key))
                    != Some(j) by {
                    assert(vols[k].node_key != v.node_key);
                    if first_match(n0, keyed(vols[k].node_key)) == Some(j) {
                        lemma_first_match_props(n0, keyed(vols[k].node_key));
                    }
                }
                assert(gp.nodes[j] == n0[j]);
                let need = needs_volume(n0[j], v);
                let mute = n0[j].muted != v.muted;
                let a1: Seq<ActionModel> = if need {
                    seq![ActionModel::SetVolume(v.node_key, target_of(v).unwrap())]
                } else {
                    Seq::empty()
                };
                let a2: Seq<ActionModel> = if mute {
                    seq![ActionModel::SetMute(v.node_key, v.muted)]
                } else {
                    Seq::empty()
                };
                assert(sa == a1 + a2);
                lemma_apply_all_concat(gp, a1, a2);
                let g1 = apply_all(gp, a1);
                let n1 = if need {
                    volume_applied(n0[j], target_of(v).unwrap())
                } else {
                    n0[j]
                };
                assert(g1 == GraphModel { nodes: gp.nodes.update(j, n1), ..gp }) by {
                    if need {
                        lemma_apply_one(gp, ActionModel::SetVolume(v.node_key, target_of(v).unwrap()));
                    } else {
                        assert(a1 =~= Seq::<ActionModel>::empty());
                        assert(gp.nodes.update(j, n1) =~= gp.nodes);
                    }
                }
                assert(same_keys(g1.nodes, n0));
                lemma_same_keys_find(g1.nodes, n0, v.node_key);
                assert(gm == GraphModel { nodes: gp.nodes.update(j, fixed_node(n0[j], v)), ..gp }) by {
                    if mute {
                        lemma_apply_one(g1, ActionModel::SetMute(v.node_key, v.muted));
                        assert(g1.nodes.update(j, NodeModel { muted: v.muted, ..g1.nodes[j] }) =~= gp.nodes.update(
                            j,
                            fixed_node(n0[j], v),
                        ));
                    } else {
                        assert(a2 =~= Seq::<ActionModel>::empty());
                        assert(g1.nodes =~= gp.nodes.update(j, fixed_node(n0[j], v)));
                    }
                }
            },
        }
        let gm2 = apply_all(g, volume_actions(vols.take(m), n0));
        assert(gm2 == gm);
        assert forall|k: int| 0 <= k < m implies match #[trigger] first_match(n0, keyed(vols[k].node_key)) {
            Some(j) => gm.nodes[j] == fixed_node(n0[j], vols[k]),
            None => true,
        } by {
            if k < m - 1 {
                match first_match(n0, keyed(vols[k].node_key)) {
                    Some(jk) => {
                        if first_match(n0, keyed(v.node_key)) == Some(jk) {
                            lemma_first_match_props(n0, keyed(v.node_key));
                            lemma_first_match_props(n0, keyed(vols[k].node_key));
                            assert(vols[k].node_key != v.node_key);
                        }
                    },
                    None => {},
                }
            }
        }
    }
}

/// Reconcile drives the graph to the desired state: applying the actions it emits, in
/// order, to the in-memory graph yields a graph on which reconcile asks for nothing.
/// This holds for any desired state with one spec per node, levels within full scale
/// and each channel listed once.
pub proof fn reconcile_converges(d: DesiredModel, g: GraphModel)
    requires
        attainable(d),
    ensures
        reconcile_actions(d, apply_all(g, reconcile_actions(d, g))).len() == 0,
{
    let la = link_actions(d.links, g.links);
    let va = volume_actions(d.volumes, g.nodes);
    lemma_apply_all_concat(g, la, va);
    lemma_link_phase(g, d.links);
    let g1 = apply_all(g, la);
    assert(va == volume_actions(d.volumes, g1.nodes));
    lemma_volume_phase(g1, d.volumes, d.volumes.len() as int);
    assert(d.volumes.take(d.volumes.len() as int) =~= d.volumes);
    let gf = apply_all(g1, va);
    assert forall|i: int| 0 <= i < d.volumes.len() implies #[trigger] spec_met(d.volumes[i], gf) by {
        let v = d.volumes[i];
        lemma_same_keys_find(gf.nodes, g1.nodes, v.node_key);
        match first_match(g1.nodes, keyed(v.node_key)) {
            Some(j) => {
                assert(gf.nodes[j] == fixed_node(g1.nodes[j], v));
                lemma_fixed_meets(g1.nodes[j], v);
            },
            None => {},
        }
    }
    assert forall|i: int| 0 <= i < d.links.len() && !self_loop(d.links[i].0, d.links[i].1) implies gf.links.contains(
        #[trigger] d.links[i],
    ) by {
        assert(g1.links.contains(d.links[i]));
    }
    reconcile_is_noop_iff_satisfied(d, gf);
}


proof fn lemma_merge_from(acc: Seq<VolumeSpecView>, vs: Seq<VolumeSpecView>)
    ensures
        forall|i: int| 0 <= i < merge_volumes(acc, vs).len() ==> acc.contains(#[trigger] merge_volumes(acc, vs)[i])
            || vs.contains(merge_volumes(acc, vs)[i]),
    decreases vs.len(),
{
    if vs.len() > 0 {
        let init = vs.drop_last();
        lemma_merge_from(acc, init);
        let prev = merge_volumes(acc, init);
        let key = vs.last().node_key;
        let pred = |e: VolumeSpecView| e.node_key != key;
        let f = prev.filter(pred);
        let r = f.push(vs.last());
        assert forall|i: int| 0 <= i < r.len() implies acc.contains(#[trigger] r[i]) || vs.contains(r[i]) by {
            if i == r.len() - 1 {
                assert(vs[vs.len() - 1] == r[i]);
            } else {
                lemma_filter_member(prev, pred, i);
                let k = choose|k: int| 0 <= k < prev.len() && prev[k] == f[i];
                assert(r[i] == prev[k]);
                if init.contains(prev[k]) {
                    let m = choose|m: int| 0 <= m < init.len() && init[m] == prev[k];
                    assert(vs[m] == init[m]);
                }
            }
        }
    }
}

/// Every volume spec of every zone is attainable.
pub open spec fn zones_attainable(store: ZoneStoreView) -> bool {
    forall|i: int, j: int|
        0 <= i < store.zones.len() && 0 <= j < store.zones[i].volumes.len() ==> #[trigger] attainable_spec(
            store.zones[i].volumes[j],
        )
}

/// The desired state of a store whose zones' volume specs are all attainable is itself
/// attainable, so reconcile drives the graph to it (see [`reconcile_converges`]).
pub proof fn desired_is_attainable(store: ZoneStoreView, n: nat)
    requires
        zones_attainable(store),
        n <= store.active.len(),
    ensures
        one_spec_per_node(wanted_volumes(store, n)),
        forall|i: int| 0 <= i < wanted_volumes(store, n).len() ==> #[trigger] attainable_spec(wanted_volumes(store, n)[i]),
    decreases n,
{
    desired_volumes_one_per_node(store, n);
    if n > 0 {
        desired_is_attainable(store, (n - 1) as nat);
        let prev = wanted_volumes(store, (n - 1) as nat);
        match active_zone(store, n - 1) {
            Some(z) => {
                let zi = zone_index(store.zones, store.active[n - 1]).unwrap();
                lemma_merge_from(prev, z.volumes);
                let w = wanted_volumes(store, n);
                assert forall|i: int| 0 <= i < w.len() implies #[trigger] attainable_spec(w[i]) by {
                    if prev.contains(w[i]) {
                        let k = choose|k: int| 0 <= k < prev.len() && prev[k] == w[i];
                        assert(attainable_spec(prev[k]));
                    } else {
                        let k = choose|k: int| 0 <= k < z.volumes.len() && z.volumes[k] == w[i];
                        assert(attainable_spec(store.zones[zi].volumes[k]));
                    }
                }
            },
            None => {},
        }
    }
}

/// The store after a node-wide level change on `key`: every active zone's specs for
/// that node take the level (what a node-volume request stores).
pub open spec fn node_volume_stored(store: ZoneStoreView, key: Seq<char>, level: Level, muted: Option<bool>) -> ZoneStoreView {
    ZoneStoreView {
        zones: store.zones.map_values(|z: ZoneDefView| zone_level_set(z, store.active, key, level, muted)),
        ..store
    }
}

/// A spec, if it is for `key`, carries the node-wide level `level` (and the mute state,
/// when one is given).
pub open spec fn carries_level(v: VolumeSpecView, key: Seq<char>, level: Level, muted: Option<bool>) -> bool {
    v.node_key == key ==> {
        &&& v.volume == Some(level)
        &&& v.channels.len() == 0
        &&& (muted matches Some(m) ==> v.muted == m)
    }
}

/// The zone an active name refers to in the changed store is the changed zone.
proof fn lemma_active_zone_level_set(store: ZoneStoreView, key: Seq<char>, level: Level, muted: Option<bool>, a: int)
    requires
        0 <= a < store.active.len(),
    ensures
        match active_zone(node_volume_stored(store, key, level, muted), a) {
            Some(z2) => forall|j: int|
                0 <= j < z2.volumes.len() ==> #[trigger] carries_level(z2.volumes[j], key, level, muted),
            None => true,
        },
{
    let s2 = node_volume_stored(store, key, level, muted);
    let name = store.active[a];
    if let Some(i) = zone_index(s2.zones, name) {
        lemma_first_match_props(s2.zones, named(name));
        let z = store.zones[i];
        assert(s2.zones[i] == zone_level_set(z, store.active, key, level, muted));
        assert(z.name == name);
        assert(store.active.contains(z.name));
    }
}

/// A node-volume request on a node is what reconcile then holds it to: every volume
/// spec for that node in the desired state of the changed store carries the new level
/// (and the new mute state, when one was given), so no active zone's older level for
/// the node can undo the request.
pub proof fn node_volume_is_kept(store: ZoneStoreView, key: Seq<char>, level: Level, muted: Option<bool>, n: nat)
    requires
        n <= store.active.len(),
    ensures
        forall|i: int|
            0 <= i < wanted_volumes(node_volume_stored(store, key, level, muted), n).len() ==> #[trigger] carries_level(
                wanted_volumes(node_volume_stored(store, key, level, muted), n)[i],
                key,
                level,
                muted,
            ),
    decreases n,
{
    let s2 = node_volume_stored(store, key, level, muted);
    if n > 0 {
        node_volume_is_kept(store, key, level, muted, (n - 1) as nat);
        let prev = wanted_volumes(s2, (n - 1) as nat);
        lemma_active_zone_level_set(store, key, level, muted, n - 1);
        match active_zone(s2, n - 1) {
            Some(z2) => {
                lemma_merge_from(prev, z2.volumes);
                let w = wanted_volumes(s2, n);
                assert forall|i: int| 0 <= i < w.len() implies #[trigger] carries_level(w[i], key, level, muted) by {
                    if prev.contains(w[i]) {
                        let k = choose|k: int| 0 <= k < prev.len() && prev[k] == w[i];
                        assert(carries_level(prev[k], key, level, muted));
                    } else {
                        let k = choose|k: int| 0 <= k < z2.volumes.len() && z2.volumes[k] == w[i];
                        assert(carries_level(z2.volumes[k], key, level, muted));
                    }
                }
            },
            None => {},
        }
    }
}

/// Some spec in `vs` is for `key`.
pub open spec fn names_node(vs: Seq<VolumeSpecView>, key: Seq<char>) -> bool {
    exists|i: int| 0 <= i < vs.len() && #[trigger] vs[i].node_key == key
}

proof fn lemma_merge_names_node(acc: Seq<VolumeSpecView>, vs: Seq<VolumeSpecView>, key: Seq<char>)
    requires
        names_node(acc, key) || names_node(vs, key),
    ensures
        names_node(merge_volumes(acc, vs), key),
    decreases vs.len(),
{
    if vs.len() > 0 {
        let init = vs.drop_last();
        let prev = merge_volumes(acc, init);
        let pred = |e: VolumeSpecView| e.node_key != vs.last().node_key;
        let r = prev.filter(pred).push(vs.last());
        if vs.last().node_key == key {
            assert(r[r.len() - 1].node_key == key);
        } else {
            if names_node(vs, key) {
                let j = choose|j: int| 0 <= j < vs.len() && #[trigger] vs[j].node_key == key;
                assert(init[j] == vs[j]);
            }
            lemma_merge_names_node(acc, init, key);
            let i = choose|i: int| 0 <= i < prev.len() && #[trigger] prev[i].node_key == key;
            prev.lemma_filter_contains(pred, i);
            let k = choose|k: int| 0 <= k < prev.filter(pred).len() && prev.filter(pred)[k] == prev[i];
            assert(r[k] == prev[i]);
        }
    }
}

proof fn lemma_wanted_names_node(store: ZoneStoreView, key: Seq<char>, a: int, n: nat)
    requires
        0 <= a < n <= store.active.len(),
        active_zone(store, a) matches Some(z) && names_node(z.volumes, key),
    ensures
        names_node(wanted_volumes(store, n), key),
    decreases n,
{
    let prev = wanted_volumes(store, (n - 1) as nat);
    if a < n - 1 {
        lemma_wanted_names_node(store, key, a, (n - 1) as nat);
    }
    match active_zone(store, n - 1) {
        Some(z) => lemma_merge_names_node(prev, z.volumes, key),
        None => {},
    }
}

/// A node-volume request on a node that an active zone governs is what reconcile then
/// re-asserts: the desired state of the changed store has a volume spec for the node,
/// and every spec it has for the node carries the new level (and the new mute state,
/// when one was given). Zone names are unique, as the store keeps them.
pub proof fn node_volume_is_reasserted(store: ZoneStoreView, key: Seq<char>, level: Level, muted: Option<bool>)
    requires
        names_unique(store.zones),
        governed_by_active_zone(store, key),
    ensures
        names_node(desired_of(node_volume_stored(store, key, level, muted)).volumes, key),
        forall|i: int|
            0 <= i < desired_of(node_volume_stored(store, key, level, muted)).volumes.len()
                ==> #[trigger] carries_level(
                desired_of(node_volume_stored(store, key, level, muted)).volumes[i],
                key,
                level,
                muted,
            ),
{
    let s2 = node_volume_stored(store, key, level, muted);
    node_volume_is_kept(store, key, level, muted, store.active.len());
    let (zi, j) = choose|i: int, j: int|
        0 <= i < store.zones.len() && store.active.contains(store.zones[i].name) && 0 <= j
            < store.zones[i].volumes.len() && #[trigger] store.zones[i].volumes[j].node_key == key;
    let a = choose|a: int| 0 <= a < store.active.len() && store.active[a] == store.zones[zi].name;
    let name = store.active[a];
    assert(s2.zones[zi] == zone_level_set(store.zones[zi], store.active, key, level, muted));
    assert(named(name)(s2.zones[zi]));
    assert forall|k: int| 0 <= k < zi implies !#[trigger] named(name)(s2.zones[k]) by {
        assert(s2.zones[k].name == store.zones[k].name);
    }
    lemma_first_match_found(s2.zones, named(name), zi);
    assert(s2.zones[zi].volumes[j].node_key == key);
    lemma_wanted_names_node(s2, key, a, s2.active.len());
}

/// The store after a zone-volume change on the zone `name` (what a zone-volume request
/// stores).
pub open spec fn zone_volume_stored(
    store: ZoneStoreView,
    name: Seq<char>,
    key: Seq<char>,
    channels: Seq<usize>,
    level: Level,
    muted: Option<bool>,
) -> ZoneStoreView {
    match zone_index(store.zones, name) {
        Some(i) => ZoneStoreView {
            zones: store.zones.update(
                i,
                ZoneDefView { volumes: upserted(store.zones[i].volumes, key, channels, level, muted), ..store.zones[i] },
            ),
            ..store
        },
        None => store,
    }
}

/// A spec, if it is for `key`, carries the zone level on the given channels (uniform
/// when there is none).
pub open spec fn carries_zone_level(v: VolumeSpecView, key: Seq<char>, channels: Seq<usize>, level: Level) -> bool {
    v.node_key == key ==> {
        &&& v.volume == if channels.len() == 0 {
            Some(level)
        } else {
            None
        }
        &&& v.channels == channels.map_values(|c: usize| ChannelVolume { channel: c, volume: level })
    }
}

/// `vs` holds at most one spec for `key`.
pub open spec fn at_most_one_for(vs: Seq<VolumeSpecView>, key: Seq<char>) -> bool {
    forall|j: int, k: int| 0 <= j < vs.len() && 0 <= k < vs.len() && vs[j].node_key == key && vs[k].node_key == key ==> j == k
}

/// No active zone other than the `i`-th has a spec for `key`.
pub open spec fn only_zone_for(store: ZoneStoreView, i: int, key: Seq<char>) -> bool {
    forall|k: int|
        0 <= k < store.zones.len() && k != i && store.active.contains(#[trigger] store.zones[k].name) ==> !names_node(
            store.zones[k].volumes,
            key,
        )
}

proof fn lemma_first_match_same<A, B>(s: Seq<A>, p: spec_fn(A) -> bool, t: Seq<B>, q: spec_fn(B) -> bool)
    requires
        s.len() == t.len(),
        forall|k: int| 0 <= k < s.len() ==> p(#[trigger] s[k]) == q(t[k]),
    ensures
        first_match(s, p) == first_match(t, q),
{
    if let Some(i) = first_match(s, p) {
        lemma_first_match_props(s, p);
        assert(q(t[i]));
        assert forall|k: int| 0 <= k < i implies !#[trigger] q(t[k]) by {
            assert(!p(s[k]));
        }
        lemma_first_match_found(t, q, i);
    } else if let Some(i) = first_match(t, q) {
        lemma_first_match_props(t, q);
        assert(p(s[i]));
        lemma_first_match_exists(s, p, i);
    }
}

/// The specs of the changed zone: the one for `key` carries the zone level.
proof fn lemma_upserted_carries(
    vs: Seq<VolumeSpecView>,
    key: Seq<char>,
    channels: Seq<usize>,
    level: Level,
    muted: Option<bool>,
)
    requires
        at_most_one_for(vs, key),
    ensures
        forall|k: int|
            0 <= k < upserted(vs, key, channels, level, muted).len() ==> #[trigger] carries_zone_level(
                upserted(vs, key, channels, level, muted)[k],
                key,
                channels,
                level,
            ),
        names_node(upserted(vs, key, channels, level, muted), key),
{
    let u = upserted(vs, key, channels, level, muted);
    match first_match(vs, for_node(key)) {
        Some(j) => {
            lemma_first_match_props(vs, for_node(key));
            assert(u[j].node_key == key);
        },
        None => {
            assert forall|k: int| 0 <= k < vs.len() implies vs[k].node_key != key by {
                if vs[k].node_key == key {
                    lemma_first_match_exists(vs, for_node(key), k);
                }
            }
            assert(u[vs.len() as int].node_key == key);
        },
    }
}

/// Every spec for `key` among the first `n` active zones' merged specs carries the zone
/// level, in the changed store.
proof fn lemma_zone_volume_kept(
    store: ZoneStoreView,
    i: int,
    key: Seq<char>,
    channels: Seq<usize>,
    level: Level,
    muted: Option<bool>,
    n: nat,
)
    requires
        names_unique(store.zones),
        0 <= i < store.zones.len(),
        n <= store.active.len(),
        at_most_one_for(store.zones[i].volumes, key),
        only_zone_for(store, i, key),
    ensures
        ({
            let s2 = zone_volume_stored(store, store.zones[i].name, key, channels, level, muted);
            forall|k: int| 0 <= k < wanted_volumes(s2, n).len() ==> #[trigger] carries_zone_level(wanted_volumes(s2, n)[k], key, channels, level)
        }),
    decreases n,
{
    let name = store.zones[i].name;
    assert(named(name)(store.zones[i]));
    assert forall|k: int| 0 <= k < i implies !#[trigger] named(name)(store.zones[k]) by {}
    lemma_first_match_found(store.zones, named(name), i);
    let s2 = zone_volume_stored(store, name, key, channels, level, muted);
    if n > 0 {
        lemma_zone_volume_kept(store, i, key, channels, level, muted, (n - 1) as nat);
        let prev = wanted_volumes(s2, (n - 1) as nat);
        let nm = store.active[n - 1];
        lemma_first_match_same(s2.zones, named(nm), store.zones, named(nm));
        match active_zone(s2, n - 1) {
            Some(z2) => {
                let zi = zone_index(s2.zones, nm).unwrap();
                lemma_first_match_props(s2.zones, named(nm));
                if zi == i {
                    lemma_upserted_carries(store.zones[i].volumes, key, channels, level, muted);
                } else {
                    assert(s2.zones[zi] == store.zones[zi]);
                    assert(store.active.contains(store.zones[zi].name));
                    assert(!names_node(store.zones[zi].volumes, key));
                }
                assert forall|k: int| 0 <= k < z2.volumes.len() implies #[trigger] carries_zone_level(
                    z2.volumes[k],
                    key,
                    channels,
                    level,
                ) by {
                    if zi != i {
                        assert(z2.volumes[k] == store.zones[zi].volumes[k]);
                    }
                }
                lemma_merge_from(prev, z2.volumes);
                let w = wanted_volumes(s2, n);
                assert forall|k: int| 0 <= k < w.len() implies #[trigger] carries_zone_level(w[k], key, channels, level) by {
                    if prev.contains(w[k]) {
                        let m = choose|m: int| 0 <= m < prev.len() && prev[m] == w[k];
                        assert(carries_zone_level(prev[m], key, channels, level));
                    } else {
                        let m = choose|m: int| 0 <= m < z2.volumes.len() && z2.volumes[m] == w[k];
                        assert(carries_zone_level(z2.volumes[m], key, channels, level));
                    }
                }
            },
            None => {},
        }
    }
}

/// A zone-volume request on an active zone is what reconcile then re-asserts: the
/// desired state of the changed store has a volume spec for the zone's node, and every
/// spec it has for that node carries the zone's new level on the zone's channels. This
/// holds when the zone is the only active zone with a spec for that node and has at most
/// one spec for it; zone names are unique, as the store keeps them.
pub proof fn zone_volume_is_reasserted(
    store: ZoneStoreView,
    i: int,
    key: Seq<char>,
    channels: Seq<usize>,
    level: Level,
    muted: Option<bool>,
)
    requires
        names_unique(store.zones),
        0 <= i < store.zones.len(),
        store.active.contains(store.zones[i].name),
        at_most_one_for(store.zones[i].volumes, key),
        only_zone_for(store, i, key),
    ensures
        ({
            let d = desired_of(zone_volume_stored(store, store.zones[i].name, key, channels, level, muted));
            &&& names_node(d.volumes, key)
            &&& forall|k: int| 0 <= k < d.volumes.len() ==> #[trigger] carries_zone_level(d.volumes[k], key, channels, level)
        }),
{
    let name = store.zones[i].name;
    let s2 = zone_volume_stored(store, name, key, channels, level, muted);
    lemma_zone_volume_kept(store, i, key, channels, level, muted, store.active.len());
    assert(named(name)(store.zones[i]));
    assert forall|k: int| 0 <= k < i implies !#[trigger] named(name)(store.zones[k]) by {}
    lemma_first_match_found(store.zones, named(name), i);
    lemma_first_match_same(s2.zones, named(name), store.zones, named(name));
    let a = choose|a: int| 0 <= a < store.active.len() && store.active[a] == name;
    lemma_upserted_carries(store.zones[i].volumes, key, channels, level, muted);
    assert(active_zone(s2, a) == Some(s2.zones[i]));
    lemma_wanted_names_node(s2, key, a, s2.active.len());
}

/// The active-name list after turning the zone `name` on or off: what `set_active`
/// leaves when a zone of that name exists.
pub open spec fn active_after(active: Seq<Seq<char>>, name: Seq<char>, on: bool) -> Seq<Seq<char>> {
    if on && !active.contains(name) {
        active.push(name)
    } else if !on && active.contains(name) {
        without_name(active, name)
    } else {
        active
    }
}

/// No name occurs twice in the active list, and each names a zone of the store.
pub open spec fn active_list_sound(store: ZoneStoreView) -> bool {
    &&& forall|i: int, j: int| 0 <= i < j < store.active.len() ==> #[trigger] store.active[i] != #[trigger] store.active[j]
    &&& forall|i: int| 0 <= i < store.active.len() ==> zone_index(store.zones, #[trigger] store.active[i]) is Some
}

proof fn lemma_without_name_sound(names: Seq<Seq<char>>, name: Seq<char>)
    requires
        forall|i: int, j: int| 0 <= i < j < names.len() ==> #[trigger] names[i] != #[trigger] names[j],
    ensures
        forall|i: int, j: int|
            0 <= i < j < without_name(names, name).len() ==> #[trigger] without_name(names, name)[i]
                != #[trigger] without_name(names, name)[j],
        forall|x: Seq<char>| #[trigger] without_name(names, name).contains(x) <==> (names.contains(x) && x != name),
    decreases names.len(),
{
    reveal(Seq::filter);
    let pn = |n: Seq<char>| n != name;
    if names.len() > 0 {
        let init = names.drop_last();
        assert forall|i: int, j: int| 0 <= i < j < init.len() implies #[trigger] init[i] != #[trigger] init[j] by {
            assert(init[i] == names[i] && init[j] == names[j]);
        }
        lemma_without_name_sound(init, name);
        let f = without_name(init, name);
        assert(without_name(names, name) == if pn(names.last()) {
            f.push(names.last())
        } else {
            f
        });
        assert forall|x: Seq<char>| #[trigger] names.contains(x) <==> (init.contains(x) || x == names.last()) by {
            if names.contains(x) {
                let k = choose|k: int| 0 <= k < names.len() && names[k] == x;
                if k < init.len() {
                    assert(init[k] == x);
                }
            }
            if init.contains(x) {
                let k = choose|k: int| 0 <= k < init.len() && init[k] == x;
                assert(names[k] == x);
            }
            if x == names.last() {
                assert(names[names.len() - 1] == x);
            }
        }
        if pn(names.last()) {
            let r = f.push(names.last());
            assert(!init.contains(names.last())) by {
                if init.contains(names.last()) {
                    let k = choose|k: int| 0 <= k < init.len() && init[k] == names.last();
                    assert(names[k] == names[names.len() - 1]);
                }
            }
            assert forall|i: int, j: int| 0 <= i < j < r.len() implies #[trigger] r[i] != #[trigger] r[j] by {
                if j == r.len() - 1 {
                    assert(r[i] == f[i]);
                    assert(f.contains(f[i]));
                } else {
                    assert(r[i] == f[i] && r[j] == f[j]);
                }
            }
            assert forall|x: Seq<char>| #[trigger] r.contains(x) <==> (names.contains(x) && x != name) by {
                if r.contains(x) {
                    let k = choose|k: int| 0 <= k < r.len() && r[k] == x;
                    if k < f.len() {
                        assert(f[k] == x);
                        assert(f.contains(x));
                    }
                }
                if names.contains(x) && x != name {
                    if x == names.last() {
                        assert(r[r.len() - 1] == x);
                    } else {
                        assert(f.contains(x));
                        let k = choose|k: int| 0 <= k < f.len() && f[k] == x;
                        assert(r[k] == x);
                    }
                }
            }
        }
    } else {
        assert(without_name(names, name) =~= names);
    }
}

/// Turning a zone on or off keeps the active list sound: no name twice, each naming a
/// zone. Only that zone's entry changes: the other names stay, in their order. The zone
/// is active afterwards exactly when it was turned on, and turning it the same way again
/// changes nothing. (For a name no zone holds, `set_active` fails and changes nothing.)
pub proof fn set_active_keeps_active_list(store: ZoneStoreView, name: Seq<char>, on: bool)
    requires
        active_list_sound(store),
        zone_index(store.zones, name) is Some,
    ensures
        ({
            let after = ZoneStoreView { active: active_after(store.active, name, on), ..store };
            &&& active_list_sound(after)
            &&& after.active.contains(name) == on
            &&& without_name(after.active, name) == without_name(store.active, name)
            &&& active_after(after.active, name, on) == after.active
        }),
{
    let a = store.active;
    let after = ZoneStoreView { active: active_after(a, name, on), ..store };
    set_active_takes_effect(a, name, on);
    lemma_without_name_sound(a, name);
    if on && !a.contains(name) {
        let b = a.push(name);
        assert forall|i: int, j: int| 0 <= i < j < b.len() implies #[trigger] b[i] != #[trigger] b[j] by {
            if j == b.len() - 1 {
                assert(b[i] == a[i]);
                assert(a.contains(a[i]));
            } else {
                assert(b[i] == a[i] && b[j] == a[j]);
            }
        }
        assert forall|i: int| 0 <= i < b.len() implies zone_index(store.zones, #[trigger] b[i]) is Some by {
            if i < a.len() {
                assert(b[i] == a[i]);
            }
        }
        reveal(Seq::filter);
        assert(b.drop_last() =~= a);
        assert(without_name(b, name) == without_name(a, name));
    } else if !on && a.contains(name) {
        let b = without_name(a, name);
        assert forall|i: int| 0 <= i < b.len() implies zone_index(store.zones, #[trigger] b[i]) is Some by {
            assert(b.contains(b[i]));
            let k = choose|k: int| 0 <= k < a.len() && a[k] == b[i];
        }
        lemma_without_absent(b, name);
    }
}

/// Filtering out a name that is absent gives the sequence back.
proof fn lemma_without_absent(b: Seq<Seq<char>>, name: Seq<char>)
    requires
        !b.contains(name),
    ensures
        without_name(b, name) == b,
    decreases b.len(),
{
    reveal(Seq::filter);
    if b.len() > 0 {
        let init = b.drop_last();
        assert(!init.contains(name)) by {
            if init.contains(name) {
                let k = choose|k: int| 0 <= k < init.len() && init[k] == name;
                assert(b[k] == name);
            }
        }
        lemma_without_absent(init, name);
        assert(b.last() != name) by {
            assert(b[b.len() - 1] == b.last());
        }
        assert(b =~= init.push(b.last()));
    }
}

// ---- what a zone tile shows, what reconcile corrects, what counts as missing or orphaned ----

proof fn lemma_loudest_is_max(s: Seq<Level>)
    requires
        s.len() > 0,
    ensures
        loudest(s) is Some,
        forall|k: int| 0 <= k < s.len() ==> #[trigger] s[k] <= loudest(s).unwrap(),
        s.contains(loudest(s).unwrap()),
    decreases s.len(),
{
    let init = s.drop_last();
    if init.len() > 0 {
        lemma_loudest_is_max(init);
        let m = loudest(init).unwrap();
        let j = choose|j: int| 0 <= j < init.len() && init[j] == m;
        assert(s[j] == m);
        assert forall|k: int| 0 <= k < s.len() implies #[trigger] s[k] <= loudest(s).unwrap() by {
            if k < init.len() {
                assert(s[k] == init[k]);
            }
        }
    } else {
        assert(s[s.len() - 1] == s.last());
    }
}

proof fn lemma_channel_levels(n: NodeModel, cs: Seq<usize>)
    ensures
        forall|k: int|
            0 <= k < cs.len() && (cs[k] as int) < n.channel_volumes.len() ==> channel_levels(n, cs).contains(
                #[trigger] n.channel_volumes[cs[k] as int],
            ),
        forall|x: Level| #[trigger] channel_levels(n, cs).contains(x) ==> exists|k: int|
            0 <= k < cs.len() && (cs[k] as int) < n.channel_volumes.len() && #[trigger] n.channel_volumes[cs[k] as int] == x,
    decreases cs.len(),
{
    if cs.len() > 0 {
        let init = cs.drop_last();
        lemma_channel_levels(n, init);
        let prev = channel_levels(n, init);
        let c = cs.last();
        let r = channel_levels(n, cs);
        assert(r == if (c as int) < n.channel_volumes.len() {
            prev + seq![n.channel_volumes[c as int]]
        } else {
            prev
        });
        assert forall|k: int|
            0 <= k < cs.len() && (cs[k] as int) < n.channel_volumes.len() implies r.contains(
                #[trigger] n.channel_volumes[cs[k] as int],
            ) by {
            if k < init.len() {
                assert(init[k] == cs[k]);
                let j = choose|j: int| 0 <= j < prev.len() && prev[j] == n.channel_volumes[init[k] as int];
                assert(r[j] == prev[j]);
            } else {
                assert(r[r.len() - 1] == n.channel_volumes[c as int]);
            }
        }
        assert forall|x: Level| #[trigger] r.contains(x) implies exists|k: int|
            0 <= k < cs.len() && (cs[k] as int) < n.channel_volumes.len() && #[trigger] n.channel_volumes[cs[k] as int]
                == x by {
            let j = choose|j: int| 0 <= j < r.len() && r[j] == x;
            if j < prev.len() {
                assert(r[j] == prev[j]);
                assert(prev.contains(x));
                let k = choose|k: int|
                    0 <= k < init.len() && (init[k] as int) < n.channel_volumes.len() && #[trigger] n.channel_volumes[init[k] as int]
                        == x;
                assert(cs[k] == init[k]);
            } else {
                assert(cs[cs.len() - 1] == c);
            }
        }
    }
}

/// A zone tile on some of a node's channels shows the loudest of them: when one of the
/// listed channels exists on the node, the level is one of those channels' levels and
/// no listed channel is louder. With no channel listed it is the node's own level.
pub proof fn tile_level_is_loudest_channel(n: NodeModel, cs: Seq<usize>)
    ensures
        cs.len() == 0 ==> representative(n, cs) == n.volume,
        (exists|k: int| 0 <= k < cs.len() && (cs[k] as int) < n.channel_volumes.len()) ==> {
            &&& representative(n, cs) is Some
            &&& forall|k: int|
                0 <= k < cs.len() && (cs[k] as int) < n.channel_volumes.len() ==> #[trigger] n.channel_volumes[cs[k] as int]
                    <= representative(n, cs).unwrap()
            &&& exists|k: int|
                0 <= k < cs.len() && (cs[k] as int) < n.channel_volumes.len() && #[trigger] n.channel_volumes[cs[k] as int]
                    == representative(n, cs).unwrap()
        },
{
    lemma_channel_levels(n, cs);
    if exists|k: int| 0 <= k < cs.len() && (cs[k] as int) < n.channel_volumes.len() {
        let k0 = choose|k: int| 0 <= k < cs.len() && (cs[k] as int) < n.channel_volumes.len();
        let lv = channel_levels(n, cs);
        assert(lv.contains(n.channel_volumes[cs[k0] as int]));
        lemma_loudest_is_max(lv);
        let m = loudest(lv).unwrap();
        assert(representative(n, cs) == Some(m));
        assert forall|k: int|
            0 <= k < cs.len() && (cs[k] as int) < n.channel_volumes.len() implies #[trigger] n.channel_volumes[cs[k] as int]
                <= m by {
            assert(lv.contains(n.channel_volumes[cs[k] as int]));
            let j = choose|j: int| 0 <= j < lv.len() && lv[j] == n.channel_volumes[cs[k] as int];
        }
        assert(lv.contains(m));
    }
}

proof fn lemma_volume_actions_hold(vols: Seq<VolumeSpecView>, g: GraphModel, j: int, a: ActionModel)
    requires
        0 <= j < vols.len(),
        spec_actions(vols[j], g.nodes).contains(a),
    ensures
        volume_actions(vols, g.nodes).contains(a),
    decreases vols.len(),
{
    let init = vols.drop_last();
    let prev = volume_actions(init, g.nodes);
    let last = spec_actions(vols.last(), g.nodes);
    assert(volume_actions(vols, g.nodes) == prev + last);
    if j < init.len() {
        assert(init[j] == vols[j]);
        lemma_volume_actions_hold(init, g, j, a);
        let i = choose|i: int| 0 <= i < prev.len() && prev[i] == a;
        assert((prev + last)[i] == a);
    } else {
        let i = choose|i: int| 0 <= i < last.len() && last[i] == a;
        assert((prev + last)[prev.len() + i] == a);
    }
}

/// Reconcile corrects a uniform level that is off by more than the tolerance in either
/// direction: for a desired spec asking a present node for level `x` while the node is
/// at `cur`, with `cur` above or below `x` by more than the tolerance, reconcile emits a
/// `SetVolume` of `x` for that node.
pub proof fn reconcile_corrects_level_either_way(d: DesiredModel, g: GraphModel, j: int, cur: Level)
    requires
        0 <= j < d.volumes.len(),
        d.volumes[j].channels.len() == 0,
        d.volumes[j].volume is Some,
        first_match(g.nodes, keyed(d.volumes[j].node_key)) is Some,
        g.nodes[first_match(g.nodes, keyed(d.volumes[j].node_key)).unwrap()].volume == Some(cur),
        cur - d.volumes[j].volume.unwrap() > VOLUME_TOLERANCE || d.volumes[j].volume.unwrap() - cur > VOLUME_TOLERANCE,
    ensures
        reconcile_actions(d, g).contains(
            ActionModel::SetVolume(d.volumes[j].node_key, TargetModel::Uniform(d.volumes[j].volume.unwrap())),
        ),
{
    let v = d.volumes[j];
    let a = ActionModel::SetVolume(v.node_key, TargetModel::Uniform(v.volume.unwrap()));
    let sa = spec_actions(v, g.nodes);
    assert(sa[0] == a);
    lemma_volume_actions_hold(d.volumes, g, j, a);
    let la = link_actions(d.links, g.links);
    let va = volume_actions(d.volumes, g.nodes);
    let i = choose|i: int| 0 <= i < va.len() && va[i] == a;
    assert((la + va)[la.len() + i] == a);
}

/// A port that some present node of the graph offers, at whatever position, is never
/// reported missing for any zone.
pub proof fn offered_port_is_not_missing(store: ZoneStoreView, name: Seq<char>, g: GraphModel, i: int, j: int)
    requires
        0 <= i < g.nodes.len(),
        g.nodes[i].present,
        0 <= j < g.nodes[i].ports.len(),
    ensures
        !zone_missing(store, name, g, g.nodes[i].ports[j].key),
{
}

/// A link that a remaining zone lists, at whatever position, is never torn down when
/// another zone drops it: it is not orphaned, so it is not among the links a zone edit
/// or delete removes from the graph.
pub proof fn claimed_link_is_not_torn_down(
    removed: Seq<(Seq<char>, Seq<char>)>,
    live: Seq<(Seq<char>, Seq<char>)>,
    zones: Seq<ZoneDefView>,
    i: int,
    k: int,
)
    requires
        0 <= i < zones.len(),
        0 <= k < zones[i].links.len(),
    ensures
        !orphaned(live, zones)(link_key(zones[i].links[k])),
        !removed.filter(orphaned(live, zones)).contains(link_key(zones[i].links[k])),
{
    let p = link_key(zones[i].links[k]);
    assert(claimed(zones, p));
    let f = removed.filter(orphaned(live, zones));
    if f.contains(p) {
        let j = choose|j: int| 0 <= j < f.len() && f[j] == p;
        removed.lemma_filter_pred(orphaned(live, zones), j);
    }
}

proof fn lemma_volume_action_source(vols: Seq<VolumeSpecView>, g: GraphModel, a: ActionModel)
    requires
        volume_actions(vols, g.nodes).contains(a),
    ensures
        exists|j: int| 0 <= j < vols.len() && #[trigger] spec_actions(vols[j], g.nodes).contains(a),
    decreases vols.len(),
{
    let init = vols.drop_last();
    let prev = volume_actions(init, g.nodes);
    let last = spec_actions(vols.last(), g.nodes);
    assert(volume_actions(vols, g.nodes) == prev + last);
    let i = choose|i: int| 0 <= i < prev.len() + last.len() && (prev + last)[i] == a;
    if i < prev.len() {
        assert(prev[i] == a);
        lemma_volume_action_source(init, g, a);
        let j = choose|j: int| 0 <= j < init.len() && #[trigger] spec_actions(init[j], g.nodes).contains(a);
        assert(vols[j] == init[j]);
        assert(spec_actions(vols[j], g.nodes).contains(a));
    } else {
        assert(last[i - prev.len()] == a);
        assert(last.contains(a));
        assert(vols[vols.len() - 1] == vols.last());
        assert(spec_actions(vols[vols.len() - 1], g.nodes).contains(a));
    }
}

/// Reconcile leaves alone a uniform level within the tolerance of the wanted one: when
/// the desired state names each node once and asks a present node at `cur` for `x`,
/// with `cur` no more than the tolerance above or below `x`, reconcile emits no
/// `SetVolume` for that node.
pub proof fn reconcile_leaves_close_level(d: DesiredModel, g: GraphModel, j: int, cur: Level)
    requires
        one_spec_per_node(d.volumes),
        0 <= j < d.volumes.len(),
        d.volumes[j].channels.len() == 0,
        d.volumes[j].volume is Some,
        first_match(g.nodes, keyed(d.volumes[j].node_key)) is Some,
        g.nodes[first_match(g.nodes, keyed(d.volumes[j].node_key)).unwrap()].volume == Some(cur),
        cur - d.volumes[j].volume.unwrap() <= VOLUME_TOLERANCE,
        d.volumes[j].volume.unwrap() - cur <= VOLUME_TOLERANCE,
    ensures
        forall|t: TargetModel| !reconcile_actions(d, g).contains(ActionModel::SetVolume(d.volumes[j].node_key, t)),
{
    let key = d.volumes[j].node_key;
    let la = link_actions(d.links, g.links);
    let va = volume_actions(d.volumes, g.nodes);
    lemma_link_actions_create(d.links, g.links);
    assert forall|t: TargetModel| !reconcile_actions(d, g).contains(ActionModel::SetVolume(key, t)) by {
        let a = ActionModel::SetVolume(key, t);
        if reconcile_actions(d, g).contains(a) {
            let i = choose|i: int| 0 <= i < (la + va).len() && (la + va)[i] == a;
            if i < la.len() {
                assert(la[i] == a);
            } else {
                assert(va[i - la.len()] == a);
                assert(va.contains(a));
                lemma_volume_action_source(d.volumes, g, a);
                let m = choose|m: int| 0 <= m < d.volumes.len() && #[trigger] spec_actions(d.volumes[m], g.nodes).contains(a);
                let sa = spec_actions(d.volumes[m], g.nodes);
                let q = choose|q: int| 0 <= q < sa.len() && sa[q] == a;
                assert(d.volumes[m].node_key == key);
                if m != j {
                    if m < j {
                        assert(d.volumes[m].node_key != d.volumes[j].node_key);
                    } else {
                        assert(d.volumes[j].node_key != d.volumes[m].node_key);
                    }
                }
            }
        }
    }
}

/// A port of a zone's links that no present node offers is reported missing for that
/// zone.
pub proof fn unoffered_port_is_missing(store: ZoneStoreView, name: Seq<char>, g: GraphModel, k: int, x: Seq<char>)
    requires
        zone_index(store.zones, name) is Some,
        0 <= k < store.zones[zone_index(store.zones, name).unwrap()].links.len(),
        ({
            let l = store.zones[zone_index(store.zones, name).unwrap()].links[k];
            l.output_port@ == x || l.input_port@ == x
        }),
        forall|i: int, j: int|
            0 <= i < g.nodes.len() && g.nodes[i].present && 0 <= j < g.nodes[i].ports.len() ==> #[trigger] g.nodes[i].ports[j].key
                != x,
    ensures
        zone_missing(store, name, g, x),
{
    let zi = zone_index(store.zones, name).unwrap();
    assert(crate::model::link_touches(store.zones[zi].links[k], x));
}

/// A removed link that is live and that no remaining zone lists is torn down.
pub proof fn unclaimed_live_link_is_torn_down(
    removed: Seq<(Seq<char>, Seq<char>)>,
    live: Seq<(Seq<char>, Seq<char>)>,
    zones: Seq<ZoneDefView>,
    r: int,
)
    requires
        0 <= r < removed.len(),
        live.contains(removed[r]),
        forall|i: int, k: int|
            0 <= i < zones.len() && 0 <= k < zones[i].links.len() ==> #[trigger] link_key(zones[i].links[k]) != removed[r],
    ensures
        removed.filter(orphaned(live, zones)).contains(removed[r]),
{
    removed.lemma_filter_contains(orphaned(live, zones), r);
}

} // verus!
