use audiozones_server::model::{desired_from_active, missing_for_zone, reconcile, Action, Desired, VolumeTarget};
use audiozones_server::wire::{Direction, GraphState, LinkView, NodeView, PortView};
use audiozones_server::zones::{ChannelVolume, LinkSpec, VolumeSpec, ZoneDef, ZoneStore};

fn node(key: &str, vol: Option<i64>, present: bool, ports: Vec<PortView>) -> NodeView {
    NodeView {
        key: key.into(),
        name: key.into(),
        media_class: "Audio/Sink".into(),
        ports,
        volume: vol,
        channel_volumes: vec![],
        muted: false,
        present,
    }
}

fn port(key: &str, dir: Direction) -> PortView {
    PortView { key: key.into(), name: key.into(), direction: dir, channel: None }
}

fn store_with_active_patio() -> ZoneStore {
    let mut s = ZoneStore::empty();
    s.zones.push(ZoneDef {
        name: "patio".into(),
        links: vec![LinkSpec { output_port: "OUT".into(), input_port: "IN".into() }],
        volumes: vec![VolumeSpec { node_key: "AMP".into(), volume: Some(500_000), channels: vec![], muted: false }],
    });
    s.set_active("patio", true).unwrap();
    s
}

#[test]
fn reconcile_creates_missing_link() {
    let store = store_with_active_patio();
    let desired = desired_from_active(&store);
    let actual = GraphState::default(); // no links yet
    let actions = reconcile(&desired, &actual);
    assert!(actions.contains(&Action::CreateLink { output_port: "OUT".into(), input_port: "IN".into() }));
}

#[test]
fn reconcile_is_noop_when_already_satisfied() {
    let store = store_with_active_patio();
    let desired = desired_from_active(&store);
    let actual = GraphState {
        links: vec![LinkView { output_port: "OUT".into(), input_port: "IN".into() }],
        nodes: vec![node("AMP", Some(500_000), true, vec![])],
        ..Default::default()
    };
    let actions = reconcile(&desired, &actual);
    assert!(actions.is_empty(), "nothing to do, got {actions:?}");
}

#[test]
fn reconcile_corrects_volume() {
    let store = store_with_active_patio();
    let desired = desired_from_active(&store);
    let actual = GraphState {
        links: vec![LinkView { output_port: "OUT".into(), input_port: "IN".into() }],
        nodes: vec![node("AMP", Some(1_000_000), true, vec![])], // wrong volume
        ..Default::default()
    };
    let actions = reconcile(&desired, &actual);
    assert_eq!(actions, vec![Action::SetVolume { node_key: "AMP".into(), target: VolumeTarget::Uniform(500_000) }]);
}

#[test]
fn missing_device_flags_degraded() {
    let store = store_with_active_patio();
    // OUT present, IN absent -> IN reported missing.
    let actual = GraphState {
        nodes: vec![node("card", None, true, vec![port("OUT", Direction::Out)])],
        ..Default::default()
    };
    let missing = missing_for_zone(&store, "patio", &actual);
    assert_eq!(missing, vec!["IN".to_string()]);
}

#[test]
fn device_returns_then_reconcile_completes_zone() {
    // auto-reapply: once the IN device is present, reconcile creates the link.
    let store = store_with_active_patio();
    let desired = desired_from_active(&store);
    let actual = GraphState {
        nodes: vec![
            node("card", None, true, vec![port("OUT", Direction::Out)]),
            node("amp", Some(500_000), true, vec![port("IN", Direction::In)]),
        ],
        links: vec![],
        ..Default::default()
    };
    let actions = reconcile(&desired, &actual);
    assert!(actions.contains(&Action::CreateLink { output_port: "OUT".into(), input_port: "IN".into() }));
}

fn zone(name: &str, links: &[(&str, &str)], volumes: Vec<VolumeSpec>) -> ZoneDef {
    ZoneDef {
        name: name.into(),
        links: links
            .iter()
            .map(|(o, i)| LinkSpec { output_port: (*o).into(), input_port: (*i).into() })
            .collect(),
        volumes,
    }
}

fn uniform(node: &str, level: i64, muted: bool) -> VolumeSpec {
    VolumeSpec { node_key: node.into(), volume: Some(level), channels: vec![], muted }
}

#[test]
fn desired_links_union_sorted_and_volumes_last_active_wins() {
    let mut store = ZoneStore::empty();
    store.zones.push(zone("a", &[("S#out:2", "T#in:1"), ("S#out:1", "T#in:1")], vec![uniform("AMP", 100_000, false)]));
    store.zones.push(zone("b", &[("S#out:1", "T#in:1"), ("R#out:1", "T#in:9")], vec![uniform("AMP", 900_000, true), uniform("X", 1, false)]));
    store.zones.push(zone("c", &[("Z#out:1", "Z#in:1")], vec![]));
    store.set_active("b", true).unwrap();
    store.set_active("a", true).unwrap();
    let d = desired_from_active(&store);
    // Union of a and b's links, as an ordered set; c is inactive.
    assert_eq!(
        d.links,
        vec![
            ("R#out:1".to_string(), "T#in:9".to_string()),
            ("S#out:1".to_string(), "T#in:1".to_string()),
            ("S#out:2".to_string(), "T#in:1".to_string()),
        ]
    );
    // b then a: a's AMP spec replaces b's and moves to the end.
    assert_eq!(d.volumes.len(), 2);
    assert_eq!(d.volumes[0].node_key, "X");
    assert_eq!(d.volumes[1].node_key, "AMP");
    assert_eq!(d.volumes[1].volume, Some(100_000));
}

#[test]
fn reconcile_volume_within_tolerance_is_left_alone() {
    let store = store_with_active_patio();
    let desired = desired_from_active(&store);
    let links = vec![LinkView { output_port: "OUT".into(), input_port: "IN".into() }];
    let near = GraphState { links: links.clone(), nodes: vec![node("AMP", Some(501_000), true, vec![])], ..Default::default() };
    assert!(reconcile(&desired, &near).is_empty());
    let far = GraphState { links, nodes: vec![node("AMP", Some(501_001), true, vec![])], ..Default::default() };
    assert_eq!(reconcile(&desired, &far).len(), 1);
}

#[test]
fn reconcile_mute_and_per_channel_and_absent_node() {
    let mut store = ZoneStore::empty();
    store.zones.push(zone(
        "z",
        &[],
        vec![
            VolumeSpec {
                node_key: "CARD".into(),
                volume: None,
                channels: vec![ChannelVolume { channel: 1, volume: 600_000 }, ChannelVolume { channel: 5, volume: 600_000 }],
                muted: true,
            },
            uniform("GONE", 500_000, false),
        ],
    ));
    store.set_active("z", true).unwrap();
    let d = desired_from_active(&store);
    let mut card = node("CARD", Some(600_000), true, vec![]);
    card.channel_volumes = vec![0, 600_000];
    let g = GraphState { nodes: vec![card], ..Default::default() };
    // Channel 5 does not exist yet -> the per-channel target is sent; mute differs.
    assert_eq!(
        reconcile(&d, &g),
        vec![
            Action::SetVolume { node_key: "CARD".into(), target: VolumeTarget::Channels(vec![(1, 600_000), (5, 600_000)]) },
            Action::SetMute { node_key: "CARD".into(), muted: true },
        ]
    );
}

#[test]
fn missing_is_sorted_unique_and_empty_for_unknown_zone() {
    let mut store = ZoneStore::empty();
    store.zones.push(zone("z", &[("B", "A"), ("B", "C"), ("P", "A")], vec![]));
    let g = GraphState { nodes: vec![node("n", None, true, vec![port("P", Direction::Out)])], ..Default::default() };
    assert_eq!(missing_for_zone(&store, "z", &g), vec!["A".to_string(), "B".to_string(), "C".to_string()]);
    assert!(missing_for_zone(&store, "ghost", &g).is_empty());
    // Ports on an absent node count as missing.
    let g2 = GraphState {
        nodes: vec![node("n", None, false, vec![port("A", Direction::In), port("B", Direction::Out), port("C", Direction::In), port("P", Direction::Out)])],
        ..Default::default()
    };
    assert_eq!(missing_for_zone(&store, "z", &g2).len(), 4);
}

#[test]
fn reconcile_skips_a_desired_feedback_link() {
    let desired = Desired {
        links: vec![
            ("Audio/Sink|Amp#out:monitor_FL".to_string(), "Audio/Sink|Amp#in:playback_FL".to_string()),
            ("Audio/Source|Cap#out:capture_FL".to_string(), "Audio/Sink|Amp#in:playback_FL".to_string()),
        ],
        volumes: vec![],
    };
    let actions = reconcile(&desired, &GraphState::default());
    assert_eq!(
        actions,
        vec![Action::CreateLink {
            output_port: "Audio/Source|Cap#out:capture_FL".into(),
            input_port: "Audio/Sink|Amp#in:playback_FL".into(),
        }]
    );
}
