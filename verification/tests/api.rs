use audiozones_server::api::{
    check_zone_links, compose, is_self_loop, node_of_port, orphaned_links, reject_self_loops, representative_volume,
    volume_target_for, zone_edit_status, zone_volume_plan, node_volume_plan, zone_volume_target, ApiError, VolumePlan,
};
use audiozones_server::auth::token_ok;
use audiozones_server::model::{Action, VolumeTarget};
use audiozones_server::wire::{Direction, GraphState, LinkView, NodeView, PortView};
use audiozones_server::zones::{ChannelVolume, LinkSpec, VolumeSpec, ZoneDef, ZoneError, ZoneStore};

fn in_port(node: &str, name: &str, ch: Option<usize>) -> PortView {
    PortView { key: format!("{node}#in:{name}"), name: name.into(), direction: Direction::In, channel: ch }
}

/// An 8-ch surround sink whose ports carry channel indices in audio.position order.
fn surround_sink() -> NodeView {
    NodeView {
        key: "SINK".into(),
        name: "8ch".into(),
        media_class: "Audio/Sink".into(),
        ports: vec![
            in_port("SINK", "playback_FL", Some(0)),
            in_port("SINK", "playback_FR", Some(1)),
            in_port("SINK", "playback_RL", Some(2)),
            in_port("SINK", "playback_RR", Some(3)),
        ],
        volume: Some(900_000),
        channel_volumes: vec![100_000, 200_000, 300_000, 400_000],
        muted: false,
        present: true,
    }
}

fn zone_into(name: &str, ports: &[&str]) -> ZoneDef {
    ZoneDef {
        name: name.into(),
        links: ports
            .iter()
            .map(|p| LinkSpec { output_port: "SRC#out:x".into(), input_port: format!("SINK#in:{p}") })
            .collect(),
        volumes: vec![],
    }
}

#[test]
fn self_loop_detection() {
    // Same node on both ends (monitor -> own playback) = feedback loop.
    assert!(is_self_loop("Audio/Sink|Amp#out:monitor_FL", "Audio/Sink|Amp#in:playback_FL"));
    // Capture source -> a different sink is the normal, allowed shape.
    assert!(!is_self_loop("Audio/Source|Cap#out:capture_FL", "Audio/Sink|Amp#in:playback_FL"));
}

#[test]
fn zone_target_resolves_destination_channels_from_links() {
    let g = GraphState { nodes: vec![surround_sink()], ..Default::default() };
    // Patio feeds RL+RR -> channels 2,3 on SINK.
    let (node, ch) = zone_volume_target(&zone_into("patio", &["playback_RL", "playback_RR"]), &g).unwrap();
    assert_eq!(node, "SINK");
    assert_eq!(ch, vec![2, 3]);
    // A different zone feeds FL+FR -> channels 0,1 (independent of patio).
    let (_, ch2) = zone_volume_target(&zone_into("kitchen", &["playback_FL", "playback_FR"]), &g).unwrap();
    assert_eq!(ch2, vec![0, 1]);
}

#[test]
fn representative_volume_is_loudest_of_the_zones_channels() {
    let sink = surround_sink(); // channel_volumes = [0.1, 0.2, 0.3, 0.4]
    // Patio (channels 2,3) -> max(0.3, 0.4) = 0.4, not the node-wide 0.9.
    assert_eq!(representative_volume(&sink, &vec![2, 3]), Some(400_000));
    // No channels -> falls back to the node's representative volume.
    assert_eq!(representative_volume(&sink, &vec![]), Some(900_000));
}

#[test]
fn zone_target_falls_back_to_volume_spec_when_link_less() {
    let g = GraphState { nodes: vec![surround_sink()], ..Default::default() };
    let zone = ZoneDef {
        name: "tomlzone".into(),
        links: vec![],
        volumes: vec![VolumeSpec {
            node_key: "SINK".into(),
            volume: None,
            channels: vec![ChannelVolume { channel: 6, volume: 600_000 }, ChannelVolume { channel: 7, volume: 600_000 }],
            muted: false,
        }],
    };
    let (node, ch) = zone_volume_target(&zone, &g).unwrap();
    assert_eq!(node, "SINK");
    assert_eq!(ch, vec![6, 7]);
}

#[test]
fn query_token_is_percent_decoded() {
    // A token with reserved chars, sent as the Dart client encodes it.
    let token = "a b+c/d=e";
    let encoded = "token=a%20b%2Bc%2Fd%3De";
    assert!(token_ok(token, None, Some(encoded)));
}

#[test]
fn query_token_mismatch_is_rejected() {
    assert!(!token_ok("secret", None, Some("token=wrong")));
}

#[test]
fn header_bearer_token_still_works() {
    assert!(token_ok("secret", Some("Bearer secret"), None));
}

#[test]
fn token_edge_cases() {
    assert!(!token_ok("secret", Some("Bearer secrets"), None));
    assert!(!token_ok("secret", Some("bearer secret"), None));
    assert!(!token_ok("secret", Some("secret"), None));
    assert!(!token_ok("secret", None, None));
    // A wrong header still lets a right query token through.
    assert!(token_ok("secret", Some("Bearer nope"), Some("a=1&token=secret")));
    // `+` reads as a space in a query.
    assert!(token_ok("a b", None, Some("token=a+b")));
    assert!(!token_ok("secret", None, Some("tok=secret")));
}

#[test]
fn node_of_port_takes_text_before_hash() {
    assert_eq!(node_of_port("Audio/Sink|Amp#in:playback_FL"), "Audio/Sink|Amp");
    assert_eq!(node_of_port("no-hash"), "no-hash");
    assert_eq!(node_of_port("a#b#c"), "a");
    assert_eq!(node_of_port("#x"), "");
}

#[test]
fn zone_link_checks() {
    assert_eq!(
        check_zone_links(&vec![]),
        Err(ApiError { status: 400, message: "a zone needs at least one link".into() })
    );
    let ok = vec![LinkSpec { output_port: "Cap#out:x".into(), input_port: "Amp#in:y".into() }];
    assert_eq!(check_zone_links(&ok), Ok(()));
    let bad = vec![
        LinkSpec { output_port: "Cap#out:x".into(), input_port: "Amp#in:y".into() },
        LinkSpec { output_port: "Amp#out:monitor_FL".into(), input_port: "Amp#in:playback_FL".into() },
    ];
    assert_eq!(
        reject_self_loops(&bad),
        Err(ApiError {
            status: 400,
            message: "link 'Amp#out:monitor_FL' -> 'Amp#in:playback_FL' loops a device into itself (feedback); route a capture source into the destination instead".into(),
        })
    );
    assert_eq!(check_zone_links(&bad).unwrap_err().status, 400);
}

#[test]
fn zone_edit_statuses() {
    assert_eq!(zone_edit_status(&ZoneError::ZoneExists("a".into())), 409);
    assert_eq!(zone_edit_status(&ZoneError::InvalidZone("a".into())), 400);
    assert_eq!(zone_edit_status(&ZoneError::NoSuchZone("a".into())), 404);
}

#[test]
fn orphaned_links_spare_claimed_and_dead_links() {
    let l = |o: &str, i: &str| LinkSpec { output_port: o.into(), input_port: i.into() };
    let removed = vec![l("A", "B"), l("C", "D"), l("E", "F")];
    let live = vec![
        LinkView { output_port: "A".into(), input_port: "B".into() },
        LinkView { output_port: "C".into(), input_port: "D".into() },
    ];
    // C->D is still claimed by another zone; E->F is not live.
    let zones = vec![ZoneDef { name: "other".into(), links: vec![l("C", "D")], volumes: vec![] }];
    assert_eq!(orphaned_links(&removed, &live, &zones), vec![l("A", "B")]);
}

#[test]
fn volume_target_for_channels() {
    assert_eq!(volume_target_for(&vec![], 5), VolumeTarget::Uniform(5));
    assert_eq!(volume_target_for(&vec![6, 7], 5), VolumeTarget::Channels(vec![(6, 5), (7, 5)]));
}

#[test]
fn zone_target_dedups_and_sorts_and_skips_other_nodes() {
    let g = GraphState { nodes: vec![surround_sink()], ..Default::default() };
    let mut z = zone_into("z", &["playback_RR", "playback_FL", "playback_RR", "nope"]);
    z.links.push(LinkSpec { output_port: "SRC#out:x".into(), input_port: "OTHER#in:playback_FL".into() });
    let (node, ch) = zone_volume_target(&z, &g).unwrap();
    assert_eq!(node, "SINK");
    assert_eq!(ch, vec![0, 3]);
    // Destination absent and no volume spec -> nothing to control.
    assert_eq!(zone_volume_target(&zone_into("z", &["playback_FL"]), &GraphState::default()), None);
}

#[test]
fn compose_overlays_zone_status() {
    let mut store = ZoneStore::empty();
    store.zones.push(zone_into("patio", &["playback_RL", "playback_RR"]));
    store.zones.push(zone_into("away", &["playback_FL"]));
    store.set_active("patio", true).unwrap();
    let mut sink = surround_sink();
    sink.muted = true;
    let g = compose(&store, GraphState { nodes: vec![sink], ..Default::default() });
    assert_eq!(g.zones.len(), 2);
    let patio = &g.zones[0];
    assert!(patio.active);
    // The source port is not in the graph -> degraded.
    assert_eq!(patio.missing, vec!["SRC#out:x".to_string()]);
    assert!(patio.degraded);
    assert_eq!(patio.volume_node.as_deref(), Some("SINK"));
    assert_eq!(patio.volume, Some(400_000));
    assert!(patio.muted);
    assert_eq!(patio.links.len(), 2);
    let away = &g.zones[1];
    assert!(!away.active);
    assert!(away.missing.is_empty());
    assert!(!away.degraded);
    assert_eq!(away.volume, Some(100_000));
}

#[test]
fn zone_volume_on_an_inactive_zone_is_stored_and_applied_directly() {
    let g = GraphState { nodes: vec![surround_sink()], ..Default::default() };
    let mut store = ZoneStore::empty();
    store.zones.push(zone_into("patio", &["playback_RL", "playback_RR"]));
    let plan = zone_volume_plan(&mut store, "patio", &g, 600_000, Some(true)).unwrap();
    match plan {
        VolumePlan::Direct(actions) => assert_eq!(
            actions,
            vec![
                Action::SetVolume {
                    node_key: "SINK".into(),
                    target: VolumeTarget::Channels(vec![(2, 600_000), (3, 600_000)]),
                },
                Action::SetMute { node_key: "SINK".into(), muted: true },
            ]
        ),
        VolumePlan::Reconcile => panic!("an inactive zone is not reconciled"),
    }
    let spec = &store.zones[0].volumes[0];
    assert_eq!(spec.node_key, "SINK");
    assert_eq!(spec.channels.len(), 2);
    assert!(spec.muted);
}

#[test]
fn zone_volume_on_an_active_zone_is_reconciled() {
    let g = GraphState { nodes: vec![surround_sink()], ..Default::default() };
    let mut store = ZoneStore::empty();
    store.zones.push(zone_into("patio", &["playback_RL"]));
    store.active.push("patio".into());
    assert!(matches!(zone_volume_plan(&mut store, "patio", &g, 250_000, None), Ok(VolumePlan::Reconcile)));
    assert_eq!(store.zones[0].volumes.len(), 1);
}

#[test]
fn zone_volume_errors_leave_the_store_alone() {
    let g = GraphState { nodes: vec![surround_sink()], ..Default::default() };
    let mut store = ZoneStore::empty();
    store.zones.push(ZoneDef { name: "empty".into(), links: vec![], volumes: vec![] });
    let e = zone_volume_plan(&mut store, "nope", &g, 1, None).err().unwrap();
    assert_eq!(e, ApiError { status: 404, message: "no such zone: nope".into() });
    let e = zone_volume_plan(&mut store, "empty", &g, 1, None).err().unwrap();
    assert_eq!(e, ApiError { status: 422, message: "zone has no controllable destination".into() });
    assert!(store.zones[0].volumes.is_empty());
}

#[test]
fn node_volume_goes_direct_unless_an_active_zone_governs_it() {
    let mut store = ZoneStore::empty();
    match node_volume_plan(&mut store, "SINK", 300_000, None) {
        VolumePlan::Direct(actions) => assert_eq!(
            actions,
            vec![Action::SetVolume { node_key: "SINK".into(), target: VolumeTarget::Uniform(300_000) }]
        ),
        VolumePlan::Reconcile => panic!("no zone governs SINK"),
    }
    let mut zone = zone_into("patio", &["playback_RL"]);
    zone.volumes.push(VolumeSpec { node_key: "SINK".into(), volume: Some(1_000_000), channels: vec![], muted: true });
    store.zones.push(zone);
    store.active.push("patio".into());
    assert!(matches!(node_volume_plan(&mut store, "SINK", 300_000, Some(false)), VolumePlan::Reconcile));
    assert_eq!(store.zones[0].volumes[0].volume, Some(300_000));
    assert!(!store.zones[0].volumes[0].muted);
}

#[test]
fn fallback_channels_come_sorted_and_unique() {
    let zone = ZoneDef {
        name: "z".into(),
        links: vec![],
        volumes: vec![VolumeSpec {
            node_key: "SINK".into(),
            volume: None,
            channels: vec![
                ChannelVolume { channel: 7, volume: 600_000 },
                ChannelVolume { channel: 6, volume: 600_000 },
                ChannelVolume { channel: 7, volume: 500_000 },
            ],
            muted: false,
        }],
    };
    assert_eq!(zone_volume_target(&zone, &GraphState::default()), Some(("SINK".to_string(), vec![6, 7])));
}

#[test]
fn volume_node_is_the_first_volume_spec_node() {
    // The zone's links feed SINK, but its first volume spec names OTHER: the tile shows OTHER.
    let mut zone = zone_into("patio", &["playback_RL"]);
    zone.volumes.push(VolumeSpec { node_key: "OTHER".into(), volume: Some(300_000), channels: vec![], muted: false });
    let mut other = surround_sink();
    other.key = "OTHER".into();
    other.volume = Some(700_000);
    other.muted = true;
    let mut store = ZoneStore::empty();
    store.zones.push(zone);
    let g = compose(&store, GraphState { nodes: vec![surround_sink(), other], ..Default::default() });
    let v = &g.zones[0];
    assert_eq!(v.volume_node.as_deref(), Some("OTHER"));
    assert_eq!(v.volume, Some(700_000));
    assert!(v.muted);
    // With OTHER absent the tile has a node but no level and no mute.
    let g = compose(&store, GraphState { nodes: vec![surround_sink()], ..Default::default() });
    assert_eq!(g.zones[0].volume_node.as_deref(), Some("OTHER"));
    assert_eq!(g.zones[0].volume, None);
    assert!(!g.zones[0].muted);
}
