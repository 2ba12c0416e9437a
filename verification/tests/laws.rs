use audiozones_server::api::{is_self_loop, node_volume_plan, zone_volume_plan, VolumePlan};
use audiozones_server::backend::{apply_action, seed_graph};
use audiozones_server::identity::{node_key, port_key};
use audiozones_server::model::{desired_from_active, reconcile, Action};
use audiozones_server::wire::Direction;
use audiozones_server::zones::{LinkSpec, VolumeSpec, ZoneDef, ZoneStore};

/// Reconcile, apply its actions, reconcile again: nothing left to do.
#[test]
fn reconcile_then_apply_converges() {
    let mut g = seed_graph();
    let cap = node_key("USB Capture", "Audio/Source");
    let patio = node_key("Patio Amp", "Audio/Sink");
    let mut store = ZoneStore::empty();
    store
        .add_zone(ZoneDef {
            name: "patio".into(),
            links: vec![
                LinkSpec { output_port: port_key(&cap, "capture_FL", Direction::Out), input_port: port_key(&patio, "playback_FL", Direction::In) },
                LinkSpec { output_port: port_key(&cap, "capture_FR", Direction::Out), input_port: port_key(&patio, "playback_FR", Direction::In) },
            ],
            volumes: vec![VolumeSpec { node_key: patio.clone(), volume: Some(600_000), channels: vec![], muted: true }],
        })
        .unwrap();
    store.set_active("patio", true).unwrap();
    let d = desired_from_active(&store);
    // A link no zone made.
    apply_action(&mut g, Action::CreateLink { output_port: "X#out:1".into(), input_port: "Y#in:1".into() }).unwrap();
    let actions = reconcile(&d, &g);
    // Two links, the level and the mute.
    assert_eq!(actions.len(), 4);
    for a in actions {
        apply_action(&mut g, a).unwrap();
    }
    assert!(reconcile(&d, &g).is_empty());
    // Reconcile never destroys: the foreign link stays.
    assert_eq!(g.links.len(), 3);
}

#[test]
fn self_loop_iff_same_node_on_keys() {
    let a = node_key("Amp", "Audio/Sink");
    let b = node_key("Cap", "Audio/Source");
    assert!(is_self_loop(&port_key(&a, "monitor_FL", Direction::Out), &port_key(&a, "playback_FL", Direction::In)));
    assert!(!is_self_loop(&port_key(&b, "capture_FL", Direction::Out), &port_key(&a, "playback_FL", Direction::In)));
}

#[test]
fn removed_zone_is_gone_and_inactive() {
    let mut store = ZoneStore::empty();
    store.add_zone(ZoneDef { name: "a".into(), links: vec![], volumes: vec![] }).unwrap();
    store.add_zone(ZoneDef { name: "b".into(), links: vec![], volumes: vec![] }).unwrap();
    store.set_active("a", true).unwrap();
    store.set_active("b", true).unwrap();
    store.remove_zone("a").unwrap();
    assert!(store.get("a").is_none());
    assert_eq!(store.active, vec!["b".to_string()]);
}

/// A level set on a node that an active zone governs is what the desired state holds.
#[test]
fn node_volume_is_reasserted_by_desired_state() {
    let patio = node_key("Patio Amp", "Audio/Sink");
    let mut store = ZoneStore::empty();
    store
        .add_zone(ZoneDef {
            name: "patio".into(),
            links: vec![],
            volumes: vec![VolumeSpec { node_key: patio.clone(), volume: Some(600_000), channels: vec![], muted: false }],
        })
        .unwrap();
    store.set_active("patio", true).unwrap();
    assert!(matches!(node_volume_plan(&mut store, &patio, 250_000, Some(true)), VolumePlan::Reconcile));
    let d = desired_from_active(&store);
    assert_eq!(d.volumes.len(), 1);
    assert_eq!(d.volumes[0].node_key, patio);
    assert_eq!(d.volumes[0].volume, Some(250_000));
    assert!(d.volumes[0].muted);
}

/// A zone level set on an active zone is what the desired state holds for its node.
#[test]
fn zone_volume_is_reasserted_by_desired_state() {
    let g = seed_graph();
    let cap = node_key("USB Capture", "Audio/Source");
    let patio = node_key("Patio Amp", "Audio/Sink");
    let mut store = ZoneStore::empty();
    store
        .add_zone(ZoneDef {
            name: "patio".into(),
            links: vec![LinkSpec {
                output_port: port_key(&cap, "capture_FL", Direction::Out),
                input_port: port_key(&patio, "playback_FR", Direction::In),
            }],
            volumes: vec![],
        })
        .unwrap();
    store.set_active("patio", true).unwrap();
    assert!(matches!(zone_volume_plan(&mut store, "patio", &g, 400_000, None), Ok(VolumePlan::Reconcile)));
    let d = desired_from_active(&store);
    assert_eq!(d.volumes.len(), 1);
    assert_eq!(d.volumes[0].node_key, patio);
    assert_eq!(d.volumes[0].volume, None);
    assert_eq!(d.volumes[0].channels.len(), 1);
    assert_eq!(d.volumes[0].channels[0].channel, 1);
    assert_eq!(d.volumes[0].channels[0].volume, 400_000);
}

/// Turning zones on and off keeps the active list free of repeats, naming only zones,
/// with the other names in their order; repeating a call changes nothing.
#[test]
fn set_active_keeps_active_list_sound() {
    let mut store = ZoneStore::empty();
    for n in ["a", "b", "c"] {
        store.add_zone(ZoneDef { name: n.into(), links: vec![], volumes: vec![] }).unwrap();
    }
    store.set_active("a", true).unwrap();
    store.set_active("b", true).unwrap();
    store.set_active("c", true).unwrap();
    store.set_active("b", true).unwrap();
    assert_eq!(store.active, vec!["a".to_string(), "b".to_string(), "c".to_string()]);
    store.set_active("b", false).unwrap();
    store.set_active("b", false).unwrap();
    assert_eq!(store.active, vec!["a".to_string(), "c".to_string()]);
    assert!(store.set_active("ghost", true).is_err());
    assert_eq!(store.active, vec!["a".to_string(), "c".to_string()]);
}
