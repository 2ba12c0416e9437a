use audiozones_server::decimal::{parse_i32, parse_u32, parse_usize};
use audiozones_server::model::VolumeTarget;
use audiozones_server::pw_model::{Global, Model, MuteWrite, ObjectKind, VolumeWrite};
use audiozones_server::spa_params::{decode_props, decode_route, props_to_write, route_to_write, PodKey, PodProperty, PodValue};
use audiozones_server::wire::Direction;

fn props(pairs: &[(&str, &str)]) -> Vec<(String, String)> {
    pairs.iter().map(|(k, v)| (k.to_string(), v.to_string())).collect()
}

fn global(id: u32, kind: ObjectKind, pairs: &[(&str, &str)]) -> Global {
    Global { id, kind, props: Some(props(pairs)) }
}

/// A sink (id 10) on device 1, profile device 0, with two playback ports and a monitor
/// port, a source (id 20) with one capture port, and a link from the source to the sink.
fn sample() -> Model {
    let mut m = Model::new();
    assert!(m.ingest_global(&global(1, ObjectKind::Device, &[("device.name", "card")])));
    assert!(m.ingest_global(&global(
        10,
        ObjectKind::Node,
        &[("node.name", "card_out"), ("media.class", "Audio/Sink"), ("device.id", "1"), ("card.profile.device", "0")],
    )));
    assert!(m.ingest_global(&global(
        11,
        ObjectKind::Port,
        &[("node.id", "10"), ("port.name", "playback_FL"), ("port.direction", "in"), ("port.id", "0")],
    )));
    assert!(m.ingest_global(&global(
        12,
        ObjectKind::Port,
        &[("node.id", "10"), ("port.name", "playback_FR"), ("port.direction", "in"), ("port.id", "1")],
    )));
    assert!(m.ingest_global(&global(
        13,
        ObjectKind::Port,
        &[("node.id", "10"), ("port.name", "monitor_FL"), ("port.direction", "out"), ("port.id", "0")],
    )));
    assert!(m.ingest_global(&global(20, ObjectKind::Node, &[("node.name", "mic"), ("media.class", "Audio/Source")])));
    assert!(m.ingest_global(&global(
        21,
        ObjectKind::Port,
        &[("node.id", "20"), ("port.name", "capture_MONO"), ("port.direction", "out")],
    )));
    assert!(m.ingest_global(&global(30, ObjectKind::Link, &[("link.output.port", "21"), ("link.input.port", "11")])));
    m
}

fn route_param(index: i32, device: i32, levels: Option<Vec<i64>>, mute: Option<bool>) -> PodValue {
    let mut inner = Vec::new();
    if let Some(l) = levels {
        inner.push(PodProperty { key: PodKey::ChannelVolumes, value: PodValue::Floats(l) });
    }
    if let Some(b) = mute {
        inner.push(PodProperty { key: PodKey::Mute, value: PodValue::Bool(b) });
    }
    PodValue::Object(vec![
        PodProperty { key: PodKey::RouteIndex, value: PodValue::Int(index) },
        PodProperty { key: PodKey::RouteDevice, value: PodValue::Int(device) },
        PodProperty { key: PodKey::RouteProps, value: PodValue::Object(inner) },
    ])
}

#[test]
fn decimal_text_reads_like_str_parse() {
    assert_eq!(parse_u32("42"), Some(42));
    assert_eq!(parse_u32("+7"), Some(7));
    assert_eq!(parse_u32("007"), Some(7));
    assert_eq!(parse_u32("4294967295"), Some(u32::MAX));
    assert_eq!(parse_u32("4294967296"), None);
    assert_eq!(parse_u32("-1"), None);
    assert_eq!(parse_u32("-0"), None);
    assert_eq!(parse_u32(""), None);
    assert_eq!(parse_u32("+"), None);
    assert_eq!(parse_u32(" 1"), None);
    assert_eq!(parse_u32("1a"), None);
    assert_eq!(parse_i32("-2147483648"), Some(i32::MIN));
    assert_eq!(parse_i32("2147483647"), Some(i32::MAX));
    assert_eq!(parse_i32("2147483648"), None);
    assert_eq!(parse_i32("-2147483649"), None);
    assert_eq!(parse_i32("-0"), Some(0));
    assert_eq!(parse_i32("-"), None);
    assert_eq!(parse_i32("+-3"), None);
    assert_eq!(parse_usize("3"), Some(3));
    assert_eq!(parse_usize("99999999999999999999999"), None);
}

#[test]
fn snapshot_lists_nodes_ports_and_resolved_links() {
    let m = sample();
    let g = m.build_graph();
    assert!(g.connected);
    assert!(g.zones.is_empty());
    assert_eq!(g.nodes.len(), 2);
    let sink = &g.nodes[0];
    assert_eq!(sink.key, "Audio/Sink|card_out");
    assert!(sink.present);
    assert_eq!(sink.volume, None);
    let keys: Vec<&str> = sink.ports.iter().map(|p| p.key.as_str()).collect();
    assert_eq!(
        keys,
        vec![
            "Audio/Sink|card_out#in:playback_FL",
            "Audio/Sink|card_out#in:playback_FR",
            "Audio/Sink|card_out#out:monitor_FL",
        ]
    );
    assert_eq!(sink.ports[1].channel, Some(1));
    assert_eq!(sink.ports[2].direction, Direction::Out);
    assert_eq!(g.links.len(), 1);
    assert_eq!(g.links[0].output_port, "Audio/Source|mic#out:capture_MONO");
    assert_eq!(g.links[0].input_port, "Audio/Sink|card_out#in:playback_FL");
}

#[test]
fn link_to_an_unknown_port_is_left_out_of_the_snapshot() {
    let mut m = sample();
    assert!(m.ingest_global(&global(31, ObjectKind::Link, &[("link.output.port", "21"), ("link.input.port", "99")])));
    assert_eq!(m.build_graph().links.len(), 1);
}

#[test]
fn globals_without_props_or_ids_change_nothing() {
    let mut m = sample();
    assert!(!m.ingest_global(&Global { id: 40, kind: ObjectKind::Node, props: None }));
    assert!(!m.ingest_global(&global(41, ObjectKind::Port, &[("port.name", "x")])));
    assert!(!m.ingest_global(&global(42, ObjectKind::Link, &[("link.output.port", "21")])));
    assert!(!m.ingest_global(&global(43, ObjectKind::Other, &[("a", "b")])));
    assert_eq!(m.build_graph().nodes.len(), 2);
}

#[test]
fn ports_resolve_to_port_and_node_ids() {
    let m = sample();
    assert_eq!(m.find_port_id("Audio/Sink|card_out#in:playback_FR"), Some((12, 10)));
    assert_eq!(m.find_port_id("Audio/Sink|card_out#in:nope"), None);
    assert_eq!(m.link_between("Audio/Source|mic#out:capture_MONO", "Audio/Sink|card_out#in:playback_FL"), Some(30));
    assert_eq!(m.link_between("Audio/Source|mic#out:capture_MONO", "Audio/Sink|card_out#in:playback_FR"), None);
    assert_eq!(
        m.link_endpoints("Audio/Source|mic#out:capture_MONO", "Audio/Sink|card_out#in:playback_FR"),
        Some(((21, 20), (12, 10)))
    );
}

#[test]
fn channel_count_uses_primary_direction_and_skips_monitors() {
    let m = sample();
    assert_eq!(m.find_node("Audio/Sink|card_out"), Some((10, 2)));
    assert_eq!(m.find_node("Audio/Source|mic"), Some((20, 1)));
    assert_eq!(m.find_node("Audio/Sink|missing"), None);
}

#[test]
fn node_props_update_levels_and_mute() {
    let mut m = sample();
    let p = PodValue::Object(vec![
        PodProperty { key: PodKey::ChannelVolumes, value: PodValue::Floats(vec![250_000, 500_000]) },
        PodProperty { key: PodKey::Mute, value: PodValue::Bool(true) },
    ]);
    assert!(m.apply_node_param(10, &p));
    let g = m.build_graph();
    assert_eq!(g.nodes[0].channel_volumes, vec![250_000, 500_000]);
    assert_eq!(g.nodes[0].volume, Some(500_000));
    assert!(g.nodes[0].muted);
    // An empty level array leaves the known levels alone.
    let empty = PodValue::Object(vec![PodProperty { key: PodKey::ChannelVolumes, value: PodValue::Floats(vec![]) }]);
    assert!(m.apply_node_param(10, &empty));
    assert_eq!(m.build_graph().nodes[0].channel_volumes, vec![250_000, 500_000]);
    // A Props param that reports neither changes nothing and asks for no snapshot.
    let other = PodValue::Object(vec![PodProperty { key: PodKey::Other, value: PodValue::Int(3) }]);
    assert!(!m.apply_node_param(10, &other));
    assert!(!m.apply_node_param(10, &PodValue::Other));
}

#[test]
fn reannounce_keeps_levels_and_profile_device() {
    let mut m = sample();
    let p = PodValue::Object(vec![PodProperty { key: PodKey::ChannelVolumes, value: PodValue::Floats(vec![100, 200]) }]);
    assert!(m.apply_node_param(10, &p));
    assert!(m.ingest_global(&global(10, ObjectKind::Node, &[("node.name", "card_out"), ("media.class", "Audio/Sink"), ("device.id", "1")])));
    assert_eq!(m.build_graph().nodes[0].channel_volumes, vec![100, 200]);
    assert!(m.route_for_node("Audio/Sink|card_out").is_none());
    assert!(m.apply_route_param(1, &route_param(5, 0, Some(vec![1, 2]), None)));
    let (d, p, r) = m.route_for_node("Audio/Sink|card_out").unwrap();
    assert_eq!((d, p, r.index), (1, 0, 5));
}

#[test]
fn route_param_is_cached_and_reflected_onto_its_nodes() {
    let mut m = sample();
    assert!(m.apply_route_param(1, &route_param(7, 0, Some(vec![300_000, 400_000]), Some(true))));
    let g = m.build_graph();
    assert_eq!(g.nodes[0].channel_volumes, vec![300_000, 400_000]);
    assert!(g.nodes[0].muted);
    let (d, p, r) = m.route_for_node("Audio/Sink|card_out").unwrap();
    assert_eq!((d, p, r.index), (1, 0, 7));
    assert_eq!(r.channel_volumes, vec![300_000, 400_000]);
    // A route of another profile device touches no node here.
    assert!(!m.apply_route_param(1, &route_param(8, 3, None, Some(false))));
    assert!(m.build_graph().nodes[0].muted);
}

#[test]
fn route_param_needs_an_address_and_a_report() {
    let no_index = PodValue::Object(vec![
        PodProperty { key: PodKey::RouteDevice, value: PodValue::Int(0) },
        PodProperty { key: PodKey::RouteProps, value: PodValue::Object(vec![PodProperty { key: PodKey::Mute, value: PodValue::Bool(true) }]) },
    ]);
    assert!(decode_route(&no_index).is_none());
    assert!(decode_route(&route_param(1, 0, None, None)).is_none());
    assert_eq!(decode_route(&route_param(1, 2, None, Some(true))), Some((1, 2, None, Some(true))));
    assert_eq!(decode_props(&PodValue::Int(1)), None);
}

#[test]
fn volume_goes_through_the_route_and_keeps_other_zones_channels() {
    let mut m = sample();
    assert!(m.apply_route_param(1, &route_param(7, 0, Some(vec![1_000_000, 1_000_000, 1_000_000, 1_000_000]), None)));
    let w = m.plan_volume("Audio/Sink|card_out", &VolumeTarget::Channels(vec![(0, 200_000), (1, 200_000)]));
    match w {
        VolumeWrite::Route { device_id, route_index, profile_device, channel_volumes } => {
            assert_eq!((device_id, route_index, profile_device), (1, 7, 0));
            assert_eq!(channel_volumes, vec![200_000, 200_000, 1_000_000, 1_000_000]);
        },
        _ => panic!("expected a route write"),
    }
    let w = m.plan_volume("Audio/Sink|card_out", &VolumeTarget::Channels(vec![(2, 600_000), (3, 2_000_000)]));
    match w {
        VolumeWrite::Route { channel_volumes, .. } => {
            assert_eq!(channel_volumes, vec![200_000, 200_000, 600_000, 1_000_000]);
        },
        _ => panic!("expected a route write"),
    }
    match m.plan_mute("Audio/Sink|card_out") {
        MuteWrite::Route { device_id, route_index, profile_device } => assert_eq!((device_id, route_index, profile_device), (1, 7, 0)),
        _ => panic!("expected a route mute"),
    }
}

#[test]
fn volume_without_a_route_goes_to_the_node() {
    let mut m = sample();
    match m.plan_volume("Audio/Source|mic", &VolumeTarget::Uniform(1_500_000)) {
        VolumeWrite::Node { node_id, channel_volumes } => {
            assert_eq!(node_id, 20);
            assert_eq!(channel_volumes, vec![1_000_000]);
        },
        _ => panic!("expected a node write"),
    }
    assert!(matches!(m.plan_volume("Audio/Sink|gone", &VolumeTarget::Uniform(0)), VolumeWrite::Unknown));
    assert!(matches!(m.plan_mute("Audio/Source|mic"), MuteWrite::Node { node_id: 20 }));
    assert!(matches!(m.plan_mute("Audio/Sink|gone"), MuteWrite::Unknown));
}

#[test]
fn sent_changes_show_at_once() {
    let mut m = sample();
    m.note_volume_sent("Audio/Sink|card_out", &VolumeTarget::Uniform(400_000));
    m.note_mute_sent("Audio/Sink|card_out", true);
    let g = m.build_graph();
    assert_eq!(g.nodes[0].channel_volumes, vec![400_000, 400_000]);
    assert!(g.nodes[0].muted);
    m.note_volume_sent("Audio/Sink|card_out", &VolumeTarget::Channels(vec![(1, 900_000)]));
    assert_eq!(m.build_graph().nodes[0].channel_volumes, vec![400_000, 900_000]);
}

#[test]
fn device_path_change_is_reported_once() {
    let mut m = sample();
    let info = props(&[("api.alsa.path", "hw:1")]);
    assert!(m.note_device_path(1, &info));
    assert!(!m.note_device_path(1, &info));
    assert!(m.note_device_path(1, &props(&[("device.bus-path", "pci-0000:00:14.0-usb-0:2:1.0"), ("api.alsa.path", "hw:1")])));
    assert!(!m.note_device_path(1, &props(&[("device.name", "x")])));
    assert!(!m.note_device_path(9, &info));
}

#[test]
fn node_info_sets_profile_device() {
    let mut m = sample();
    assert!(m.ingest_global(&global(50, ObjectKind::Node, &[("node.name", "hdmi"), ("media.class", "Audio/Sink"), ("device.id", "1")])));
    m.note_node_info(50, &props(&[("card.profile.device", "4")]));
    assert!(m.apply_route_param(1, &route_param(2, 4, Some(vec![10]), None)));
    assert_eq!(m.build_graph().nodes[2].channel_volumes, vec![10]);
}

#[test]
fn removing_globals_drops_them() {
    let mut m = sample();
    assert!(m.remove_global(11));
    assert_eq!(m.build_graph().links.len(), 0);
    assert!(m.remove_global(20));
    assert_eq!(m.build_graph().nodes.len(), 1);
    assert!(!m.remove_global(99));
}

#[test]
fn written_params_carry_what_is_set() {
    assert!(props_to_write(None, None).is_none());
    let ps = props_to_write(Some(vec![1, 2]), Some(false)).unwrap();
    assert_eq!(ps.len(), 2);
    assert_eq!(ps[0].key, PodKey::ChannelVolumes);
    assert_eq!(ps[1].key, PodKey::Mute);
    assert!(route_to_write(1, 2, None, None).is_none());
    let r = route_to_write(3, 4, None, Some(true)).unwrap();
    assert_eq!(r.len(), 4);
    assert_eq!(r[0].key, PodKey::RouteIndex);
    assert!(matches!(r[0].value, PodValue::Int(3)));
    assert!(matches!(r[1].value, PodValue::Int(4)));
    assert!(matches!(&r[2].value, PodValue::Object(inner) if inner.len() == 1 && inner[0].key == PodKey::Mute));
    assert!(matches!(r[3].value, PodValue::Bool(true)));
}

#[test]
fn announcing_then_removing_a_new_object_restores_the_snapshot() {
    let mut m = sample();
    let before = m.build_graph();
    assert!(m.ingest_global(&global(60, ObjectKind::Node, &[("node.name", "tmp"), ("media.class", "Stream/Output/Audio")])));
    assert_eq!(m.build_graph().nodes.len(), 3);
    assert!(m.remove_global(60));
    assert_eq!(m.build_graph(), before);
}
