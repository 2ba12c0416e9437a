use audiozones_server::backend::{apply_action, apply_volume_target, build_channel_volumes, seed_graph, sink, BackendError};
use audiozones_server::config::Config;
use audiozones_server::identity::node_key;
use audiozones_server::model::{Action, VolumeTarget};
use audiozones_server::wire::GraphState;

#[test]
fn seed_graph_has_source_and_two_amps() {
    let g = seed_graph();
    assert!(!g.connected);
    assert_eq!(g.nodes.len(), 3);
    assert_eq!(g.nodes[0].key, "Audio/Source|USB Capture");
    assert_eq!(g.nodes[0].ports[1].key, "Audio/Source|USB Capture#out:capture_FR");
    assert_eq!(g.nodes[1].key, "Audio/Sink|Kitchen Amp");
    assert_eq!(g.nodes[2].ports[0].key, "Audio/Sink|Patio Amp#in:playback_FL");
    assert_eq!(g.nodes[2].volume, Some(800_000));
    assert!(g.links.is_empty());
}

#[test]
fn create_and_destroy_links() {
    let mut g = GraphState::default();
    let create = || Action::CreateLink { output_port: "A".into(), input_port: "B".into() };
    apply_action(&mut g, create()).unwrap();
    apply_action(&mut g, create()).unwrap();
    assert_eq!(g.links.len(), 1);
    apply_action(&mut g, Action::DestroyLink { output_port: "A".into(), input_port: "B".into() }).unwrap();
    assert!(g.links.is_empty());
}

#[test]
fn volume_and_mute_on_unknown_node_are_rejected() {
    let mut g = seed_graph();
    assert_eq!(
        apply_action(&mut g, Action::SetMute { node_key: "ghost".into(), muted: true }),
        Err(BackendError::Rejected("no node ghost".into()))
    );
    assert_eq!(
        apply_action(&mut g, Action::SetVolume { node_key: "ghost".into(), target: VolumeTarget::Uniform(1) }),
        Err(BackendError::Rejected("no node ghost".into()))
    );
    assert_eq!(g, seed_graph());
}

#[test]
fn uniform_and_channel_volume_targets() {
    let mut g = seed_graph();
    let patio = node_key("Patio Amp", "Audio/Sink");
    apply_action(&mut g, Action::SetVolume { node_key: patio.clone(), target: VolumeTarget::Uniform(1_500_000) }).unwrap();
    assert_eq!(g.nodes[2].channel_volumes, vec![1_000_000, 1_000_000]);
    assert_eq!(g.nodes[2].volume, Some(1_000_000));
    apply_action(&mut g, Action::SetVolume { node_key: patio.clone(), target: VolumeTarget::Channels(vec![(3, 200_000), (0, -5)]) }).unwrap();
    assert_eq!(g.nodes[2].channel_volumes, vec![0, 1_000_000, 0, 200_000]);
    assert_eq!(g.nodes[2].volume, Some(1_000_000));
    apply_action(&mut g, Action::SetMute { node_key: patio, muted: true }).unwrap();
    assert!(g.nodes[2].muted);
    // The other nodes are untouched.
    assert_eq!(g.nodes[1].channel_volumes, vec![800_000, 800_000]);
}

#[test]
fn uniform_on_a_node_without_channels_makes_one() {
    let mut n = sink("K", "Kitchen");
    n.channel_volumes = vec![];
    n.volume = None;
    apply_volume_target(&mut n, &VolumeTarget::Uniform(300_000));
    assert_eq!(n.channel_volumes, vec![300_000]);
    assert_eq!(n.volume, Some(300_000));
}

#[test]
fn channel_arrays_cover_every_channel() {
    assert_eq!(build_channel_volumes(&VolumeTarget::Uniform(2_000_000), 3, &vec![1, 2]), vec![1_000_000; 3]);
    assert_eq!(build_channel_volumes(&VolumeTarget::Uniform(5), 0, &vec![]), vec![5]);
    // Unlisted channels keep their level, unknown ones default to full scale.
    assert_eq!(
        build_channel_volumes(&VolumeTarget::Channels(vec![(1, 600_000), (4, 700_000)]), 3, &vec![10, 20]),
        vec![10, 600_000, 1_000_000, 1_000_000, 700_000]
    );
}

#[test]
fn config_defaults() {
    let c = Config::default();
    assert_eq!(c.bind, "127.0.0.1:4040");
    assert_eq!(c.token, "dev-token");
    assert_eq!(c.zones_file, "./zones.toml");
}
