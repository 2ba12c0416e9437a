use audiozones_server::identity::{node_key, port_key};
use audiozones_server::wire::Direction;

#[test]
fn node_key_is_stable_and_serial_free() {
    // Same logical device -> same deterministic key, no volatile session id baked in.
    let a = node_key("alsa_output.usb-0d8c_..surround-71.2", "Audio/Sink");
    assert_eq!(a, node_key("alsa_output.usb-0d8c_..surround-71.2", "Audio/Sink"));
    assert_eq!(a, "Audio/Sink|alsa_output.usb-0d8c_..surround-71.2");
}

#[test]
fn distinct_devices_get_distinct_keys() {
    assert_ne!(
        node_key("alsa_output.pci-..analog-stereo", "Audio/Sink"),
        node_key("alsa_output.usb-..surround-71.2", "Audio/Sink"),
    );
}

#[test]
fn same_name_different_class_distinct() {
    assert_ne!(node_key("dev", "Audio/Sink"), node_key("dev", "Audio/Source"));
}

#[test]
fn port_keys_distinguish_direction() {
    let nk = node_key("Card", "Audio/Sink");
    assert_ne!(
        port_key(&nk, "playback_FL", Direction::In),
        port_key(&nk, "playback_FL", Direction::Out)
    );
}

#[test]
fn port_key_layout() {
    let nk = node_key("Card", "Audio/Sink");
    assert_eq!(port_key(&nk, "playback_FL", Direction::In), "Audio/Sink|Card#in:playback_FL");
    assert_eq!(port_key(&nk, "monitor_FL", Direction::Out), "Audio/Sink|Card#out:monitor_FL");
}

#[test]
fn node_key_with_empty_parts() {
    assert_eq!(node_key("", ""), "|");
    assert_eq!(node_key("Ämp ♪", "Audio/Sink"), "Audio/Sink|Ämp ♪");
}
