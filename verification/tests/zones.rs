use audiozones_server::zones::{
    default_version, ChannelVolume, LinkSpec, VolumeSpec, ZoneDef, ZoneError, ZoneStore, CURRENT_VERSION,
};

fn link(out: &str, inp: &str) -> LinkSpec {
    LinkSpec { output_port: out.into(), input_port: inp.into() }
}

#[test]
fn missing_file_yields_empty_store() {
    // A missing zones file loads as the empty store.
    let store = ZoneStore::empty();
    assert!(store.zones.is_empty());
    assert_eq!(store.version, CURRENT_VERSION);
}

#[test]
fn primary_node_prefers_volume_spec_then_link_sink() {
    // A volume spec wins outright.
    let z = ZoneDef {
        name: "z".into(),
        links: vec![link("Audio/Source|Cap#out:cap_FL", "Audio/Sink|Amp#in:playback_FL")],
        volumes: vec![VolumeSpec { node_key: "Audio/Sink|Amp".into(), volume: Some(500_000), channels: vec![], muted: false }],
    };
    assert_eq!(z.primary_node().as_deref(), Some("Audio/Sink|Amp"));

    // No volume spec -> derive the sink node from the first link's input port.
    let z2 = ZoneDef {
        name: "z2".into(),
        links: vec![link("Audio/Source|Cap#out:cap_FL", "Audio/Sink|Patio Amp#in:playback_FL")],
        volumes: vec![],
    };
    assert_eq!(z2.primary_node().as_deref(), Some("Audio/Sink|Patio Amp"));

    // Nothing to control.
    let z3 = ZoneDef { name: "z3".into(), links: vec![], volumes: vec![] };
    assert_eq!(z3.primary_node(), None);
}

#[test]
fn add_zone_appends_and_trims_name() {
    let mut store = ZoneStore::empty();
    store
        .add_zone(ZoneDef {
            name: "  patio  ".into(),
            links: vec![link("Audio/Source|Cap#out:capture_FL", "Audio/Sink|Amp#in:playback_FL")],
            volumes: vec![],
        })
        .unwrap();
    assert_eq!(store.zones.len(), 1);
    // Trimmed name is what's stored and what `get` keys off.
    assert!(store.get("patio").is_some());
}

#[test]
fn add_zone_rejects_duplicate_name() {
    let mut store = ZoneStore::empty();
    let z = || ZoneDef { name: "patio".into(), links: vec![], volumes: vec![] };
    store.add_zone(z()).unwrap();
    assert!(matches!(store.add_zone(z()), Err(ZoneError::ZoneExists(_))));
    assert_eq!(store.zones.len(), 1);
}

#[test]
fn add_zone_rejects_empty_name() {
    let mut store = ZoneStore::empty();
    let r = store.add_zone(ZoneDef { name: "   ".into(), links: vec![], volumes: vec![] });
    assert!(matches!(r, Err(ZoneError::InvalidZone(_))));
    assert!(store.zones.is_empty());
}

#[test]
fn remove_zone_drops_definition_and_active_entry() {
    let mut store = ZoneStore::empty();
    store.add_zone(ZoneDef { name: "patio".into(), links: vec![], volumes: vec![] }).unwrap();
    store.set_active("patio", true).unwrap();
    assert!(store.is_active("patio"));

    store.remove_zone("patio").unwrap();
    assert!(store.get("patio").is_none());
    assert!(!store.is_active("patio"));
    assert!(matches!(store.remove_zone("patio"), Err(ZoneError::NoSuchZone(_))));
}

#[test]
fn activating_unknown_zone_errors() {
    let mut store = ZoneStore::empty();
    assert!(store.set_active("ghost", true).is_err());
}

#[test]
fn default_version_is_current() {
    assert_eq!(default_version(), 1);
    assert_eq!(CURRENT_VERSION, 1);
}

#[test]
fn add_zone_messages_and_trimmed_duplicate() {
    let mut store = ZoneStore::empty();
    store.add_zone(ZoneDef { name: "patio".into(), links: vec![], volumes: vec![] }).unwrap();
    // A name that trims to an existing one is a duplicate, reported trimmed.
    assert_eq!(
        store.add_zone(ZoneDef { name: "\tpatio\u{3000}".into(), links: vec![], volumes: vec![] }),
        Err(ZoneError::ZoneExists("patio".into()))
    );
    assert_eq!(
        store.add_zone(ZoneDef { name: "\u{2003}\n".into(), links: vec![], volumes: vec![] }),
        Err(ZoneError::InvalidZone("zone name must not be empty".into()))
    );
    // Inner white space is kept.
    store.add_zone(ZoneDef { name: " back yard ".into(), links: vec![], volumes: vec![] }).unwrap();
    assert_eq!(store.zones[1].name, "back yard");
}

#[test]
fn set_active_is_idempotent_and_reversible() {
    let mut store = ZoneStore::empty();
    store.add_zone(ZoneDef { name: "patio".into(), links: vec![], volumes: vec![] }).unwrap();
    store.set_active("patio", true).unwrap();
    store.set_active("patio", true).unwrap();
    assert_eq!(store.active, vec!["patio".to_string()]);
    store.set_active("patio", false).unwrap();
    assert!(store.active.is_empty());
    store.set_active("patio", false).unwrap();
    assert!(store.active.is_empty());
    assert_eq!(store.set_active("ghost", false), Err(ZoneError::NoSuchZone("ghost".into())));
}

#[test]
fn update_zone_renames_keeps_volumes_and_active() {
    let mut store = ZoneStore::empty();
    store
        .add_zone(ZoneDef {
            name: "patio".into(),
            links: vec![link("A#out:x", "B#in:y")],
            volumes: vec![VolumeSpec { node_key: "B".into(), volume: Some(600_000), channels: vec![], muted: true }],
        })
        .unwrap();
    store.add_zone(ZoneDef { name: "kitchen".into(), links: vec![], volumes: vec![] }).unwrap();
    store.set_active("patio", true).unwrap();

    store.update_zone("patio", "  deck ", vec![link("C#out:x", "D#in:y")]).unwrap();
    assert!(store.get("patio").is_none());
    let z = store.get("deck").unwrap();
    assert_eq!(z.links, vec![link("C#out:x", "D#in:y")]);
    assert_eq!(z.volumes.len(), 1);
    assert_eq!(z.volumes[0].volume, Some(600_000));
    assert!(store.is_active("deck"));
    assert!(!store.is_active("patio"));

    // Links-only edit under the same name.
    store.update_zone("deck", "deck", vec![link("E#out:x", "F#in:y")]).unwrap();
    assert_eq!(store.get("deck").unwrap().links, vec![link("E#out:x", "F#in:y")]);

    assert_eq!(
        store.update_zone("deck", "kitchen", vec![]),
        Err(ZoneError::ZoneExists("kitchen".into()))
    );
    assert_eq!(store.update_zone("ghost", "x", vec![]), Err(ZoneError::NoSuchZone("ghost".into())));
    assert_eq!(
        store.update_zone("deck", " ", vec![]),
        Err(ZoneError::InvalidZone("zone name must not be empty".into()))
    );
    assert_eq!(store.zones.len(), 2);
}

#[test]
fn upsert_zone_volume_replaces_or_appends() {
    let mut store = ZoneStore::empty();
    store
        .add_zone(ZoneDef {
            name: "patio".into(),
            links: vec![],
            volumes: vec![VolumeSpec { node_key: "SINK".into(), volume: Some(100_000), channels: vec![], muted: true }],
        })
        .unwrap();
    // Per-channel on an existing spec: channels set, uniform cleared, mute kept.
    store.upsert_zone_volume("patio", "SINK", &vec![2, 3], 400_000, None);
    let v = &store.get("patio").unwrap().volumes[0];
    assert_eq!(v.volume, None);
    assert_eq!(v.channels, vec![
        ChannelVolume { channel: 2, volume: 400_000 },
        ChannelVolume { channel: 3, volume: 400_000 },
    ]);
    assert!(v.muted);
    // A new node is appended, uniform, unmuted by default.
    store.upsert_zone_volume("patio", "OTHER", &vec![], 700_000, None);
    let z = store.get("patio").unwrap();
    assert_eq!(z.volumes.len(), 2);
    assert_eq!(z.volumes[1].node_key, "OTHER");
    assert_eq!(z.volumes[1].volume, Some(700_000));
    assert!(!z.volumes[1].muted);
    // Unknown zone: nothing changes.
    store.upsert_zone_volume("ghost", "SINK", &vec![], 1, Some(true));
    assert_eq!(store.zones.len(), 1);
}

#[test]
fn set_node_volume_touches_active_zones_only() {
    let mut store = ZoneStore::empty();
    let spec = |muted| VolumeSpec {
        node_key: "AMP".into(),
        volume: None,
        channels: vec![ChannelVolume { channel: 0, volume: 1 }],
        muted,
    };
    store.add_zone(ZoneDef { name: "on".into(), links: vec![], volumes: vec![spec(false)] }).unwrap();
    store.add_zone(ZoneDef { name: "off".into(), links: vec![], volumes: vec![spec(false)] }).unwrap();
    store.set_active("on", true).unwrap();

    assert!(store.set_node_volume("AMP", 250_000, Some(true)));
    let on = &store.get("on").unwrap().volumes[0];
    assert_eq!(on.volume, Some(250_000));
    assert!(on.channels.is_empty());
    assert!(on.muted);
    let off = &store.get("off").unwrap().volumes[0];
    assert_eq!(off.volume, None);
    assert!(!off.muted);

    assert!(!store.set_node_volume("NOBODY", 250_000, None));
}
