//! Zone definitions and the zone store.
//!
//! A zone is a saved-state lens over the graph: a named set of links plus per-node
//! volumes. The store also records which zones are active, so they are reasserted
//! after a restart. Reading and writing the TOML file is the application's job; the
//! store here is the data and the rules that edit it.

use vstd::prelude::*;
use vstd::string::*;

use crate::search::{first_match, lemma_first_match_found, lemma_first_match_none};
use crate::sorted::text_views;
use crate::text::{before_char, part_before, str_eq, trim, trimmed};
use crate::wire::Level;

verus! {

/// Why an edit of the zone store was refused.
#[derive(Debug, PartialEq, Eq)]
pub enum ZoneError {
    NoSuchZone(String),
    ZoneExists(String),
    InvalidZone(String),
}

/// One link inside a zone, addressed by stable port keys.
#[derive(Debug, PartialEq, Eq)]
pub struct LinkSpec {
    pub output_port: String,
    pub input_port: String,
}

impl Clone for LinkSpec {
    fn clone(&self) -> (r: LinkSpec)
        ensures
            r == *self,
    {
        LinkSpec { output_port: self.output_port.clone(), input_port: self.input_port.clone() }
    }
}

/// One channel's desired level, addressed by 0-based channel index.
#[derive(Clone, Copy, Debug, PartialEq, Eq, Structural)]
pub struct ChannelVolume {
    pub channel: usize,
    pub volume: Level,
}

/// Desired volume for a node inside a zone: uniform (`volume`) or per-channel
/// (`channels`, which wins when non-empty).
#[derive(Debug, PartialEq, Eq)]
pub struct VolumeSpec {
    pub node_key: String,
    pub volume: Option<Level>,
    pub channels: Vec<ChannelVolume>,
    pub muted: bool,
}

/// The mathematical value of a [`VolumeSpec`].
pub struct VolumeSpecView {
    pub node_key: Seq<char>,
    pub volume: Option<Level>,
    pub channels: Seq<ChannelVolume>,
    pub muted: bool,
}

impl View for VolumeSpec {
    type V = VolumeSpecView;

    open spec fn view(&self) -> VolumeSpecView {
        VolumeSpecView {
            node_key: self.node_key@,
            volume: self.volume,
            channels: self.channels@,
            muted: self.muted,
        }
    }
}

impl Clone for VolumeSpec {
    fn clone(&self) -> (r: VolumeSpec)
        ensures
            r@ == self@,
    {
        let channels = self.channels.clone();
        proof {
            assert(channels@ =~= self.channels@);
        }
        VolumeSpec {
            node_key: self.node_key.clone(),
            volume: self.volume,
            channels,
            muted: self.muted,
        }
    }
}

/// A named zone: its links and its volume settings.
#[derive(Debug, PartialEq, Eq)]
pub struct ZoneDef {
    pub name: String,
    pub links: Vec<LinkSpec>,
    pub volumes: Vec<VolumeSpec>,
}

/// The mathematical value of a [`ZoneDef`].
pub struct ZoneDefView {
    pub name: Seq<char>,
    pub links: Seq<LinkSpec>,
    pub volumes: Seq<VolumeSpecView>,
}

impl View for ZoneDef {
    type V = ZoneDefView;

    open spec fn view(&self) -> ZoneDefView {
        ZoneDefView {
            name: self.name@,
            links: self.links@,
            volumes: self.volumes@.map_values(|v: VolumeSpec| v@),
        }
    }
}

impl Clone for ZoneDef {
    fn clone(&self) -> (r: ZoneDef)
        ensures
            r@ == self@,
    {
        let links = self.links.clone();
        let volumes = self.volumes.clone();
        proof {
            assert(links@ =~= self.links@);
            assert(volumes@.map_values(|v: VolumeSpec| v@) =~= self.volumes@.map_values(|v: VolumeSpec| v@));
        }
        ZoneDef { name: self.name.clone(), links, volumes }
    }
}

/// The store format version this library writes.
pub const CURRENT_VERSION: u32 = 1;

/// The version assumed for a store document that does not name one.
pub fn default_version() -> (v: u32)
    ensures
        v == CURRENT_VERSION,
{
    CURRENT_VERSION
}

/// Zone definitions plus the names of the zones that are on.
#[derive(Debug, PartialEq, Eq)]
pub struct ZoneStore {
    pub version: u32,
    pub zones: Vec<ZoneDef>,
    /// Names of zones that are "on". Reasserted on boot.
    pub active: Vec<String>,
}

/// The mathematical value of a [`ZoneStore`].
pub struct ZoneStoreView {
    pub version: u32,
    pub zones: Seq<ZoneDefView>,
    pub active: Seq<Seq<char>>,
}

impl View for ZoneStore {
    type V = ZoneStoreView;

    open spec fn view(&self) -> ZoneStoreView {
        ZoneStoreView {
            version: self.version,
            zones: self.zones@.map_values(|z: ZoneDef| z@),
            active: text_views(self.active@),
        }
    }
}

/// A zone has the given name.
pub open spec fn named(name: Seq<char>) -> spec_fn(ZoneDefView) -> bool {
    |z: ZoneDefView| z.name == name
}

/// Index of the first zone with the given name.
pub open spec fn zone_index(zones: Seq<ZoneDefView>, name: Seq<char>) -> Option<int> {
    first_match(zones, named(name))
}

/// The node a port key belongs to: the text before its first `#`.
pub open spec fn node_of_port_key(port: Seq<char>) -> Seq<char> {
    part_before(port, '#')
}

impl ZoneDef {
    /// The node whose volume the zone tile controls: the first volume spec's node,
    /// else the node of the zone's first link's input port.
    pub open spec fn primary_node_of(z: ZoneDefView) -> Option<Seq<char>> {
        if z.volumes.len() > 0 {
            Some(z.volumes[0].node_key)
        } else if z.links.len() > 0 {
            Some(node_of_port_key(z.links[0].input_port@))
        } else {
            None
        }
    }

    /// The node whose volume the zone tile controls.
    pub fn primary_node(&self) -> (r: Option<String>)
        ensures
            match r {
                Some(k) => ZoneDef::primary_node_of(self@) == Some(k@),
                None => ZoneDef::primary_node_of(self@) is None,
            },
    {
        if self.volumes.len() > 0 {
            return Some(self.volumes[0].node_key.clone());
        }
        if self.links.len() == 0 {
            return None;
        }
        let nk = before_char(self.links[0].input_port.as_str(), '#');
        Some(String::from_str(nk))
    }
}

impl ZoneStore {
    /// An empty store at the current version (what a missing file loads as).
    pub fn empty() -> (s: ZoneStore)
        ensures
            s@.version == CURRENT_VERSION,
            s@.zones.len() == 0,
            s@.active.len() == 0,
    {
        ZoneStore { version: CURRENT_VERSION, zones: Vec::new(), active: Vec::new() }
    }

    /// Index of the first zone named `name`.
    pub fn find(&self, name: &str) -> (r: Option<usize>)
        ensures
            match r {
                Some(i) => zone_index(self@.zones, name@) == Some(i as int),
                None => zone_index(self@.zones, name@) is None,
            },
    {
        let ghost zs = self@.zones;
        let mut i: usize = 0;
        while i < self.zones.len()
            invariant
                zs == self@.zones,
                i <= self.zones.len(),
                forall|j: int| 0 <= j < i ==> !named(name@)(#[trigger] zs[j]),
            decreases self.zones.len() - i,
        {
            if str_eq(self.zones[i].name.as_str(), name) {
                proof {
                    lemma_first_match_found(zs, named(name@), i as int);
                }
                return Some(i);
            }
            i = i + 1;
        }
        proof {
            lemma_first_match_none(zs, named(name@));
        }
        None
    }

    /// The first zone named `name`.
    pub fn get(&self, name: &str) -> (r: Option<&ZoneDef>)
        ensures
            match r {
                Some(z) => zone_index(self@.zones, name@) is Some
                    && z@ == self@.zones[zone_index(self@.zones, name@).unwrap()],
                None => zone_index(self@.zones, name@) is None,
            },
    {
        match self.find(name) {
            Some(i) => Some(&self.zones[i]),
            None => None,
        }
    }

    /// Whether the zone named `name` is on.
    pub fn is_active(&self, name: &str) -> (r: bool)
        ensures
            r == self@.active.contains(name@),
    {
        let ghost act = self@.active;
        let mut i: usize = 0;
        while i < self.active.len()
            invariant
                act == self@.active,
                i <= self.active.len(),
                forall|j: int| 0 <= j < i ==> #[trigger] act[j] != name@,
            decreases self.active.len() - i,
        {
            if str_eq(self.active[i].as_str(), name) {
                proof {
                    assert(act[i as int] == name@);
                }
                return true;
            }
            i = i + 1;
        }
        false
    }
}

/// The names in `names` other than `name`, in order.
pub open spec fn without_name(names: Seq<Seq<char>>, name: Seq<char>) -> Seq<Seq<char>> {
    names.filter(|n: Seq<char>| n != name)
}

/// The zones in `zones` not named `name`, in order.
pub open spec fn without_zone(zones: Seq<ZoneDefView>, name: Seq<char>) -> Seq<ZoneDefView> {
    zones.filter(|z: ZoneDefView| z.name != name)
}

/// Keeps the names other than `name`.
fn drop_name(names: &Vec<String>, name: &str) -> (r: Vec<String>)
    ensures
        text_views(r@) == without_name(text_views(names@), name@),
{
    let ghost src = text_views(names@);
    let mut r: Vec<String> = Vec::new();
    let mut i: usize = 0;
    while i < names.len()
        invariant
            src == text_views(names@),
            i <= names.len(),
            text_views(r@) == without_name(src.take(i as int), name@),
        decreases names.len() - i,
    {
        proof {
            assert(src.take(i + 1) =~= src.take(i as int).push(src[i as int]));
            src.take(i as int).lemma_filter_push(src[i as int], |n: Seq<char>| n != name@);
        }
        if !str_eq(names[i].as_str(), name) {
            let s = names[i].clone();
            r.push(s);
            proof {
                assert(text_views(r@) =~= text_views(r@.drop_last()).push(s@));
            }
        }
        i = i + 1;
    }
    proof {
        assert(src.take(names.len() as int) =~= src);
    }
    r
}

/// Keeps the zones not named `name`.
fn drop_zone(zones: &Vec<ZoneDef>, name: &str) -> (r: Vec<ZoneDef>)
    ensures
        r@.map_values(|z: ZoneDef| z@) == without_zone(zones@.map_values(|z: ZoneDef| z@), name@),
{
    let ghost src = zones@.map_values(|z: ZoneDef| z@);
    let mut r: Vec<ZoneDef> = Vec::new();
    let mut i: usize = 0;
    while i < zones.len()
        invariant
            src == zones@.map_values(|z: ZoneDef| z@),
            i <= zones.len(),
            r@.map_values(|z: ZoneDef| z@) == without_zone(src.take(i as int), name@),
        decreases zones.len() - i,
    {
        proof {
            assert(src.take(i + 1) =~= src.take(i as int).push(src[i as int]));
            src.take(i as int).lemma_filter_push(src[i as int], |z: ZoneDefView| z.name != name@);
        }
        if !str_eq(zones[i].name.as_str(), name) {
            let z = zones[i].clone();
            r.push(z);
            proof {
                assert(r@.map_values(|z: ZoneDef| z@) =~= r@.drop_last().map_values(|z: ZoneDef| z@).push(z@));
            }
        }
        i = i + 1;
    }
    proof {
        assert(src.take(zones.len() as int) =~= src);
    }
    r
}

impl ZoneStore {
    /// Removes the zone named `name` (every definition of that name) and drops it from
    /// the active set. Errors, changing nothing, if no zone has that name.
    pub fn remove_zone(&mut self, name: &str) -> (r: Result<(), ZoneError>)
        ensures
            match r {
                Ok(()) => {
                    &&& zone_index(old(self)@.zones, name@) is Some
                    &&& final(self)@.version == old(self)@.version
                    &&& final(self)@.zones == without_zone(old(self)@.zones, name@)
                    &&& final(self)@.active == without_name(old(self)@.active, name@)
                },
                Err(e) => {
                    &&& zone_index(old(self)@.zones, name@) is None
                    &&& e matches ZoneError::NoSuchZone(n) && n@ == name@
                    &&& final(self)@ == old(self)@
                },
            },
    {
        if self.find(name).is_none() {
            return Err(ZoneError::NoSuchZone(String::from_str(name)));
        }
        let zones = drop_zone(&self.zones, name);
        let active = drop_name(&self.active, name);
        self.zones = zones;
        self.active = active;
        Ok(())
    }

    /// Turns the zone named `name` on or off. Errors, changing nothing, if no zone has
    /// that name. Turning on adds the name once; turning off removes every entry of it.
    pub fn set_active(&mut self, name: &str, active: bool) -> (r: Result<(), ZoneError>)
        ensures
            match r {
                Ok(()) => {
                    &&& zone_index(old(self)@.zones, name@) is Some
                    &&& final(self)@.version == old(self)@.version
                    &&& final(self)@.zones == old(self)@.zones
                    &&& final(self)@.active == if active && !old(self)@.active.contains(name@) {
                        old(self)@.active.push(name@)
                    } else if !active && old(self)@.active.contains(name@) {
                        without_name(old(self)@.active, name@)
                    } else {
                        old(self)@.active
                    }
                },
                Err(e) => {
                    &&& zone_index(old(self)@.zones, name@) is None
                    &&& e matches ZoneError::NoSuchZone(n) && n@ == name@
                    &&& final(self)@ == old(self)@
                },
            },
    {
        if self.find(name).is_none() {
            return Err(ZoneError::NoSuchZone(String::from_str(name)));
        }
        let present = self.is_active(name);
        if active && !present {
            let s = String::from_str(name);
            self.active.push(s);
            proof {
                assert(text_views(self.active@) =~= old(self)@.active.push(name@));
            }
        } else if !active && present {
            let kept = drop_name(&self.active, name);
            self.active = kept;
        }
        Ok(())
    }
}


/// The active-name list after renaming `from` to `to`.
pub open spec fn renamed(names: Seq<Seq<char>>, from: Seq<char>, to: Seq<char>) -> Seq<Seq<char>> {
    names.map_values(|n: Seq<char>| if n == from { to } else { n })
}

impl ZoneStore {
    /// Adds a new zone. The stored name is the given name trimmed of white space; an
    /// empty (trimmed) name and a name already in use are refused, changing nothing.
    pub fn add_zone(&mut self, zone: ZoneDef) -> (r: Result<(), ZoneError>)
        ensures
            match r {
                Ok(()) => {
                    &&& trimmed(zone@.name).len() > 0
                    &&& zone_index(old(self)@.zones, trimmed(zone@.name)) is None
                    &&& final(self)@.version == old(self)@.version
                    &&& final(self)@.active == old(self)@.active
                    &&& final(self)@.zones == old(self)@.zones.push(
                        ZoneDefView { name: trimmed(zone@.name), ..zone@ },
                    )
                },
                Err(e) => {
                    &&& final(self)@ == old(self)@
                    &&& if trimmed(zone@.name).len() == 0 {
                        e matches ZoneError::InvalidZone(m) && m@ == "zone name must not be empty"@
                    } else {
                        &&& zone_index(old(self)@.zones, trimmed(zone@.name)) is Some
                        &&& e matches ZoneError::ZoneExists(n) && n@ == trimmed(zone@.name)
                    }
                },
            },
    {
        let name = String::from_str(trim(zone.name.as_str()));
        if name.as_str().unicode_len() == 0 {
            return Err(ZoneError::InvalidZone(String::from_str("zone name must not be empty")));
        }
        if self.find(name.as_str()).is_some() {
            return Err(ZoneError::ZoneExists(name));
        }
        let mut zone = zone;
        zone.name = name;
        self.zones.push(zone);
        proof {
            assert(self@.zones =~= old(self)@.zones.push(ZoneDefView { name: name@, ..zone@ }));
        }
        Ok(())
    }

    /// Renames the zone `name` to `new_name` (trimmed) and replaces its links, keeping its
    /// volumes; an active zone stays active under its new name. Refused, changing
    /// nothing, for an empty new name, an unknown zone, or a new name another zone holds.
    pub fn update_zone(&mut self, name: &str, new_name: &str, links: Vec<LinkSpec>) -> (r: Result<
        (),
        ZoneError,
    >)
        ensures
            match r {
                Ok(()) => {
                    let i = zone_index(old(self)@.zones, name@).unwrap();
                    let t = trimmed(new_name@);
                    &&& t.len() > 0
                    &&& zone_index(old(self)@.zones, name@) is Some
                    &&& (t != name@ ==> zone_index(old(self)@.zones, t) is None)
                    &&& final(self)@.version == old(self)@.version
                    &&& final(self)@.zones == old(self)@.zones.update(
                        i,
                        ZoneDefView { name: t, links: links@, volumes: old(self)@.zones[i].volumes },
                    )
                    &&& final(self)@.active == renamed(old(self)@.active, name@, t)
                },
                Err(e) => {
                    let t = trimmed(new_name@);
                    &&& final(self)@ == old(self)@
                    &&& if t.len() == 0 {
                        e matches ZoneError::InvalidZone(m) && m@ == "zone name must not be empty"@
                    } else if zone_index(old(self)@.zones, name@) is None {
                        e matches ZoneError::NoSuchZone(n) && n@ == name@
                    } else {
                        &&& t != name@
                        &&& zone_index(old(self)@.zones, t) is Some
                        &&& e matches ZoneError::ZoneExists(n) && n@ == t
                    }
                },
            },
    {
        let t = String::from_str(trim(new_name));
        if t.as_str().unicode_len() == 0 {
            return Err(ZoneError::InvalidZone(String::from_str("zone name must not be empty")));
        }
        let i = match self.find(name) {
            Some(i) => i,
            None => {
                return Err(ZoneError::NoSuchZone(String::from_str(name)));
            },
        };
        if !str_eq(t.as_str(), name) && self.find(t.as_str()).is_some() {
            return Err(ZoneError::ZoneExists(t));
        }
        let volumes = self.zones[i].volumes.clone();
        proof {
            assert(volumes@.map_values(|v: VolumeSpec| v@) =~= self.zones@[i as int].volumes@.map_values(
                |v: VolumeSpec| v@,
            ));
        }
        let z = ZoneDef { name: t.clone(), links, volumes };
        self.zones.set(i, z);
        let ghost act = old(self)@.active;
        let mut active: Vec<String> = Vec::new();
        let mut k: usize = 0;
        while k < self.active.len()
            invariant
                act == text_views(self.active@),
                k <= self.active.len(),
                text_views(active@) == renamed(act.take(k as int), name@, t@),
            decreases self.active.len() - k,
        {
            let s = if str_eq(self.active[k].as_str(), name) {
                t.clone()
            } else {
                self.active[k].clone()
            };
            let ghost prev = text_views(active@);
            proof {
                assert(act[k as int] == self.active@[k as int]@);
                assert(s@ == (if act[k as int] == name@ { t@ } else { act[k as int] }));
            }
            active.push(s);
            proof {
                assert(text_views(active@) =~= prev.push(s@));
                assert(act.take(k + 1) =~= act.take(k as int).push(act[k as int]));
                assert(text_views(active@) =~= renamed(act.take(k + 1), name@, t@));
            }
            k = k + 1;
        }
        proof {
            assert(act.take(k as int) =~= act);
        }
        self.active = active;
        proof {
            assert(self@.zones =~= old(self)@.zones.update(
                i as int,
                ZoneDefView { name: t@, links: links@, volumes: old(self)@.zones[i as int].volumes },
            ));
        }
        Ok(())
    }
}


/// A volume spec is about the node `key`.
pub open spec fn for_node(key: Seq<char>) -> spec_fn(VolumeSpecView) -> bool {
    |v: VolumeSpecView| v.node_key == key
}

/// The volume spec a zone-volume change stores: the level on the given channels, or
/// uniformly when no channel is given.
pub open spec fn zone_volume_spec(node_key: Seq<char>, channels: Seq<usize>, level: Level, muted: bool) -> VolumeSpecView {
    VolumeSpecView {
        node_key,
        volume: if channels.len() == 0 { Some(level) } else { None },
        channels: channels.map_values(|c: usize| ChannelVolume { channel: c, volume: level }),
        muted,
    }
}

/// A zone's volume specs after storing a zone-volume change for `key`: the first spec
/// for that node is replaced, or a new one appended. Mute is kept when not given.
pub open spec fn upserted(
    vols: Seq<VolumeSpecView>,
    key: Seq<char>,
    channels: Seq<usize>,
    level: Level,
    muted: Option<bool>,
) -> Seq<VolumeSpecView> {
    match first_match(vols, for_node(key)) {
        Some(j) => vols.update(
            j,
            zone_volume_spec(
                key,
                channels,
                level,
                match muted {
                    Some(m) => m,
                    None => vols[j].muted,
                },
            ),
        ),
        None => vols.push(
            zone_volume_spec(
                key,
                channels,
                level,
                match muted {
                    Some(m) => m,
                    None => false,
                },
            ),
        ),
    }
}

/// A spec after a node-wide level change on `key`: uniform at `level`, mute kept when
/// not given. Specs for other nodes are unchanged.
pub open spec fn node_level_set(v: VolumeSpecView, key: Seq<char>, level: Level, muted: Option<bool>) -> VolumeSpecView {
    if v.node_key == key {
        VolumeSpecView {
            node_key: v.node_key,
            volume: Some(level),
            channels: Seq::empty(),
            muted: match muted {
                Some(m) => m,
                None => v.muted,
            },
        }
    } else {
        v
    }
}

/// A zone after a node-wide level change on `key`: only active zones take it.
pub open spec fn zone_level_set(
    z: ZoneDefView,
    active: Seq<Seq<char>>,
    key: Seq<char>,
    level: Level,
    muted: Option<bool>,
) -> ZoneDefView {
    if active.contains(z.name) {
        ZoneDefView {
            volumes: z.volumes.map_values(|v: VolumeSpecView| node_level_set(v, key, level, muted)),
            ..z
        }
    } else {
        z
    }
}

/// Some active zone has a volume spec for the node `key`.
pub open spec fn governed_by_active_zone(store: ZoneStoreView, key: Seq<char>) -> bool {
    exists|i: int, j: int|
        0 <= i < store.zones.len() && store.active.contains(store.zones[i].name) && 0 <= j
            < store.zones[i].volumes.len() && #[trigger] store.zones[i].volumes[j].node_key == key
}

/// Builds the volume spec a zone-volume change stores.
fn make_zone_volume_spec(node_key: &str, channels: &Vec<usize>, level: Level, muted: bool) -> (r: VolumeSpec)
    ensures
        r@ == zone_volume_spec(node_key@, channels@, level, muted),
{
    let mut cs: Vec<ChannelVolume> = Vec::new();
    let mut i: usize = 0;
    while i < channels.len()
        invariant
            i <= channels.len(),
            cs@ == channels@.take(i as int).map_values(|c: usize| ChannelVolume { channel: c, volume: level }),
        decreases channels.len() - i,
    {
        cs.push(ChannelVolume { channel: channels[i], volume: level });
        proof {
            assert(channels@.take(i + 1) =~= channels@.take(i as int).push(channels@[i as int]));
            assert(cs@ =~= channels@.take(i + 1).map_values(|c: usize| ChannelVolume { channel: c, volume: level }));
        }
        i = i + 1;
    }
    proof {
        assert(channels@.take(i as int) =~= channels@);
    }
    let volume = if channels.len() == 0 { Some(level) } else { None };
    VolumeSpec { node_key: String::from_str(node_key), volume, channels: cs, muted }
}

impl ZoneStore {
    /// Stores a zone-volume change on the zone `name`: its spec for `node_key` becomes
    /// the level on `channels` (uniform when empty). No change for an unknown zone.
    pub fn upsert_zone_volume(
        &mut self,
        name: &str,
        node_key: &str,
        channels: &Vec<usize>,
        level: Level,
        muted: Option<bool>,
    )
        ensures
            match zone_index(old(self)@.zones, name@) {
                Some(i) => {
                    &&& final(self)@.version == old(self)@.version
                    &&& final(self)@.active == old(self)@.active
                    &&& final(self)@.zones == old(self)@.zones.update(
                        i,
                        ZoneDefView {
                            volumes: upserted(old(self)@.zones[i].volumes, node_key@, channels@, level, muted),
                            ..old(self)@.zones[i]
                        },
                    )
                },
                None => final(self)@ == old(self)@,
            },
    {
        let i = match self.find(name) {
            Some(i) => i,
            None => {
                return;
            },
        };
        let mut z = self.zones[i].clone();
        let ghost vols = z@.volumes;
        let mut j: usize = 0;
        let mut found = false;
        while j < z.volumes.len()
            invariant_except_break
                !found,
            invariant
                vols == z@.volumes,
                j <= z.volumes.len(),
                forall|k: int| 0 <= k < j ==> !for_node(node_key@)(#[trigger] vols[k]),
            ensures
                vols == z@.volumes,
                j <= z.volumes.len(),
                forall|k: int| 0 <= k < j ==> !for_node(node_key@)(#[trigger] vols[k]),
                found ==> j < z.volumes.len() && for_node(node_key@)(vols[j as int]),
                !found ==> j == z.volumes.len(),
            decreases z.volumes.len() - j,
        {
            if str_eq(z.volumes[j].node_key.as_str(), node_key) {
                found = true;
                break;
            }
            j = j + 1;
        }
        let ghost before = z@;
        if found {
            proof {
                lemma_first_match_found(vols, for_node(node_key@), j as int);
            }
            let m = match muted {
                Some(m) => m,
                None => z.volumes[j].muted,
            };
            let spec = make_zone_volume_spec(node_key, channels, level, m);
            z.volumes.set(j, spec);
            proof {
                assert(z@.volumes =~= vols.update(j as int, spec@));
            }
        } else {
            proof {
                lemma_first_match_none(vols, for_node(node_key@));
            }
            let m = match muted {
                Some(m) => m,
                None => false,
            };
            let spec = make_zone_volume_spec(node_key, channels, level, m);
            z.volumes.push(spec);
            proof {
                assert(z@.volumes =~= vols.push(spec@));
            }
        }
        self.zones.set(i, z);
        proof {
            assert(self@.zones =~= old(self)@.zones.update(
                i as int,
                ZoneDefView {
                    volumes: upserted(old(self)@.zones[i as int].volumes, node_key@, channels@, level, muted),
                    ..old(self)@.zones[i as int]
                },
            ));
        }
    }

    /// Stores a node-wide level change for the node `key` on every active zone that has a
    /// volume spec for it. Returns whether any active zone governs that node.
    pub fn set_node_volume(&mut self, key: &str, level: Level, muted: Option<bool>) -> (r: bool)
        ensures
            final(self)@.version == old(self)@.version,
            final(self)@.active == old(self)@.active,
            final(self)@.zones == old(self)@.zones.map_values(
                |z: ZoneDefView| zone_level_set(z, old(self)@.active, key@, level, muted),
            ),
            r == governed_by_active_zone(old(self)@, key@),
    {
        let ghost old_store = self@;
        let ghost target = old_store.zones.map_values(
            |z: ZoneDefView| zone_level_set(z, old_store.active, key@, level, muted),
        );
        let mut changed = false;
        let mut i: usize = 0;
        while i < self.zones.len()
            invariant
                old_store == old(self)@,
                target == old_store.zones.map_values(
                    |z: ZoneDefView| zone_level_set(z, old_store.active, key@, level, muted),
                ),
                self@.version == old_store.version,
                self@.active == old_store.active,
                self@.zones.len() == old_store.zones.len(),
                i <= self.zones.len(),
                forall|k: int| 0 <= k < i ==> #[trigger] self@.zones[k] == target[k],
                forall|k: int| i <= k < self@.zones.len() ==> #[trigger] self@.zones[k] == old_store.zones[k],
                changed == exists|a: int, b: int|
                    0 <= a < i && old_store.active.contains(old_store.zones[a].name) && 0 <= b
                        < old_store.zones[a].volumes.len() && #[trigger] old_store.zones[a].volumes[b].node_key
                        == key@,
            decreases self.zones.len() - i,
        {
            proof {
                assert(self@.zones[i as int] == old_store.zones[i as int]);
            }
            if self.is_active(self.zones[i].name.as_str()) {
                let mut z = self.zones[i].clone();
                let ghost zv = z@;
                let mut vols: Vec<VolumeSpec> = Vec::new();
                let mut j: usize = 0;
                let mut hit = false;
                while j < z.volumes.len()
                    invariant
                        zv == z@,
                        j <= z.volumes.len(),
                        vols@.map_values(|v: VolumeSpec| v@) == zv.volumes.take(j as int).map_values(
                            |v: VolumeSpecView| node_level_set(v, key@, level, muted),
                        ),
                        hit == exists|b: int| 0 <= b < j && #[trigger] zv.volumes[b].node_key == key@,
                    decreases z.volumes.len() - j,
                {
                    let v = if str_eq(z.volumes[j].node_key.as_str(), key) {
                        hit = true;
                        let m = match muted {
                            Some(m) => m,
                            None => z.volumes[j].muted,
                        };
                        VolumeSpec {
                            node_key: z.volumes[j].node_key.clone(),
                            volume: Some(level),
                            channels: Vec::new(),
                            muted: m,
                        }
                    } else {
                        z.volumes[j].clone()
                    };
                    let ghost prev = vols@.map_values(|v: VolumeSpec| v@);
                    vols.push(v);
                    proof {
                        assert(v@ == node_level_set(zv.volumes[j as int], key@, level, muted));
                        assert(vols@.map_values(|v: VolumeSpec| v@) =~= prev.push(v@));
                        assert(zv.volumes.take(j + 1) =~= zv.volumes.take(j as int).push(zv.volumes[j as int]));
                        assert(vols@.map_values(|v: VolumeSpec| v@) =~= zv.volumes.take(j + 1).map_values(
                            |v: VolumeSpecView| node_level_set(v, key@, level, muted),
                        ));
                    }
                    j = j + 1;
                }
                proof {
                    assert(zv.volumes.take(j as int) =~= zv.volumes);
                }
                z.volumes = vols;
                let ghost zs_before = self@.zones;
                self.zones.set(i, z);
                proof {
                    assert(z@ == target[i as int]);
                    assert(self@.zones =~= zs_before.update(i as int, z@));
                    if hit {
                        let b = choose|b: int| 0 <= b < j && #[trigger] zv.volumes[b].node_key == key@;
                        assert(old_store.zones[i as int].volumes[b].node_key == key@);
                    }
                }
                if hit {
                    changed = true;
                }
            } else {
                proof {
                    assert(target[i as int] == old_store.zones[i as int]);
                }
            }
            i = i + 1;
        }
        proof {
            assert(self@.zones =~= target);
        }
        changed
    }
}

} // verus!
