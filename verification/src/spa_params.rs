//! The SPA params the PipeWire backend reads and writes: a node's `Props` (per-channel
//! levels and mute) and a device's `Route` (which route, and the `Props` nested in it).
//! PipeWire hands them over as PODs; the application deserializes a POD into the
//! [`PodValue`] shape below, and serializes what [`props_to_write`] and
//! [`route_to_write`] return.

use vstd::prelude::*;

use crate::wire::Level;

verus! {

/// The properties of SPA objects the backend reads and writes, by role. PipeWire
/// numbers them per object type; the application maps those numbers onto these.
#[derive(Clone, Copy, Debug, PartialEq, Eq, Structural)]
pub enum PodKey {
    /// `channelVolumes` of a `Props` object.
    ChannelVolumes,
    /// `mute` of a `Props` object.
    Mute,
    /// `index` of a `Route` object.
    RouteIndex,
    /// `device` (the profile-device index) of a `Route` object.
    RouteDevice,
    /// `props` (the nested `Props` object) of a `Route` object.
    RouteProps,
    /// `save` of a `Route` object.
    RouteSave,
    /// Any other property.
    Other,
}

/// A POD value, as far as the backend looks into it. Float arrays are carried as
/// levels.
pub enum PodValue {
    Int(i32),
    Bool(bool),
    Floats(Vec<Level>),
    Object(Vec<PodProperty>),
    Other,
}

/// One property of a POD object.
pub struct PodProperty {
    pub key: PodKey,
    pub value: PodValue,
}

/// The levels of the last `channelVolumes` float array among `ps`.
pub open spec fn scanned_levels(ps: Seq<PodProperty>) -> Option<Seq<Level>>
    decreases ps.len(),
{
    if ps.len() == 0 {
        None
    } else {
        match ps.last().value {
            PodValue::Floats(v) => if ps.last().key == PodKey::ChannelVolumes {
                Some(v@)
            } else {
                scanned_levels(ps.drop_last())
            },
            _ => scanned_levels(ps.drop_last()),
        }
    }
}

/// The last boolean `mute` among `ps`.
pub open spec fn scanned_mute(ps: Seq<PodProperty>) -> Option<bool>
    decreases ps.len(),
{
    if ps.len() == 0 {
        None
    } else {
        match ps.last().value {
            PodValue::Bool(b) => if ps.last().key == PodKey::Mute {
                Some(b)
            } else {
                scanned_mute(ps.drop_last())
            },
            _ => scanned_mute(ps.drop_last()),
        }
    }
}

/// The last integer under `k` among `ps`.
pub open spec fn scanned_int(ps: Seq<PodProperty>, k: PodKey) -> Option<i32>
    decreases ps.len(),
{
    if ps.len() == 0 {
        None
    } else {
        match ps.last().value {
            PodValue::Int(i) => if ps.last().key == k {
                Some(i)
            } else {
                scanned_int(ps.drop_last(), k)
            },
            _ => scanned_int(ps.drop_last(), k),
        }
    }
}

/// The properties of the last object under `props` among `ps`.
pub open spec fn scanned_props(ps: Seq<PodProperty>) -> Option<Seq<PodProperty>>
    decreases ps.len(),
{
    if ps.len() == 0 {
        None
    } else {
        match ps.last().value {
            PodValue::Object(inner) => if ps.last().key == PodKey::RouteProps {
                Some(inner@)
            } else {
                scanned_props(ps.drop_last())
            },
            _ => scanned_props(ps.drop_last()),
        }
    }
}

/// What a node `Props` param reports: its per-channel levels and mute, each when
/// present; `None` for a param that is not an object or reports neither.
pub open spec fn decoded_props(v: PodValue) -> Option<(Option<Seq<Level>>, Option<bool>)> {
    match v {
        PodValue::Object(ps) => if scanned_levels(ps@) is None && scanned_mute(ps@) is None {
            None
        } else {
            Some((scanned_levels(ps@), scanned_mute(ps@)))
        },
        _ => None,
    }
}

/// What a device `Route` param reports: (route index, profile-device index, levels,
/// mute); `None` unless it carries an index, a profile-device index and a nested
/// `Props` object that reports levels or mute.
pub open spec fn decoded_route(v: PodValue) -> Option<(i32, i32, Option<Seq<Level>>, Option<bool>)> {
    match v {
        PodValue::Object(ps) => match (scanned_int(ps@, PodKey::RouteIndex), scanned_int(ps@, PodKey::RouteDevice), scanned_props(ps@)) {
            (Some(i), Some(d), Some(inner)) => if scanned_levels(inner) is None && scanned_mute(inner) is None {
                None
            } else {
                Some((i, d, scanned_levels(inner), scanned_mute(inner)))
            },
            _ => None,
        },
        _ => None,
    }
}

/// The `Props` properties that set the given levels and mute, levels first.
pub open spec fn written_props(levels: Option<Vec<Level>>, mute: Option<bool>) -> Seq<PodProperty> {
    let a = match levels {
        Some(v) => seq![PodProperty { key: PodKey::ChannelVolumes, value: PodValue::Floats(v) }],
        None => Seq::empty(),
    };
    let b = match mute {
        Some(m) => seq![PodProperty { key: PodKey::Mute, value: PodValue::Bool(m) }],
        None => Seq::empty(),
    };
    a + b
}

/// Reads the per-channel levels and mute out of the properties of a `Props` object;
/// where a property occurs more than once, the last one counts.
pub fn scan_props_object(ps: &Vec<PodProperty>) -> (r: (Option<Vec<Level>>, Option<bool>))
    ensures
        match r.0 {
            Some(v) => scanned_levels(ps@) == Some(v@),
            None => scanned_levels(ps@) is None,
        },
        r.1 == scanned_mute(ps@),
{
    let mut levels: Option<Vec<Level>> = None;
    let mut mute: Option<bool> = None;
    let mut k: usize = 0;
    while k < ps.len()
        invariant
            k <= ps@.len(),
            match levels {
                Some(v) => scanned_levels(ps@.take(k as int)) == Some(v@),
                None => scanned_levels(ps@.take(k as int)) is None,
            },
            mute == scanned_mute(ps@.take(k as int)),
        decreases ps.len() - k,
    {
        proof {
            assert(ps@.take(k + 1).drop_last() =~= ps@.take(k as int));
            assert(ps@.take(k + 1).last() == ps@[k as int]);
        }
        let p = &ps[k];
        match &p.value {
            PodValue::Floats(v) => {
                if p.key == PodKey::ChannelVolumes {
                    let c = v.clone();
                    proof {
                        assert(c@ =~= v@);
                    }
                    levels = Some(c);
                }
            },
            PodValue::Bool(b) => {
                if p.key == PodKey::Mute {
                    mute = Some(*b);
                }
            },
            _ => {},
        }
        k = k + 1;
    }
    proof {
        assert(ps@.take(k as int) =~= ps@);
    }
    (levels, mute)
}

/// Reads a node `Props` param: its levels and mute, or `None` when it reports neither.
pub fn decode_props(v: &PodValue) -> (r: Option<(Option<Vec<Level>>, Option<bool>)>)
    ensures
        match r {
            Some((l, m)) => decoded_props(*v) == Some((opt_levels(l), m)),
            None => decoded_props(*v) is None,
        },
{
    match v {
        PodValue::Object(ps) => {
            let (l, m) = scan_props_object(ps);
            if l.is_none() && m.is_none() {
                None
            } else {
                Some((l, m))
            }
        },
        _ => None,
    }
}

/// The levels of an optional level vector.
pub open spec fn opt_levels(l: Option<Vec<Level>>) -> Option<Seq<Level>> {
    match l {
        Some(v) => Some(v@),
        None => None,
    }
}

/// The last integer under `k` among `ps`.
fn scan_int(ps: &Vec<PodProperty>, k: PodKey) -> (r: Option<i32>)
    ensures
        r == scanned_int(ps@, k),
{
    let mut found: Option<i32> = None;
    let mut j: usize = 0;
    while j < ps.len()
        invariant
            j <= ps@.len(),
            found == scanned_int(ps@.take(j as int), k),
        decreases ps.len() - j,
    {
        proof {
            assert(ps@.take(j + 1).drop_last() =~= ps@.take(j as int));
            assert(ps@.take(j + 1).last() == ps@[j as int]);
        }
        match &ps[j].value {
            PodValue::Int(i) => {
                if ps[j].key == k {
                    found = Some(*i);
                }
            },
            _ => {},
        }
        j = j + 1;
    }
    proof {
        assert(ps@.take(j as int) =~= ps@);
    }
    found
}

/// The position of the last object under `props` among `ps`.
fn scan_props_position(ps: &Vec<PodProperty>) -> (r: Option<usize>)
    ensures
        match r {
            Some(j) => {
                &&& j < ps@.len()
                &&& ps@[j as int].value matches PodValue::Object(inner) && scanned_props(ps@) == Some(inner@)
            },
            None => scanned_props(ps@) is None,
        },
{
    let mut found: Option<usize> = None;
    let mut j: usize = 0;
    while j < ps.len()
        invariant
            j <= ps@.len(),
            match found {
                Some(i) => {
                    &&& i < j
                    &&& ps@[i as int].value matches PodValue::Object(inner) && scanned_props(ps@.take(j as int))
                        == Some(inner@)
                },
                None => scanned_props(ps@.take(j as int)) is None,
            },
        decreases ps.len() - j,
    {
        proof {
            assert(ps@.take(j + 1).drop_last() =~= ps@.take(j as int));
            assert(ps@.take(j + 1).last() == ps@[j as int]);
        }
        match &ps[j].value {
            PodValue::Object(_) => {
                if ps[j].key == PodKey::RouteProps {
                    found = Some(j);
                }
            },
            _ => {},
        }
        j = j + 1;
    }
    proof {
        assert(ps@.take(j as int) =~= ps@);
    }
    found
}

/// Reads a device `Route` param: (route index, profile-device index, levels, mute),
/// or `None` when it lacks an address or reports neither levels nor mute.
pub fn decode_route(v: &PodValue) -> (r: Option<(i32, i32, Option<Vec<Level>>, Option<bool>)>)
    ensures
        match r {
            Some((i, d, l, m)) => decoded_route(*v) == Some((i, d, opt_levels(l), m)),
            None => decoded_route(*v) is None,
        },
{
    match v {
        PodValue::Object(ps) => {
            let index = scan_int(ps, PodKey::RouteIndex);
            let device = scan_int(ps, PodKey::RouteDevice);
            let pos = scan_props_position(ps);
            match (index, device, pos) {
                (Some(i), Some(d), Some(j)) => match &ps[j].value {
                    PodValue::Object(inner) => {
                        let (l, m) = scan_props_object(inner);
                        if l.is_none() && m.is_none() {
                            None
                        } else {
                            Some((i, d, l, m))
                        }
                    },
                    _ => None,
                },
                _ => None,
            }
        },
        _ => None,
    }
}

/// The `Props` properties that set `levels` and `mute`; `None` when there is nothing
/// to set.
pub fn props_to_write(levels: Option<Vec<Level>>, mute: Option<bool>) -> (r: Option<Vec<PodProperty>>)
    ensures
        match r {
            Some(ps) => !(levels is None && mute is None) && ps@ == written_props(levels, mute),
            None => levels is None && mute is None,
        },
{
    let ghost l0 = levels;
    let mut out: Vec<PodProperty> = Vec::new();
    match levels {
        Some(v) => {
            out.push(PodProperty { key: PodKey::ChannelVolumes, value: PodValue::Floats(v) });
        },
        None => {},
    }
    match mute {
        Some(m) => {
            out.push(PodProperty { key: PodKey::Mute, value: PodValue::Bool(m) });
        },
        None => {},
    }
    if out.len() == 0 {
        None
    } else {
        proof {
            assert(out@ =~= written_props(l0, mute));
        }
        Some(out)
    }
}

/// The `Route` properties that set a route's levels and mute and save them: its index,
/// its profile-device index, the nested `Props` and `save`; `None` when there is
/// nothing to set.
pub fn route_to_write(route_index: i32, device_index: i32, levels: Option<Vec<Level>>, mute: Option<bool>) -> (r:
    Option<Vec<PodProperty>>)
    ensures
        match r {
            Some(ps) => {
                &&& !(levels is None && mute is None)
                &&& ps@.len() == 4
                &&& ps@[0] == PodProperty { key: PodKey::RouteIndex, value: PodValue::Int(route_index) }
                &&& ps@[1] == PodProperty { key: PodKey::RouteDevice, value: PodValue::Int(device_index) }
                &&& ps@[2].key == PodKey::RouteProps
                &&& ps@[2].value matches PodValue::Object(inner) && inner@ == written_props(levels, mute)
                &&& ps@[3] == PodProperty { key: PodKey::RouteSave, value: PodValue::Bool(true) }
            },
            None => levels is None && mute is None,
        },
{
    match props_to_write(levels, mute) {
        Some(inner) => {
            let mut out: Vec<PodProperty> = Vec::new();
            out.push(PodProperty { key: PodKey::RouteIndex, value: PodValue::Int(route_index) });
            out.push(PodProperty { key: PodKey::RouteDevice, value: PodValue::Int(device_index) });
            out.push(PodProperty { key: PodKey::RouteProps, value: PodValue::Object(inner) });
            out.push(PodProperty { key: PodKey::RouteSave, value: PodValue::Bool(true) });
            Some(out)
        },
        None => None,
    }
}

} // verus!
