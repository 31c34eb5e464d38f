//! The object-centric event log (OCEL) of a configuration's lifecycle
//! events, as plain data.
//!
//! The log records lifecycle history only: it computes no quality score and
//! grants no admission standing.

use vstd::prelude::*;
use crate::text::{owned, push_str, str_eq, has_prefix};
use crate::events::{AdmissionEvent, ConfigEventKind, kind_name};
use crate::validation::copy_string;

verus! {

/// An object of the log: its identity, its type and its string attributes.
#[derive(Debug, Clone)]
pub struct OcelObject {
    pub id: String,
    pub object_type: String,
    pub attributes: Vec<(String, String)>,
}

/// An event of the log: identity, activity, timestamp and string attributes.
#[derive(Debug, Clone)]
pub struct OcelEvent {
    pub id: String,
    pub activity: String,
    pub timestamp_ns: u64,
    pub attributes: Vec<(String, String)>,
}

/// A qualified link from an event to an object.
#[derive(Debug, Clone)]
pub struct OcelLink {
    pub event_id: String,
    pub object_id: String,
    pub qualifier: String,
}

/// The log: objects (each identity once), events, event-to-object links.
#[derive(Debug, Clone)]
pub struct OcelLog {
    pub objects: Vec<OcelObject>,
    pub events: Vec<OcelEvent>,
    pub links: Vec<OcelLink>,
}

/// The model of a string attribute list.
pub open spec fn attr_views(s: Seq<(String, String)>) -> Seq<(Seq<char>, Seq<char>)> {
    Seq::new(s.len(), |i: int| (s[i].0@, s[i].1@))
}

/// The model of an object.
pub struct ObjectView {
    pub id: Seq<char>,
    pub object_type: Seq<char>,
    pub attributes: Seq<(Seq<char>, Seq<char>)>,
}

/// The model of an event.
pub struct EventView {
    pub id: Seq<char>,
    pub activity: Seq<char>,
    pub timestamp_ns: u64,
    pub attributes: Seq<(Seq<char>, Seq<char>)>,
}

/// The model of a link.
pub struct LinkView {
    pub event_id: Seq<char>,
    pub object_id: Seq<char>,
    pub qualifier: Seq<char>,
}

impl View for OcelObject {
    type V = ObjectView;

    open spec fn view(&self) -> ObjectView {
        ObjectView { id: self.id@, object_type: self.object_type@, attributes: attr_views(self.attributes@) }
    }
}

impl View for OcelEvent {
    type V = EventView;

    open spec fn view(&self) -> EventView {
        EventView {
            id: self.id@,
            activity: self.activity@,
            timestamp_ns: self.timestamp_ns,
            attributes: attr_views(self.attributes@),
        }
    }
}

impl View for OcelLink {
    type V = LinkView;

    open spec fn view(&self) -> LinkView {
        LinkView { event_id: self.event_id@, object_id: self.object_id@, qualifier: self.qualifier@ }
    }
}

/// The models of objects.
pub open spec fn object_views(s: Seq<OcelObject>) -> Seq<ObjectView> {
    Seq::new(s.len(), |i: int| s[i]@)
}

/// The models of events.
pub open spec fn event_views(s: Seq<OcelEvent>) -> Seq<EventView> {
    Seq::new(s.len(), |i: int| s[i]@)
}

/// The models of links.
pub open spec fn link_views(s: Seq<OcelLink>) -> Seq<LinkView> {
    Seq::new(s.len(), |i: int| s[i]@)
}

/// The object type of a referenced object, by the prefix of its identity.
pub open spec fn object_type_of(id: Seq<char>) -> Seq<char> {
    if "source_"@.is_prefix_of(id) {
        "ConfigSource"@
    } else if "layer_"@.is_prefix_of(id) {
        "Layer"@
    } else if "env_"@.is_prefix_of(id) {
        "EnvOverride"@
    } else if "field_"@.is_prefix_of(id) {
        "ConfigField"@
    } else if "validation_"@.is_prefix_of(id) {
        "ValidationReport"@
    } else if "canonical_"@.is_prefix_of(id) {
        "CanonicalConfig"@
    } else {
        "ConfigObject"@
    }
}

/// The identity of a run's object: `run_` and the run's identity.
pub open spec fn run_object_id(run_id: Seq<char>) -> Seq<char> {
    "run_"@ + run_id
}

/// The log event of an admission event.
pub open spec fn event_record(e: AdmissionEvent) -> EventView {
    EventView {
        id: e.event_id@,
        activity: kind_name(e.event_kind),
        timestamp_ns: e.timestamp_or_sequence,
        attributes: attr_views(e.attributes@),
    }
}

/// The objects an event mentions, in order: its run (type `ConfigRun`, with
/// the run's identity as attribute `run_id`), then each referenced object.
pub open spec fn event_objects(e: AdmissionEvent) -> Seq<ObjectView> {
    seq![ObjectView { id: run_object_id(e.run_id@), object_type: "ConfigRun"@, attributes: seq![("run_id"@, e.run_id@)] }]
        + Seq::new(
        e.object_refs@.len(),
        |i: int| ObjectView { id: e.object_refs@[i]@, object_type: object_type_of(e.object_refs@[i]@), attributes: Seq::empty() },
    )
}

/// The links of an event: to its run (`belongs_to_run`), then to each
/// referenced object (`relates_to`).
pub open spec fn event_links(e: AdmissionEvent) -> Seq<LinkView> {
    seq![LinkView { event_id: e.event_id@, object_id: run_object_id(e.run_id@), qualifier: "belongs_to_run"@ }]
        + Seq::new(
        e.object_refs@.len(),
        |i: int| LinkView { event_id: e.event_id@, object_id: e.object_refs@[i]@, qualifier: "relates_to"@ },
    )
}

/// Whether an object with identity `id` is already listed.
pub open spec fn has_object(objs: Seq<ObjectView>, id: Seq<char>) -> bool {
    exists|i: int| 0 <= i < objs.len() && #[trigger] objs[i].id == id
}

/// Add the objects `new` in order, each only when its identity is not
/// listed yet (the first one listed wins).
pub open spec fn add_objects(objs: Seq<ObjectView>, new: Seq<ObjectView>) -> Seq<ObjectView>
    decreases new.len(),
{
    if new.len() == 0 {
        objs
    } else {
        let before = add_objects(objs, new.drop_last());
        if has_object(before, new.last().id) {
            before
        } else {
            before.push(new.last())
        }
    }
}

/// The objects of the log of `events`, each identity once, in order of first
/// mention.
pub open spec fn ocel_objects(events: Seq<AdmissionEvent>) -> Seq<ObjectView>
    decreases events.len(),
{
    if events.len() == 0 {
        Seq::empty()
    } else {
        add_objects(ocel_objects(events.drop_last()), event_objects(events.last()))
    }
}

/// The links of the log of `events`, event by event.
pub open spec fn ocel_links(events: Seq<AdmissionEvent>) -> Seq<LinkView>
    decreases events.len(),
{
    if events.len() == 0 {
        Seq::empty()
    } else {
        ocel_links(events.drop_last()) + event_links(events.last())
    }
}

/// The events of the log of `events`, one per event, in order.
pub open spec fn ocel_events(events: Seq<AdmissionEvent>) -> Seq<EventView> {
    Seq::new(events.len(), |i: int| event_record(events[i]))
}

/// The object type of a referenced identity (see [`object_type_of`]).
pub fn object_type_for(id: &str) -> (r: &'static str)
    ensures
        r@ == object_type_of(id@),
{
    if has_prefix(id, "source_") {
        "ConfigSource"
    } else if has_prefix(id, "layer_") {
        "Layer"
    } else if has_prefix(id, "env_") {
        "EnvOverride"
    } else if has_prefix(id, "field_") {
        "ConfigField"
    } else if has_prefix(id, "validation_") {
        "ValidationReport"
    } else if has_prefix(id, "canonical_") {
        "CanonicalConfig"
    } else {
        "ConfigObject"
    }
}

fn copy_attrs(s: &Vec<(String, String)>) -> (r: Vec<(String, String)>)
    ensures
        attr_views(r@) == attr_views(s@),
{
    let mut out: Vec<(String, String)> = Vec::new();
    let mut i: usize = 0;
    while i < s.len()
        invariant
            i <= s@.len(),
            attr_views(out@) == attr_views(s@).take(i as int),
        decreases s@.len() - i,
    {
        let ghost before = attr_views(out@);
        let k = copy_string(&s[i].0);
        let v = copy_string(&s[i].1);
        out.push((k, v));
        assert(attr_views(out@) =~= before.push((s@[i as int].0@, s@[i as int].1@)));
        assert(attr_views(out@) =~= attr_views(s@).take(i as int + 1));
        i = i + 1;
    }
    assert(attr_views(s@).take(s@.len() as int) =~= attr_views(s@));
    out
}

/// Whether an object with identity `id` is listed.
fn listed(objs: &Vec<OcelObject>, id: &str) -> (r: bool)
    ensures
        r == has_object(object_views(objs@), id@),
{
    let mut i: usize = 0;
    while i < objs.len()
        invariant
            i <= objs@.len(),
            forall|k: int| 0 <= k < i ==> objs@[k].id@ != id@,
        decreases objs@.len() - i,
    {
        if str_eq(objs[i].id.as_str(), id) {
            assert(object_views(objs@)[i as int].id == id@);
            return true;
        }
        i = i + 1;
    }
    assert forall|k: int| 0 <= k < object_views(objs@).len() implies #[trigger] object_views(objs@)[k].id != id@ by {
        assert(object_views(objs@)[k] == objs@[k]@);
    }
    false
}

/// Add `o` unless its identity is listed.
fn add_object(objs: &mut Vec<OcelObject>, o: OcelObject)
    ensures
        object_views(final(objs)@) == (if has_object(object_views(old(objs)@), o@.id) {
            object_views(old(objs)@)
        } else {
            object_views(old(objs)@).push(o@)
        }),
{
    if !listed(objs, o.id.as_str()) {
        let ghost before = object_views(objs@);
        objs.push(o);
        assert(object_views(objs@) =~= before.push(o@));
    }
}

/// Map lifecycle events to an OCEL log: one log event per event (its kind as
/// activity, its sequence as timestamp, its attributes), each run and
/// referenced object once (typed by identity prefix, see
/// [`object_type_of`]), and the event-to-object links (see
/// [`event_links`]).
pub fn export_events_to_ocel(events: &[AdmissionEvent]) -> (r: OcelLog)
    ensures
        object_views(r.objects@) == ocel_objects(events@),
        event_views(r.events@) == ocel_events(events@),
        link_views(r.links@) == ocel_links(events@),
{
    let mut objects: Vec<OcelObject> = Vec::new();
    let mut evs: Vec<OcelEvent> = Vec::new();
    let mut links: Vec<OcelLink> = Vec::new();
    let mut i: usize = 0;
    while i < events.len()
        invariant
            i <= events@.len(),
            object_views(objects@) == ocel_objects(events@.take(i as int)),
            event_views(evs@) == ocel_events(events@.take(i as int)),
            link_views(links@) == ocel_links(events@.take(i as int)),
        decreases events@.len() - i,
    {
        let ev = &events[i];
        let ghost pre = events@.take(i as int);
        let ghost post = events@.take(i as int + 1);
        assert(post.drop_last() =~= pre);
        assert(post.last() == *ev);
        let ghost objs0 = object_views(objects@);
        let ghost links0 = link_views(links@);
        let ghost evs0 = event_views(evs@);
        // the event itself
        let rec = OcelEvent {
            id: copy_string(&ev.event_id),
            activity: owned(ev.event_kind.name()),
            timestamp_ns: ev.timestamp_or_sequence,
            attributes: copy_attrs(&ev.attributes),
        };
        assert(rec@ == event_record(*ev));
        evs.push(rec);
        assert(event_views(evs@) =~= evs0.push(event_record(*ev)));
        assert(event_views(evs@) =~= ocel_events(post));
        // its run
        let mut run_id = owned("run_");
        push_str(&mut run_id, ev.run_id.as_str());
        let mut run_attrs: Vec<(String, String)> = Vec::new();
        run_attrs.push((owned("run_id"), copy_string(&ev.run_id)));
        let run_obj = OcelObject { id: copy_string(&run_id), object_type: owned("ConfigRun"), attributes: run_attrs };
        assert(attr_views(run_obj.attributes@) =~= seq![("run_id"@, ev.run_id@)]);
        let ghost eo = event_objects(*ev);
        let ghost el = event_links(*ev);
        assert(run_obj@ == eo[0]);
        assert(eo.take(1) =~= seq![eo[0]]);
        assert(eo.take(0) =~= Seq::<ObjectView>::empty());
        assert(eo.take(1).drop_last() =~= eo.take(0));
        assert(add_objects(objs0, eo.take(0)) == objs0);
        assert(eo.take(1).last() == eo[0]);
        add_object(&mut objects, run_obj);
        assert(object_views(objects@) == add_objects(objs0, eo.take(1)));
        links.push(OcelLink { event_id: copy_string(&ev.event_id), object_id: run_id, qualifier: owned("belongs_to_run") });
        assert(link_views(links@) =~= links0 + el.take(1));
        // the referenced objects
        let mut j: usize = 0;
        while j < ev.object_refs.len()
            invariant
                j <= ev.object_refs@.len(),
                eo == event_objects(*ev),
                el == event_links(*ev),
                object_views(objects@) == add_objects(objs0, eo.take(j as int + 1)),
                link_views(links@) == links0 + el.take(j as int + 1),
            decreases ev.object_refs@.len() - j,
        {
            let id = &ev.object_refs[j];
            let o = OcelObject {
                id: copy_string(id),
                object_type: owned(object_type_for(id.as_str())),
                attributes: Vec::new(),
            };
            assert(attr_views(o.attributes@) =~= Seq::<(Seq<char>, Seq<char>)>::empty());
            assert(eo.take(j as int + 2).drop_last() =~= eo.take(j as int + 1));
            assert(eo.take(j as int + 2).last() == o@);
            add_object(&mut objects, o);
            let ghost lb = link_views(links@);
            links.push(OcelLink { event_id: copy_string(&ev.event_id), object_id: copy_string(id), qualifier: owned("relates_to") });
            assert(link_views(links@) =~= lb.push(el[j as int + 1]));
            assert(el.take(j as int + 2) =~= el.take(j as int + 1).push(el[j as int + 1]));
            j = j + 1;
        }
        assert(eo.take(ev.object_refs@.len() as int + 1) =~= eo);
        assert(el.take(ev.object_refs@.len() as int + 1) =~= el);
        i = i + 1;
    }
    assert(events@.take(events@.len() as int) =~= events@);
    OcelLog { objects, events: evs, links }
}

} // verus!
