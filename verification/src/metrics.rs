//! The metrics events drawn beside the sequence diagram: which events are
//! shown, the name of an event's kind as its debug rendering starts, and the
//! colours given to event names in the order they are first seen.
use crate::model::{EventData, QlogData};
use crate::sequence::{kind_of_type, metrics_event_name, metrics_event_type, metrics_kind_of, MetricsEventType, MetricsKind};
use vstd::prelude::*;

verus! {

/// Whether `c` ends the name of a variant in a debug rendering.
pub open spec fn ends_variant_name(c: char) -> bool {
    c == '(' || c == '{'
}

/// Whether `name` is what precedes the first `(` or `{` of `debug`: all of
/// it where it has neither.
pub open spec fn is_variant_name(debug: Seq<char>, name: Seq<char>) -> bool {
    &&& name.len() <= debug.len()
    &&& name == debug.take(name.len() as int)
    &&& forall|k: int| 0 <= k < name.len() ==> !ends_variant_name(#[trigger] debug[k])
    &&& name.len() < debug.len() ==> ends_variant_name(debug[name.len() as int])
}

/// The name of a variant, as a debug rendering starts: the text before its
/// first `(` or `{`.
pub fn variant_name(debug: &str) -> (res: String)
    ensures
        is_variant_name(debug@, res@),
{
    let chars = crate::text::chars_of(debug);
    let mut i: usize = 0;
    while i < chars.len() && chars[i] != '(' && chars[i] != '{'
        invariant
            i <= chars@.len(),
            forall|k: int| 0 <= k < i ==> !ends_variant_name(#[trigger] chars@[k]),
        decreases chars@.len() - i,
    {
        i = i + 1;
    }
    let name = crate::text::take_chars(&chars, i);
    proof {
        assert(name@ =~= chars@.take(i as int));
        assert(name@.take(i as int) =~= name@);
    }
    crate::text::string_from_chars(name)
}

/// Whether event `i` of `events` is shown: it is drawn as a metrics event,
/// and, where it is a metrics update, either all updates are shown or this
/// one changed enough.
pub open spec fn metrics_shown(events: Seq<crate::model::Event>, significant: Seq<bool>, show_all: bool, i: int) -> bool {
    &&& metrics_kind_of(events[i]) is Some
    &&& (events[i].data is MetricsUpdated ==> show_all || significant[i])
}

/// The indices of the first `n` events that are shown, in order.
pub open spec fn shown_indices(events: Seq<crate::model::Event>, significant: Seq<bool>, show_all: bool, n: nat) -> Seq<usize>
    decreases n,
{
    if n == 0 {
        Seq::empty()
    } else {
        let before = shown_indices(events, significant, show_all, (n - 1) as nat);
        if metrics_shown(events, significant, show_all, n - 1) {
            before.push((n - 1) as usize)
        } else {
            before
        }
    }
}

/// The metrics events of a trace, with their kinds, in trace order.
/// `names[i]` names the kind of event `i` where the diagram has no type of
/// its own for it; `significant[i]` tells whether metrics update `i` changed
/// enough from the last one to be shown.
pub fn metrics_events(qlog: &QlogData, names: &Vec<String>, significant: &Vec<bool>, show_all: bool) -> (res: Vec<(usize, MetricsEventType)>)
    requires
        names@.len() == qlog.events@.len(),
        significant@.len() == qlog.events@.len(),
    ensures
        res@.len() == shown_indices(qlog.events@, significant@, show_all, qlog.events@.len()).len(),
        forall|k: int| 0 <= k < res@.len() ==> {
            let (idx, t) = #[trigger] res@[k];
            &&& idx == shown_indices(qlog.events@, significant@, show_all, qlog.events@.len())[k]
            &&& metrics_kind_of(qlog.events@[idx as int]) == Some(kind_of_type(t))
            &&& kind_of_type(t) == MetricsKind::Other ==> metrics_event_name(t) == names@[idx as int]@
        },
{
    let events = &qlog.events;
    let mut res: Vec<(usize, MetricsEventType)> = Vec::new();
    let mut i: usize = 0;
    while i < events.len()
        invariant
            i <= events@.len(),
            events@ == qlog.events@,
            names@.len() == events@.len(),
            significant@.len() == events@.len(),
            res@.len() == shown_indices(events@, significant@, show_all, i as nat).len(),
            forall|k: int| 0 <= k < res@.len() ==> {
                let (idx, t) = #[trigger] res@[k];
                &&& idx == shown_indices(events@, significant@, show_all, i as nat)[k]
                &&& idx < i
                &&& metrics_kind_of(events@[idx as int]) == Some(kind_of_type(t))
                &&& kind_of_type(t) == MetricsKind::Other ==> metrics_event_name(t) == names@[idx as int]@
            },
        decreases events@.len() - i,
    {
        let event = &events[i];
        let kind = metrics_event_type(event, names[i].as_str());
        let is_update = match &event.data {
            EventData::MetricsUpdated(_) => true,
            _ => false,
        };
        if let Some(t) = kind {
            if !is_update || show_all || significant[i] {
                res.push((i, t));
            }
        }
        i = i + 1;
    }
    res
}

/// Whether two bytes-in-flight readings, taken as `i64` as the viewer reads
/// them, are more than 1000 apart.
pub open spec fn in_flight_jump(prev: u64, curr: u64) -> bool {
    let d = (curr as i64) - (prev as i64);
    d > 1000 || d < -1000
}

/// Whether bytes in flight moved by more than 1000 between two metrics
/// updates; only where both report it.
pub fn in_flight_jumped(prev: Option<u64>, curr: Option<u64>) -> (res: bool)
    requires
        match (prev, curr) {
            (Some(p), Some(c)) => i64::MIN < (c as i64) - (p as i64) <= i64::MAX,
            _ => true,
        },
    ensures
        res == match (prev, curr) {
            (Some(p), Some(c)) => in_flight_jump(p, c),
            _ => false,
        },
{
    match (prev, curr) {
        (Some(p), Some(c)) => {
            let a = c as i64;
            let b = p as i64;
            let d = a - b;
            d > 1000 || d < -1000
        },
        _ => false,
    }
}

/// The number of colours that event names are given.
pub const EVENT_PALETTE_LEN: usize = 15;

/// The colours given to event names, as red, green and blue.
pub open spec fn palette_color(k: nat) -> (u8, u8, u8) {
    if k == 0 {
        (231, 76, 60)
    } else if k == 1 {
        (52, 152, 219)
    } else if k == 2 {
        (46, 204, 113)
    } else if k == 3 {
        (155, 89, 182)
    } else if k == 4 {
        (241, 196, 15)
    } else if k == 5 {
        (230, 126, 34)
    } else if k == 6 {
        (26, 188, 156)
    } else if k == 7 {
        (52, 73, 94)
    } else if k == 8 {
        (149, 165, 166)
    } else if k == 9 {
        (192, 57, 43)
    } else if k == 10 {
        (41, 128, 185)
    } else if k == 11 {
        (39, 174, 96)
    } else if k == 12 {
        (142, 68, 173)
    } else if k == 13 {
        (243, 156, 18)
    } else {
        (211, 84, 0)
    }
}

/// The colour of palette entry `k`.
pub fn palette_entry(k: usize) -> (res: (u8, u8, u8))
    requires
        k < EVENT_PALETTE_LEN,
    ensures
        res == palette_color(k as nat),
{
    if k == 0 {
        (231, 76, 60)
    } else if k == 1 {
        (52, 152, 219)
    } else if k == 2 {
        (46, 204, 113)
    } else if k == 3 {
        (155, 89, 182)
    } else if k == 4 {
        (241, 196, 15)
    } else if k == 5 {
        (230, 126, 34)
    } else if k == 6 {
        (26, 188, 156)
    } else if k == 7 {
        (52, 73, 94)
    } else if k == 8 {
        (149, 165, 166)
    } else if k == 9 {
        (192, 57, 43)
    } else if k == 10 {
        (41, 128, 185)
    } else if k == 11 {
        (39, 174, 96)
    } else if k == 12 {
        (142, 68, 173)
    } else if k == 13 {
        (243, 156, 18)
    } else {
        (211, 84, 0)
    }
}

/// The event names seen so far, each once, in the order first seen; a name
/// takes the colour of its position, cycling through the palette.
pub struct EventColors {
    pub names: Vec<String>,
}

/// Whether the names of `names` are distinct.
pub open spec fn distinct_names(names: Seq<String>) -> bool {
    forall|a: int, b: int| 0 <= a < b < names.len() ==> (#[trigger] names[a])@ != (#[trigger] names[b])@
}

/// The position of `name` among `names`, where it occurs.
pub open spec fn name_position(names: Seq<String>, name: Seq<char>) -> Option<nat> {
    if exists|k: int| 0 <= k < names.len() && (#[trigger] names[k])@ == name {
        Some((choose|k: int| 0 <= k < names.len() && (#[trigger] names[k])@ == name) as nat)
    } else {
        None
    }
}

impl EventColors {
    /// No name seen yet.
    pub fn new() -> (res: Self)
        ensures
            res.names@.len() == 0,
    {
        EventColors { names: Vec::new() }
    }

    /// The colour of event name `name`: that of its position among the names
    /// seen, where it was seen before; otherwise it is added at the end and
    /// takes the colour of that position.
    pub fn color_of(&mut self, name: &str) -> (res: (u8, u8, u8))
        requires
            distinct_names(old(self).names@),
        ensures
            distinct_names(final(self).names@),
            match name_position(old(self).names@, name@) {
                Some(k) => final(self).names@ == old(self).names@ && res == palette_color(k % (EVENT_PALETTE_LEN as nat)),
                None => final(self).names@.len() == old(self).names@.len() + 1
                    && final(self).names@.take(old(self).names@.len() as int) == old(self).names@
                    && final(self).names@.last()@ == name@
                    && res == palette_color(old(self).names@.len() % (EVENT_PALETTE_LEN as nat)),
            },
    {
        let mut k: usize = 0;
        while k < self.names.len()
            invariant
                k <= self.names@.len(),
                self.names@ == old(self).names@,
                distinct_names(self.names@),
                forall|j: int| 0 <= j < k ==> (#[trigger] self.names@[j])@ != name@,
            decreases self.names@.len() - k,
        {
            if crate::text::str_is(self.names[k].as_str(), name) {
                proof {
                    let p = choose|j: int| 0 <= j < self.names@.len() && (#[trigger] self.names@[j])@ == name@;
                    assert(p == k as int);
                }
                return palette_entry(k % EVENT_PALETTE_LEN);
            }
            k = k + 1;
        }
        let n = self.names.len();
        self.names.push(crate::text::owned(name));
        proof {
            assert(self.names@.take(n as int) =~= old(self).names@);
        }
        palette_entry(n % EVENT_PALETTE_LEN)
    }
}

} // verus!
