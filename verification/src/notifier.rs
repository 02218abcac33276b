//! What one check does with the results it fetched: store a first baseline
//! silently, or announce what changed and store the new state.

use vstd::prelude::*;

use crate::gotify::{event_text, Notification};
use crate::state::{baseline, reconcile, reconcile_spec, Event, EventView, StateError};
use crate::table::{StrMap, Table, TableView};

verus! {

/// What a check does once the results are known.
pub enum Plan {
    /// No usable cache yet: store the baseline and announce nothing.
    Baseline(Table),
    /// Send one notification per event, in order, then store the new state.
    Report { state: Table, events: Vec<Event>, notifications: Vec<Notification> },
}

/// The cache, if there is one with columns.
pub open spec fn usable_cache(previous: Option<TableView>) -> Option<TableView> {
    match previous {
        Some(p) => if p.columns.len() > 0 {
            Some(p)
        } else {
            None
        },
        None => None,
    }
}

/// Whether `notifications` announce `events`, one each, in order.
pub open spec fn announces(notifications: Seq<Notification>, events: Seq<EventView>) -> bool {
    &&& notifications.len() == events.len()
    &&& forall|i: int|
        0 <= i < events.len() ==> (#[trigger] notifications[i].title@, notifications[i].message@)
            == event_text(events[i].kind, events[i].name)
}

/// The notifications for `events`.
fn notifications_for(events: &Vec<Event>) -> (r: Vec<Notification>)
    ensures
        announces(r@, events@.map_values(|e: Event| e@)),
{
    let mut r: Vec<Notification> = Vec::new();
    let mut i: usize = 0;
    while i < events.len()
        invariant
            i <= events.len(),
            r.len() == i,
            forall|x: int|
                0 <= x < i ==> (#[trigger] r@[x].title@, r@[x].message@) == event_text(
                    events@[x].kind,
                    events@[x].name@,
                ),
        decreases events.len() - i,
    {
        let n = Notification::for_event(&events[i]);
        assert((n.title@, n.message@) == event_text(events@[i as int].kind, events@[i as int].name@));
        let ghost before = r@;
        r.push(n);
        assert(r@[i as int] == n);
        assert forall|x: int| 0 <= x <= i implies (#[trigger] r@[x].title@, r@[x].message@)
            == event_text(events@[x].kind, events@[x].name@) by {
            if x < i {
                assert(r@[x] == before[x]);
                assert((before[x].title@, before[x].message@) == event_text(
                    events@[x].kind,
                    events@[x].name@,
                ));
            }
        }
        i += 1;
    }
    r
}

/// Decide what a check does with the `current` results, the `previous`
/// cache if one was read, the time of the check and the comparison keys.
pub fn plan_run(previous: Option<Table>, current: &Table, observed_at: &str, keys: &StrMap) -> (r:
    Result<Plan, StateError>)
    ensures
        match usable_cache(
            match previous {
                Some(p) => Some(p@),
                None => None,
            },
        ) {
            Some(p) => match reconcile_spec(p, current@, observed_at@, keys@) {
                Ok((s, evs)) => r matches Ok(Plan::Report { state, events, notifications })
                    && state@ == s && events@.map_values(|e: Event| e@) == evs && announces(
                    notifications@,
                    evs,
                ),
                Err(e) => r matches Err(x) && x == e,
            },
            None => match reconcile_spec(Table::default_view(), current@, observed_at@, keys@) {
                Ok((s, _)) => r matches Ok(Plan::Baseline(b)) && b@ == s,
                Err(e) => r matches Err(x) && x == e,
            },
        },
{
    let cache = match previous {
        Some(p) => {
            if p.columns.len() > 0 {
                Some(p)
            } else {
                None
            }
        },
        None => None,
    };
    match cache {
        None => match baseline(current, observed_at, keys) {
            Ok(state) => Ok(Plan::Baseline(state)),
            Err(e) => Err(e),
        },
        Some(p) => match reconcile(&p, current, observed_at, keys) {
            Ok((state, events)) => {
                let notifications = notifications_for(&events);
                Ok(Plan::Report { state, events, notifications })
            },
            Err(e) => Err(e),
        },
    }
}

} // verus!
