//! The geo-analytics facade: composing country resolution with counting.
//!
//! Resolution itself is an outside collaborator (a binary geo-database
//! reader); it hands this module its answer as a plain optional country
//! code. The decisions made here are the facade's own: a miss is returned at
//! once and counts nothing, a hit is counted and returned whatever becomes
//! of the counting, and a counting failure goes to the diagnostic sink, not
//! to the caller.

use vstd::prelude::*;

use crate::store::CounterStore;
use crate::store::StoreError;
use crate::store::bumped;
use crate::store::distinct_codes;
use crate::store::table_of;

verus! {

/// Resolves-and-counts against the table: given the resolver's answer,
/// returns it unchanged, counting a hit and leaving the table untouched on a
/// miss — a miss creates and modifies no row.
pub fn resolve_and_count(store: &mut CounterStore, resolved: Option<String>) -> (r: Option<String>)
    requires
        old(store).wf(),
    ensures
        final(store).wf(),
        r == resolved,
        match resolved {
            None => final(store)@ == old(store)@,
            Some(code) => final(store)@ == bumped(old(store)@, code@),
        },
{
    match resolved {
        None => None,
        Some(code) => {
            let _ = store.increment(code.as_str());
            Some(code)
        },
    }
}

/// Settles one resolve-and-count call once the counting outcome is known:
/// the caller is handed the resolver's answer unchanged — a persistence
/// failure never degrades the resolution result — and any counting failure
/// is routed to the diagnostic sink instead.
pub fn settle_resolution(resolved: Option<String>, persisted: Result<(), StoreError>) -> (r: (
    Option<String>,
    Option<StoreError>,
))
    ensures
        r.0 == resolved,
        match persisted {
            Ok(_) => r.1 is None,
            Err(e) => r.1 == Some(e),
        },
{
    let diagnostic = match persisted {
        Ok(_) => None,
        Err(e) => Some(e),
    };
    (resolved, diagnostic)
}

/// The reporting path: a snapshot of the whole country/count table. Failures
/// here would propagate to the caller, since reporting has no degraded mode;
/// the in-memory table itself never fails.
pub fn report(store: &CounterStore) -> (r: Result<Vec<(String, u64)>, StoreError>)
    requires
        store.wf(),
    ensures
        r matches Ok(rows) && distinct_codes(rows@) && table_of(rows@) == store@,
{
    store.list()
}

} // verus!
