//! Core data layer of a tardiness and absence logbook: an in-memory record
//! store, aggregation and ranking over it, a cyclic cursor over the fixed
//! daily lesson time slots, and the textual file format of the store.
use vstd::prelude::*;

pub mod codec;
pub mod db;
pub mod list;
pub mod menu;
pub mod rank;
pub mod stats;
pub mod time;

verus! {

/// Which screen the surrounding application is showing.
#[allow(non_camel_case_types)]
#[derive(Clone, Copy, Debug, PartialEq, Eq, Structural)]
pub enum ViewControl {
    ADD,
    LISTVIEW,
    STATS,
    SETTINGS,
    MENU,
    ABSENCES,
}

} // verus!
