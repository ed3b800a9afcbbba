//! The state of the record list view.
use vstd::prelude::*;

verus! {

/// Which records the list view shows.
#[derive(Clone, Copy, Debug, PartialEq, Eq, Structural)]
pub enum ListMode {
    Total,
    Absences,
    Delays,
}

impl ListMode {
    /// All list modes, in display order.
    pub fn all() -> (r: Vec<ListMode>)
        ensures
            r@ == seq![ListMode::Total, ListMode::Absences, ListMode::Delays],
    {
        let mut v: Vec<ListMode> = Vec::new();
        v.push(ListMode::Total);
        v.push(ListMode::Absences);
        v.push(ListMode::Delays);
        proof {
            assert(v@ =~= seq![ListMode::Total, ListMode::Absences, ListMode::Delays]);
        }
        v
    }
}

impl ListMode {
    /// The mode's display label.
    pub fn label(&self) -> (r: String)
        ensures
            r@ == (match self {
                ListMode::Total => "Total"@,
                ListMode::Absences => "Absenzen"@,
                ListMode::Delays => "Verspätungen"@,
            }),
    {
        match self {
            ListMode::Total => String::from_str("Total"),
            ListMode::Absences => String::from_str("Absenzen"),
            ListMode::Delays => String::from_str("Verspätungen"),
        }
    }
}

impl Default for ListMode {
    /// The list view starts on the tardiness records.
    fn default() -> (r: ListMode)
        ensures
            r == ListMode::Delays,
    {
        ListMode::Delays
    }
}

/// A state change of the list view.
#[derive(Clone, Copy, Debug)]
pub enum ListMsg {
    SetListMode(ListMode),
}

/// The state of the list view.
#[derive(Clone, Copy, Debug)]
pub struct ListState {
    pub kind: ListMode,
}

impl Default for ListState {
    /// The list view starts on the tardiness records.
    fn default() -> (r: ListState)
        ensures
            r.kind == ListMode::Delays,
    {
        ListState { kind: ListMode::Delays }
    }
}

/// Applies one message to the list view state.
pub fn update_list(list: &mut ListState, msg: ListMsg)
    ensures
        match msg { ListMsg::SetListMode(lm) => final (list).kind == lm },
{
    match msg {
        ListMsg::SetListMode(lm) => {
            list.kind = lm;
        },
    }
}

} // verus!
