//! The ranking metric and the state of the statistics view.
use crate::db::Class;
use vstd::prelude::*;

verus! {

/// Whether a ranking orders by record count or by summed delay minutes.
#[derive(Clone, Copy, Debug, PartialEq, Eq, Structural)]
pub enum Ranking {
    Number,
    Sum,
}

impl Ranking {
    /// Both ranking metrics, in display order.
    pub fn all() -> (r: Vec<Ranking>)
        ensures
            r@ == seq![Ranking::Number, Ranking::Sum],
    {
        let mut v: Vec<Ranking> = Vec::new();
        v.push(Ranking::Number);
        v.push(Ranking::Sum);
        proof {
            assert(v@ =~= seq![Ranking::Number, Ranking::Sum]);
        }
        v
    }
}

impl Ranking {
    /// The metric's display label.
    pub fn label(&self) -> (r: String)
        ensures
            r@ == (match self {
                Ranking::Number => "Anzahl"@,
                Ranking::Sum => "Minuten"@,
            }),
    {
        match self {
            Ranking::Number => String::from_str("Anzahl"),
            Ranking::Sum => String::from_str("Minuten"),
        }
    }
}

/// What the statistics view currently shows: the metric of each ranking,
/// whose profile is open, and whether the profile page is shown at all.
#[derive(Clone, Copy, Debug)]
pub struct StatState {
    pub person: Option<Ranking>,
    pub subject: Option<Ranking>,
    pub detail_person: Option<Class>,
    pub detail_view: bool,
}

impl StatState {
    /// The initial statistics view: both rankings by count, the overview
    /// page, with a default profile person.
    pub fn new() -> (r: StatState)
        ensures
            r.person == Some(Ranking::Number),
            r.subject == Some(Ranking::Number),
            r.detail_person == Some(Class::Anina),
            !r.detail_view,
    {
        StatState {
            person: Some(Ranking::Number),
            subject: Some(Ranking::Number),
            detail_person: Some(Class::Anina),
            detail_view: false,
        }
    }
}

/// A state change of the statistics view.
#[derive(Clone, Copy, Debug)]
pub enum StatsMessage {
    PersonSelected(Class),
    PersonSelectedCV(Class),
    PersonRankingType(Ranking),
    SubjectRankingType(Ranking),
    OverView,
}

/// Applies one message to the statistics view state.
pub fn update_stats(stats: &mut StatState, msg: StatsMessage)
    ensures
        match msg {
            StatsMessage::PersonSelected(c) => final (stats).detail_person == Some(c) && final (
            stats).detail_view == old(stats).detail_view,
            StatsMessage::PersonSelectedCV(c) => final (stats).detail_person == Some(c) && final (
            stats).detail_view,
            StatsMessage::PersonRankingType(m) => final (stats).person == Some(m) && final (
            stats).detail_person == old(stats).detail_person && final (stats).detail_view == old(
            stats).detail_view,
            StatsMessage::SubjectRankingType(m) => final (stats).subject == Some(m) && final (
            stats).detail_person == old(stats).detail_person && final (stats).detail_view == old(
            stats).detail_view,
            StatsMessage::OverView => !final (stats).detail_view && final (stats).detail_person
                == old(stats).detail_person,
        },
        match msg {
            StatsMessage::PersonRankingType(_) => final (stats).subject == old(stats).subject,
            StatsMessage::SubjectRankingType(_) => final (stats).person == old(stats).person,
            _ => final (stats).person == old(stats).person && final (stats).subject == old(
            stats).subject,
        },
{
    match msg {
        StatsMessage::PersonSelected(c) => {
            stats.detail_person = Some(c);
        },
        StatsMessage::PersonSelectedCV(c) => {
            stats.detail_person = Some(c);
            stats.detail_view = true;
        },
        StatsMessage::OverView => {
            stats.detail_view = false;
        },
        StatsMessage::PersonRankingType(m) => {
            stats.person = Some(m);
        },
        StatsMessage::SubjectRankingType(m) => {
            stats.subject = Some(m);
        },
    }
}

} // verus!
