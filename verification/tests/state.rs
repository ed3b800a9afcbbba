use tardiness::db::Class;
use tardiness::list::update_list;
use tardiness::list::ListMode;
use tardiness::list::ListMsg;
use tardiness::list::ListState;
use tardiness::menu::update_menu;
use tardiness::menu::MenuMsg;
use tardiness::menu::MenuState;
use tardiness::stats::update_stats;
use tardiness::stats::Ranking;
use tardiness::stats::StatState;
use tardiness::stats::StatsMessage;

#[test]
fn the_stats_view_starts_on_the_overview_with_count_rankings() {
    let s = StatState::new();
    assert_eq!(s.person, Some(Ranking::Number));
    assert_eq!(s.subject, Some(Ranking::Number));
    assert_eq!(s.detail_person, Some(Class::Anina));
    assert!(!s.detail_view);
}

#[test]
fn selecting_a_person_for_the_profile_page_opens_it() {
    let mut s = StatState::new();
    update_stats(&mut s, StatsMessage::PersonSelectedCV(Class::Mia));
    assert_eq!(s.detail_person, Some(Class::Mia));
    assert!(s.detail_view);
    update_stats(&mut s, StatsMessage::PersonSelected(Class::Jan));
    assert_eq!(s.detail_person, Some(Class::Jan));
    assert!(s.detail_view);
    update_stats(&mut s, StatsMessage::OverView);
    assert!(!s.detail_view);
    assert_eq!(s.detail_person, Some(Class::Jan));
}

#[test]
fn choosing_a_metric_changes_only_that_ranking() {
    let mut s = StatState::new();
    update_stats(&mut s, StatsMessage::PersonRankingType(Ranking::Sum));
    assert_eq!(s.person, Some(Ranking::Sum));
    assert_eq!(s.subject, Some(Ranking::Number));
    update_stats(&mut s, StatsMessage::SubjectRankingType(Ranking::Sum));
    assert_eq!(s.subject, Some(Ranking::Sum));
    assert_eq!(s.person, Some(Ranking::Sum));
}

#[test]
fn both_ranking_metrics_are_offered() {
    assert_eq!(Ranking::all(), vec![Ranking::Number, Ranking::Sum]);
    assert_eq!(Ranking::Number.label(), "Anzahl");
    assert_eq!(Ranking::Sum.label(), "Minuten");
}

#[test]
fn list_modes_carry_their_labels() {
    assert_eq!(ListMode::Total.label(), "Total");
    assert_eq!(ListMode::Absences.label(), "Absenzen");
    assert_eq!(ListMode::Delays.label(), "Verspätungen");
}

#[test]
fn the_list_view_starts_on_delays_and_can_switch() {
    let mut l = ListState::default();
    assert_eq!(l.kind, ListMode::Delays);
    update_list(&mut l, ListMsg::SetListMode(ListMode::Absences));
    assert_eq!(l.kind, ListMode::Absences);
    assert_eq!(ListMode::all(), vec![ListMode::Total, ListMode::Absences, ListMode::Delays]);
    assert_eq!(ListMode::default(), ListMode::Delays);
}

#[test]
fn the_menu_hint_line_follows_the_last_message() {
    let mut m = MenuState::new();
    assert_eq!(m.title, "");
    update_menu(&mut m, MenuMsg::SetText("Statistiken".to_string()));
    assert_eq!(m.title, "Statistiken");
    update_menu(&mut m, MenuMsg::SetText(String::new()));
    assert_eq!(m.title, "");
    assert_eq!(MenuState::default().title, "");
}
