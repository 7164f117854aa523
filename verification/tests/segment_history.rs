use statistical_pb_chance::fixed::Fixed;
use statistical_pb_chance::history::{SegmentHistory, Time, TimeSpan, TimingMethod};

fn span(raw: i64) -> TimeSpan {
    TimeSpan::from_seconds(Fixed::from_raw(raw))
}

#[test]
fn a_new_history_is_empty() {
    let history = SegmentHistory::new();
    assert_eq!(history.len(), 0);
    assert!(history.get(1).is_none());
    assert!(history.times(TimingMethod::RealTime).is_empty());
    assert_eq!(SegmentHistory::default().len(), 0);
}

#[test]
fn insert_appends_new_attempts_in_order() {
    let mut history = SegmentHistory::new();
    history.insert(5, Time::new().with_real_time(Some(span(50))));
    history.insert(-2, Time::new().with_real_time(Some(span(20))));
    history.insert(9, Time::new().with_real_time(Some(span(90))));
    assert_eq!(history.len(), 3);
    assert!(history.entry(3).is_none());
    assert_eq!(history.entry(0).unwrap().0, 5);
    assert_eq!(history.entry(1).unwrap().0, -2);
    assert_eq!(history.entry(2).unwrap().0, 9);
    let times = history.times(TimingMethod::RealTime);
    assert_eq!(times, vec![Fixed::from_raw(50), Fixed::from_raw(20), Fixed::from_raw(90)]);
}

#[test]
fn insert_replaces_a_recorded_attempt_in_place() {
    let mut history = SegmentHistory::new();
    history.insert(1, Time::new().with_real_time(Some(span(10))));
    history.insert(2, Time::new().with_real_time(Some(span(20))));
    history.insert(1, Time::new().with_real_time(Some(span(30))));
    assert_eq!(history.len(), 2);
    assert_eq!(history.entry(0).unwrap().0, 1);
    assert_eq!(history.get(1).unwrap().real_time, Some(span(30)));
    assert_eq!(history.get(2).unwrap().real_time, Some(span(20)));
    assert!(history.get(3).is_none());
    assert_eq!(history.times(TimingMethod::RealTime), vec![Fixed::from_raw(30), Fixed::from_raw(20)]);
}

#[test]
fn only_present_times_of_the_method_count() {
    let mut history = SegmentHistory::new();
    history.insert(1, Time::new().with_real_time(Some(span(10))).with_game_time(Some(span(11))));
    history.insert(2, Time::new());
    history.insert(3, Time::new().with_game_time(Some(span(31))));
    history.insert(4, Time::new().with_real_time(Some(span(40))).with_game_time(None));
    assert_eq!(history.times(TimingMethod::RealTime), vec![Fixed::from_raw(10), Fixed::from_raw(40)]);
    assert_eq!(history.times(TimingMethod::GameTime), vec![Fixed::from_raw(11), Fixed::from_raw(31)]);
}

#[test]
fn a_copy_holds_the_same_entries() {
    let mut history = SegmentHistory::new();
    history.insert(1, Time::new().with_real_time(Some(span(10))));
    history.insert(2, Time::new().with_game_time(Some(span(20))));
    let copy = history.clone();
    history.insert(3, Time::new());
    assert_eq!(copy.len(), 2);
    assert_eq!(copy.times(TimingMethod::RealTime), vec![Fixed::from_raw(10)]);
    assert_eq!(copy.times(TimingMethod::GameTime), vec![Fixed::from_raw(20)]);
    assert_eq!(history.len(), 3);
}

#[test]
fn time_by_method() {
    let time = Time::new().with_real_time(Some(span(7)));
    assert_eq!(time.get(TimingMethod::RealTime), Some(span(7)));
    assert_eq!(time.get(TimingMethod::GameTime), None);
    assert_eq!(span(7).total_seconds(), Fixed::from_raw(7));
    let both = time.with_game_time(Some(span(8)));
    assert_eq!(both.get(TimingMethod::GameTime), Some(span(8)));
    assert_eq!(both.get(TimingMethod::RealTime), Some(span(7)));
}
