use plato_sim_bridge::event::{EventType, SimEvent, CLEAR_SEVERITY};

#[test]
fn test_sim_event_constructors() {
    let storm = SimEvent::storm(0, 0.7f32.to_bits(), 40);
    assert_eq!(storm.event_type, EventType::Storm);
    assert_eq!(f32::from_bits(storm.severity), 0.7);
    assert_eq!(storm.duration, 40);

    let outage = SimEvent::outage(10, 0.6f32.to_bits(), 25);
    assert_eq!(outage.event_type, EventType::Outage);
}

#[test]
fn test_event_type_classification() {
    assert!(EventType::Storm.is_negative());
    assert!(EventType::Outage.is_negative());
    assert!(EventType::Security.is_negative());
    assert!(!EventType::Clear.is_negative());
    assert!(!EventType::Boom.is_negative());
}

#[test]
fn test_event_type_names() {
    assert_eq!(EventType::Storm.name(), "storm");
    assert_eq!(EventType::Outage.name(), "outage");
}

#[test]
fn every_event_kind_is_classified() {
    let negative = [
        EventType::Storm,
        EventType::Fog,
        EventType::Outage,
        EventType::Bug,
        EventType::Security,
        EventType::DataLoss,
        EventType::Crash,
    ];
    let other = [
        EventType::Clear,
        EventType::Boom,
        EventType::UserRequest,
        EventType::UserFeedback,
        EventType::Night,
        EventType::Reset,
        EventType::Season,
    ];
    for t in negative.iter() {
        assert!(t.is_negative());
    }
    for t in other.iter() {
        assert!(!t.is_negative());
    }
}

#[test]
fn multi_word_names_use_underscores() {
    assert_eq!(EventType::DataLoss.name(), "data_loss");
    assert_eq!(EventType::UserRequest.name(), "user_request");
    assert_eq!(EventType::UserFeedback.name(), "user_feedback");
    assert_eq!(EventType::Season.name(), "season");
}

#[test]
fn constructors_set_targets_and_durations() {
    let storm = SimEvent::storm(3, 0.9f32.to_bits(), 7);
    assert_eq!(storm.target, "all");
    assert_eq!(storm.tick, 3);
    let outage = SimEvent::outage(4, 0.1f32.to_bits(), 9);
    assert_eq!(outage.target, "");
    assert_eq!(outage.duration, 9);
    let bug = SimEvent::bug(50, 0.5f32.to_bits());
    assert_eq!(bug.event_type, EventType::Bug);
    assert_eq!(bug.duration, 1);
    assert_eq!(bug.target, "");
    let clear = SimEvent::clear(8);
    assert_eq!(clear.event_type, EventType::Clear);
    assert_eq!(clear.severity, CLEAR_SEVERITY);
    assert_eq!(f32::from_bits(clear.severity), 0.2);
    assert_eq!(clear.duration, 1);
    assert_eq!(clear.target, "all");
}

#[test]
fn clone_keeps_every_field() {
    let storm = SimEvent::storm(12, 0.3f32.to_bits(), 6);
    let copy = storm.clone();
    assert_eq!(copy.event_type, storm.event_type);
    assert_eq!(copy.tick, storm.tick);
    assert_eq!(copy.severity, storm.severity);
    assert_eq!(copy.duration, storm.duration);
    assert_eq!(copy.target, storm.target);
}
