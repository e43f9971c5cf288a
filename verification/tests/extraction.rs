use std::collections::HashMap;

use plato_sim_bridge::event::{EventType, SimEvent};
use plato_sim_bridge::extractor::PatternExtractor;
use plato_sim_bridge::pattern::{PatternPlan, PatternType};
use plato_sim_bridge::sentiment::{Sentiment, SentimentReading};

fn sev(x: f32) -> u32 {
    x.to_bits()
}

fn mood(energy: f32, frustration: f32, tension: f32, confidence: f32) -> Sentiment {
    Sentiment {
        energy: energy.to_bits(),
        frustration: frustration.to_bits(),
        tension: tension.to_bits(),
        confidence: confidence.to_bits(),
    }
}

fn of_type(plans: &[PatternPlan], t: PatternType) -> Vec<&PatternPlan> {
    plans.iter().filter(|p| p.pattern_type == t).collect()
}

#[test]
fn test_extract_responses() {
    let mut ext = PatternExtractor::new();
    ext.feed_events(&[SimEvent::storm(0, sev(0.7), 40), SimEvent::bug(50, sev(0.5))]);

    let patterns = ext.extract();
    let responses = of_type(&patterns, PatternType::Response);
    assert!(!responses.is_empty());
}

#[test]
fn test_extract_escalations() {
    let mut ext = PatternExtractor::new();
    ext.feed_events(&[
        SimEvent::storm(0, sev(0.7), 40),
        SimEvent::outage(5, sev(0.6), 25), // escalation: 5 ticks after storm
    ]);

    let patterns = ext.extract();
    let escalations = of_type(&patterns, PatternType::Escalation);
    assert!(!escalations.is_empty());
}

#[test]
fn test_extract_auto_resolves() {
    let mut ext = PatternExtractor::new();
    ext.feed_events(&[SimEvent::bug(10, sev(0.3))]);

    let patterns = ext.extract();
    let auto = of_type(&patterns, PatternType::AutoResolve);
    assert!(!auto.is_empty());
    assert!(auto[0].auto_resolved);
}

#[test]
fn test_extract_recoveries() {
    let mut ext = PatternExtractor::new();
    let unhealthy = mood(0.2, 0.8, 0.8, 0.1);
    let healthy = mood(0.7, 0.3, 0.3, 0.7);

    ext.feed_events(&[SimEvent::storm(0, sev(0.7), 10)]);
    // Frustration 0.8 and tension 0.8 fail the health thresholds; 0.3, 0.3
    // and confidence 0.7 pass them.
    ext.set_sentiment(0, unhealthy, false);
    ext.set_sentiment(15, healthy, true); // recovery at tick 15

    let patterns = ext.extract();
    let recoveries = of_type(&patterns, PatternType::Recovery);
    assert!(!recoveries.is_empty());
}

#[test]
fn recovery_is_at_the_recorded_healthy_tick() {
    let mut ext = PatternExtractor::new();
    let unhealthy = mood(0.2, 0.8, 0.8, 0.1);
    let healthy = mood(0.7, 0.3, 0.3, 0.7);
    ext.feed_events(&[SimEvent::storm(0, sev(0.7), 10)]);
    ext.set_sentiment(0, unhealthy, false);
    ext.set_sentiment(15, healthy, true);
    let patterns = ext.extract();
    let recoveries = of_type(&patterns, PatternType::Recovery);
    assert_eq!(recoveries.len(), 1);
    let r = recoveries[0];
    assert_eq!(r.delay, 5);
    assert_eq!(r.duration_ticks, 15);
    assert_eq!(r.sentiment_after, healthy);
    assert_eq!(r.trigger_text(""), "storm recovery after 5 ticks");
}

#[test]
fn test_empty_extraction() {
    let mut ext = PatternExtractor::new();
    let patterns = ext.extract();
    assert!(patterns.is_empty());
}

#[test]
fn test_no_escalation_for_distant_events() {
    let mut ext = PatternExtractor::new();
    ext.feed_events(&[
        SimEvent::storm(0, sev(0.7), 40),
        SimEvent::outage(100, sev(0.6), 25), // 100 ticks gap — not escalation
    ]);

    let patterns = ext.extract();
    let escalations = of_type(&patterns, PatternType::Escalation);
    assert!(escalations.is_empty());
}

#[test]
fn patterns_come_grouped_with_consecutive_ids() {
    let mut ext = PatternExtractor::default();
    ext.feed_events(&[SimEvent::storm(0, sev(0.7), 40), SimEvent::outage(5, sev(0.6), 25)]);
    let plans = ext.extract();
    assert_eq!(plans.len(), 3);
    assert_eq!(plans[0].pattern_type, PatternType::Response);
    assert_eq!(plans[0].id, 1);
    assert_eq!(plans[0].event.event_type, EventType::Storm);
    assert!(!plans[0].auto_resolved);
    assert!(plans[0].big_model_needed);
    assert_eq!(plans[1].pattern_type, PatternType::Response);
    assert_eq!(plans[1].id, 2);
    assert_eq!(plans[1].event.event_type, EventType::Outage);
    assert_eq!(plans[1].ships_involved, vec!["all".to_string()]);
    assert_eq!(plans[2].pattern_type, PatternType::Escalation);
    assert_eq!(plans[2].id, 3);
    assert_eq!(plans[2].delay, 5);
    assert_eq!(plans[2].duration_ticks, 5);
    assert_eq!(plans[2].follow_up.as_ref().unwrap().event_type, EventType::Outage);
    assert!(plans[2].big_model_needed);
    assert!(!plans[2].auto_resolved);
}

#[test]
fn second_extraction_numbers_on() {
    let mut ext = PatternExtractor::new();
    ext.feed_events(&[SimEvent::bug(10, sev(0.3))]);
    let first = ext.extract();
    let second = ext.extract();
    assert_eq!(first.len(), 2);
    assert_eq!(second.len(), 2);
    assert_eq!(first[0].id, 1);
    assert_eq!(first[1].id, 2);
    assert_eq!(second[0].id, 3);
    assert_eq!(second[1].id, 4);
    assert_eq!(second[1].pattern_type, PatternType::AutoResolve);
}

#[test]
fn events_are_taken_in_tick_order() {
    let mut ext = PatternExtractor::new();
    ext.feed_events(&[SimEvent::outage(30, sev(0.6), 25), SimEvent::storm(20, sev(0.7), 40)]);
    let plans = ext.extract();
    assert_eq!(plans[0].event.event_type, EventType::Storm);
    assert_eq!(plans[1].event.event_type, EventType::Outage);
    assert_eq!(plans[2].pattern_type, PatternType::Escalation);
    assert_eq!(plans[2].event.event_type, EventType::Storm);
    assert_eq!(plans[2].delay, 10);
}

#[test]
fn equal_ticks_keep_feed_order() {
    let mut ext = PatternExtractor::new();
    ext.feed_events(&[SimEvent::outage(7, sev(0.6), 25), SimEvent::storm(7, sev(0.7), 40)]);
    let plans = ext.extract();
    assert_eq!(plans[0].event.event_type, EventType::Outage);
    assert_eq!(plans[1].event.event_type, EventType::Storm);
    assert_eq!(plans[2].delay, 0);
}

#[test]
fn gap_of_eleven_is_no_escalation() {
    let mut ext = PatternExtractor::new();
    ext.feed_events(&[SimEvent::storm(0, sev(0.7), 40), SimEvent::outage(11, sev(0.6), 25)]);
    let plans = ext.extract();
    assert_eq!(plans.len(), 2);
    assert!(of_type(&plans, PatternType::Escalation).is_empty());
}

#[test]
fn positive_events_give_no_patterns() {
    let mut ext = PatternExtractor::new();
    ext.feed_events(&[SimEvent::clear(0), SimEvent::clear(3)]);
    assert!(ext.extract().is_empty());
}

#[test]
fn recovery_takes_first_healthy_tick() {
    let mut ext = PatternExtractor::new();
    let unhealthy = mood(0.2, 0.8, 0.8, 0.1);
    let healthy = mood(0.7, 0.3, 0.3, 0.7);
    ext.feed_events(&[SimEvent::storm(0, sev(0.7), 10)]);
    ext.set_sentiment(0, unhealthy, false);
    ext.set_sentiment(11, unhealthy, false);
    ext.set_sentiment(12, healthy, true);
    let plans = ext.extract();
    let recoveries = of_type(&plans, PatternType::Recovery);
    assert_eq!(recoveries.len(), 1);
    let r = recoveries[0];
    assert_eq!(r.delay, 2);
    assert_eq!(r.duration_ticks, 12);
    assert_eq!(r.sentiment_before, unhealthy);
    assert_eq!(r.sentiment_after, healthy);
    assert!(r.auto_resolved);
    assert!(!r.big_model_needed);
}

#[test]
fn no_recovery_from_a_healthy_start() {
    let mut ext = PatternExtractor::new();
    ext.feed_events(&[SimEvent::storm(0, sev(0.7), 10)]);
    let plans = ext.extract();
    assert!(of_type(&plans, PatternType::Recovery).is_empty());
}

#[test]
fn no_recovery_beyond_the_window() {
    let mut ext = PatternExtractor::new();
    let unhealthy = mood(0.2, 0.8, 0.8, 0.1);
    ext.feed_events(&[SimEvent::storm(0, sev(0.7), 10)]);
    ext.set_sentiment(0, unhealthy, false);
    for t in 11..=40 {
        ext.set_sentiment(t, unhealthy, false);
    }
    let plans = ext.extract();
    assert!(of_type(&plans, PatternType::Recovery).is_empty());
}

#[test]
fn late_recovery_needs_the_big_model() {
    let mut ext = PatternExtractor::new();
    let unhealthy = mood(0.2, 0.8, 0.8, 0.1);
    let healthy = mood(0.7, 0.3, 0.3, 0.7);
    ext.feed_events(&[SimEvent::storm(0, sev(0.7), 10)]);
    ext.set_sentiment(0, unhealthy, false);
    for t in 11..=35 {
        ext.set_sentiment(t, unhealthy, false);
    }
    ext.set_sentiment(36, healthy, true);
    let plans = ext.extract();
    let r = of_type(&plans, PatternType::Recovery)[0];
    assert_eq!(r.delay, 26);
    assert!(!r.auto_resolved);
    assert!(r.big_model_needed);
}

#[test]
fn readings_fed_with_events_are_used() {
    let mut ext = PatternExtractor::new();
    let unhealthy = mood(0.2, 0.8, 0.8, 0.1);
    let healthy = mood(0.7, 0.3, 0.3, 0.7);
    let mut readings = HashMap::new();
    readings.insert(0u32, SentimentReading { sentiment: unhealthy, healthy: false });
    readings.insert(11u32, SentimentReading { sentiment: healthy, healthy: true });
    ext.feed(&[SimEvent::storm(0, sev(0.7), 10)], &readings);
    let plans = ext.extract();
    assert_eq!(plans[0].sentiment_before, unhealthy);
    assert_eq!(plans[0].sentiment_after, Sentiment::default());
    let r = of_type(&plans, PatternType::Recovery)[0];
    assert_eq!(r.delay, 1);
    assert_eq!(r.sentiment_after, healthy);
}

#[test]
fn unrecorded_ticks_are_no_recovery() {
    let mut ext = PatternExtractor::new();
    let unhealthy = mood(0.2, 0.8, 0.8, 0.1);
    ext.feed_events(&[SimEvent::storm(0, sev(0.7), 10)]);
    ext.set_sentiment(0, unhealthy, false);
    let plans = ext.extract();
    assert!(of_type(&plans, PatternType::Recovery).is_empty());
}

#[test]
fn set_sentiment_replaces_a_reading() {
    let mut ext = PatternExtractor::new();
    let unhealthy = mood(0.2, 0.8, 0.8, 0.1);
    ext.feed_events(&[SimEvent::storm(0, sev(0.7), 10)]);
    ext.set_sentiment(0, unhealthy, false);
    ext.set_sentiment(0, Sentiment::default(), true);
    let plans = ext.extract();
    assert_eq!(plans[0].sentiment_before, Sentiment::default());
    assert!(of_type(&plans, PatternType::Recovery).is_empty());
}

#[test]
fn short_problems_resolve_themselves() {
    let mut ext = PatternExtractor::new();
    ext.feed_events(&[SimEvent::outage(0, sev(0.6), 5), SimEvent::outage(100, sev(0.6), 6)]);
    let plans = ext.extract();
    assert!(plans[0].auto_resolved);
    assert!(!plans[1].auto_resolved);
    assert!(!plans[1].big_model_needed);
    let auto = of_type(&plans, PatternType::AutoResolve);
    assert_eq!(auto.len(), 1);
    assert_eq!(auto[0].event.tick, 0);
    assert!(!auto[0].big_model_needed);
    assert_eq!(auto[0].id, 3);
}

#[test]
fn targeted_problems_involve_their_ship() {
    let mut ext = PatternExtractor::new();
    let event = SimEvent {
        event_type: EventType::Crash,
        tick: 4,
        severity: sev(0.9),
        duration: 21,
        target: "jc1".to_string(),
    };
    ext.feed_events(&[event]);
    let plans = ext.extract();
    assert_eq!(plans.len(), 1);
    assert_eq!(plans[0].ships_involved, vec!["jc1".to_string()]);
    assert!(plans[0].big_model_needed);
}

#[test]
fn extraction_near_the_end_of_time_is_refused() {
    let mut ext = PatternExtractor::new();
    ext.feed_events(&[SimEvent::storm(u32::MAX - 35, sev(0.7), 10)]);
    assert!(!ext.can_extract());
    let mut fits = PatternExtractor::new();
    fits.feed_events(&[SimEvent::storm(u32::MAX - 40, sev(0.7), 10)]);
    assert!(fits.can_extract());
    assert_eq!(fits.extract().len(), 1);
}

#[test]
fn early_recovery_shortens_the_ticks_read() {
    let mut ext = PatternExtractor::new();
    let unhealthy = mood(0.2, 0.8, 0.8, 0.1);
    let healthy = mood(0.7, 0.3, 0.3, 0.7);
    let start = u32::MAX - 12;
    ext.feed_events(&[SimEvent::storm(start, sev(0.7), 10)]);
    ext.set_sentiment(start, unhealthy, false);
    assert!(!ext.can_extract());
    ext.set_sentiment(start + 11, healthy, true);
    assert!(ext.can_extract());
    let plans = ext.extract();
    assert_eq!(of_type(&plans, PatternType::Recovery)[0].delay, 1);
}
