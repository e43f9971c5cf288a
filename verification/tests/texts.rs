use plato_sim_bridge::event::{EventType, SimEvent};
use plato_sim_bridge::extractor::PatternExtractor;
use plato_sim_bridge::pattern::{score_patterns, PatternPlan, PatternType, Score};
use plato_sim_bridge::sentiment::Sentiment;
use plato_sim_bridge::text::decimal;

fn plan(pattern_type: PatternType, event: SimEvent, follow_up: Option<SimEvent>, delay: u32) -> PatternPlan {
    let duration = event.duration;
    PatternPlan {
        id: 12,
        pattern_type,
        event,
        follow_up,
        sentiment_before: Sentiment::default(),
        sentiment_after: Sentiment::default(),
        duration_ticks: duration,
        delay,
        auto_resolved: false,
        big_model_needed: false,
        ships_involved: vec!["all".to_string()],
    }
}

#[test]
fn decimal_writes_digits() {
    assert_eq!(decimal(0), "0");
    assert_eq!(decimal(7), "7");
    assert_eq!(decimal(10), "10");
    assert_eq!(decimal(4096), "4096");
    assert_eq!(decimal(u64::MAX), u64::MAX.to_string());
}

#[test]
fn response_texts() {
    let p = plan(PatternType::Response, SimEvent::storm(0, 0.7f32.to_bits(), 40), None, 0);
    assert_eq!(p.id_text(), "pat-12");
    assert_eq!(p.trigger_text("0.70"), "storm at tick 0 (severity: 0.70)");
    assert_eq!(p.response_text(), "Fleet responded over 40 ticks");
    assert_eq!(p.outcome_text(true), "resolved");
    assert_eq!(p.outcome_text(false), "degraded");
}

#[test]
fn escalation_texts() {
    let p = plan(
        PatternType::Escalation,
        SimEvent::storm(0, 0.7f32.to_bits(), 40),
        Some(SimEvent::outage(5, 0.6f32.to_bits(), 25)),
        5,
    );
    assert_eq!(p.trigger_text("ignored"), "storm followed by outage within 5 ticks");
    assert_eq!(p.response_text(), "Cascading failure pattern");
    assert_eq!(p.outcome_text(false), "escalation detected");
}

#[test]
fn recovery_and_auto_resolve_texts() {
    let r = plan(PatternType::Recovery, SimEvent::storm(0, 0.7f32.to_bits(), 10), None, 5);
    assert_eq!(r.trigger_text(""), "storm recovery after 5 ticks");
    assert_eq!(r.response_text(), "Fleet returned to healthy sentiment");
    assert_eq!(r.outcome_text(true), "full recovery");
    let a = plan(PatternType::AutoResolve, SimEvent::bug(10, 0.3f32.to_bits()), None, 0);
    assert_eq!(a.trigger_text(""), "bug (duration 1 ticks)");
    assert_eq!(a.response_text(), "Wiki/expertise resolved without escalation");
    assert_eq!(a.outcome_text(true), "auto-resolved");
}

#[test]
fn scoring_a_plan_keeps_its_findings() {
    let mut ext = PatternExtractor::new();
    ext.feed_events(&[SimEvent::bug(10, 0.3f32.to_bits())]);
    let plans = ext.extract();
    let mut patterns = Vec::new();
    for p in plans {
        patterns.push(p.into_pattern(0.8f32.to_bits(), "0.30", true));
    }
    assert_eq!(patterns[0].id, "pat-1");
    assert_eq!(patterns[0].trigger, "bug at tick 10 (severity: 0.30)");
    assert_eq!(patterns[0].outcome, "resolved");
    assert!(patterns[0].auto_resolved);
    assert_eq!(patterns[1].id, "pat-2");
    assert_eq!(patterns[1].pattern_type, PatternType::AutoResolve);
    assert_eq!(patterns[1].trigger, "bug (duration 1 ticks)");
    assert_eq!(patterns[1].ships_involved, vec!["all".to_string()]);
}

fn score(q: f32, severity: &str) -> Score {
    Score { quality: q.to_bits(), severity: severity.to_string(), resolved: q > 0.5 }
}

#[test]
fn test_patterns_sorted_by_quality() {
    let mut ext = PatternExtractor::new();
    ext.feed_events(&[
        SimEvent::storm(0, 0.7f32.to_bits(), 40),
        SimEvent::bug(100, 0.3f32.to_bits()),
        SimEvent::storm(200, 0.9f32.to_bits(), 5),
    ]);
    let plans = ext.extract();
    // Qualities as scored by kind: auto-resolves 0.8, responses with no
    // change of mood 0.0.
    let scores: Vec<Score> = plans
        .iter()
        .map(|p| score(if p.pattern_type == PatternType::AutoResolve { 0.8 } else { 0.0 }, "0.50"))
        .collect();
    let patterns = score_patterns(&plans, &scores);
    for i in 1..patterns.len() {
        assert!(f32::from_bits(patterns[i - 1].quality) >= f32::from_bits(patterns[i].quality));
    }
    assert_eq!(patterns[0].pattern_type, PatternType::AutoResolve);
    assert_eq!(patterns[0].id, "pat-4");
    assert_eq!(patterns[1].id, "pat-5");
    assert_eq!(patterns[2].id, "pat-1");
    assert_eq!(patterns[2].outcome, "degraded");
    assert_eq!(patterns[0].outcome, "auto-resolved");
}

#[test]
fn ranking_is_stable() {
    let plans: Vec<PatternPlan> =
        (1..=4).map(|t| plan(PatternType::Response, SimEvent::clear(t), None, 0)).collect();
    let scores = vec![score(0.5, "0.20"), score(0.9, "0.20"), score(0.5, "0.20"), score(0.1, "0.20")];
    let ranked = score_patterns(&plans, &scores);
    let triggers: Vec<String> = ranked.iter().map(|p| p.trigger.clone()).collect();
    assert_eq!(
        triggers,
        vec![
            "clear at tick 2 (severity: 0.20)",
            "clear at tick 1 (severity: 0.20)",
            "clear at tick 3 (severity: 0.20)",
            "clear at tick 4 (severity: 0.20)",
        ]
    );
    assert_eq!(ranked[0].outcome, "resolved");
    assert_eq!(EventType::Clear.name(), "clear");
}

#[test]
fn cloned_pattern_keeps_every_field() {
    let p = plan(PatternType::Recovery, SimEvent::storm(0, 0.7f32.to_bits(), 10), None, 5)
        .into_pattern(0.9f32.to_bits(), "0.70", true);
    let c = p.clone();
    assert_eq!(c.id, p.id);
    assert_eq!(c.trigger, p.trigger);
    assert_eq!(c.quality, p.quality);
    assert_eq!(c.ships_involved, p.ships_involved);
    assert_eq!(c.outcome, "full recovery");
}
