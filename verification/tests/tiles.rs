use plato_sim_bridge::pattern::{Pattern, PatternType};
use plato_sim_bridge::sentiment::Sentiment;
use plato_sim_bridge::tile::{QualityText, Tile, TileConverter};

fn written(two: &str, one: &str) -> QualityText {
    QualityText { two_decimals: two.to_string(), one_decimal: one.to_string() }
}

#[test]
fn test_tile_stats() {
    let tiles = vec![
        Tile::new("1", "test", "response", "p1", 0.8f32.to_bits())
            .with_tags(vec!["auto_resolved".to_string()]),
        Tile::new("2", "test", "response", "p2", 0.6f32.to_bits())
            .with_tags(vec!["big_model".to_string()]),
        Tile::new("3", "test", "escalation", "p3", 0.4f32.to_bits()),
    ];

    let stats = TileConverter::stats(&tiles);
    assert_eq!(stats.total, 3);
    assert_eq!(stats.auto_resolved, 1);
    assert_eq!(stats.big_model, 1);
    assert_eq!(stats.type_count("response").unwrap(), 2);
}

#[test]
fn test_tile_with_tags() {
    let tile = Tile::new("1", "test", "type", "src", 0.5f32.to_bits())
        .with_tags(vec!["tag1".to_string(), "tag2".to_string()]);
    assert_eq!(tile.tags.len(), 2);
}

#[test]
fn new_tile_is_weighted_by_quality() {
    let tile = Tile::new("tile-0", "content", "recovery", "pat-1", 0.25f32.to_bits());
    assert_eq!(tile.id, "tile-0");
    assert_eq!(tile.content, "content");
    assert_eq!(tile.tile_type, "recovery");
    assert_eq!(tile.source_pattern, "pat-1");
    assert_eq!(f32::from_bits(tile.quality), 0.25);
    assert_eq!(tile.weight, tile.quality);
    assert!(tile.tags.is_empty());
}

#[test]
fn stats_count_each_type_once() {
    let tiles = vec![
        Tile::new("1", "a", "escalation", "p1", 0),
        Tile::new("2", "b", "response", "p2", 0),
        Tile::new("3", "c", "escalation", "p3", 0)
            .with_tags(vec!["big_model".to_string(), "auto_resolved".to_string()]),
    ];
    let stats = TileConverter::stats(&tiles);
    assert_eq!(stats.by_type.len(), 2);
    assert_eq!(stats.by_type[0].0, "escalation");
    assert_eq!(stats.by_type[0].1, 2);
    assert_eq!(stats.by_type[1].0, "response");
    assert_eq!(stats.by_type[1].1, 1);
    assert_eq!(stats.type_count("recovery"), None);
    assert_eq!(stats.auto_resolved, 1);
    assert_eq!(stats.big_model, 1);
}

#[test]
fn stats_of_no_tiles() {
    let stats = TileConverter::stats(&[]);
    assert_eq!(stats.total, 0);
    assert_eq!(stats.auto_resolved, 0);
    assert_eq!(stats.big_model, 0);
    assert!(stats.by_type.is_empty());
}

#[test]
fn tile_tags_follow_the_flags() {
    let tags = TileConverter::tile_tags(PatternType::AutoResolve, "0.8", true, false);
    assert_eq!(tags, vec!["type:auto_resolve", "quality:0.8", "auto_resolved"]);
    let tags = TileConverter::tile_tags(PatternType::Escalation, "0.4", false, true);
    assert_eq!(tags, vec!["type:escalation", "quality:0.4", "big_model"]);
    let tags = TileConverter::tile_tags(PatternType::Response, "1.0", true, true);
    assert_eq!(tags, vec!["type:response", "quality:1.0", "auto_resolved", "big_model"]);
    let tags = TileConverter::tile_tags(PatternType::CrossShip, "0.0", false, false);
    assert_eq!(tags, vec!["type:cross_ship", "quality:0.0"]);
}

#[test]
fn tile_types_of_pattern_kinds() {
    assert_eq!(PatternType::Response.tile_type(), "response");
    assert_eq!(PatternType::Escalation.tile_type(), "escalation");
    assert_eq!(PatternType::AutoResolve.tile_type(), "auto_resolve");
    assert_eq!(PatternType::Recovery.tile_type(), "recovery");
    assert_eq!(PatternType::CrossShip.tile_type(), "cross_ship");
}

#[test]
fn test_convert_to_tiles() {
    let patterns = vec![Pattern {
        id: "test-1".to_string(),
        pattern_type: PatternType::Response,
        trigger: "storm at tick 0".to_string(),
        response: "Fleet responded".to_string(),
        outcome: "resolved".to_string(),
        quality: 0.8f32.to_bits(),
        sentiment_before: Sentiment::default(),
        sentiment_after: Sentiment::default(),
        duration_ticks: 40,
        auto_resolved: false,
        big_model_needed: true,
        ships_involved: vec!["all".to_string()],
    }];

    // The quality 0.8 written with two decimals and with one.
    let tiles = TileConverter::convert(&patterns, &[written("0.80", "0.8")]);
    assert_eq!(tiles.len(), 1);
    assert_eq!(tiles[0].tile_type, "response");
    assert_eq!(f32::from_bits(tiles[0].quality), 0.8);
    assert!(tiles[0].content.contains("storm"));
}

#[test]
fn converted_tile_in_full() {
    let patterns = vec![
        Pattern {
            id: "pat-7".to_string(),
            pattern_type: PatternType::Escalation,
            trigger: "storm followed by outage within 5 ticks".to_string(),
            response: "Cascading failure pattern".to_string(),
            outcome: "escalation detected".to_string(),
            quality: 0.35f32.to_bits(),
            sentiment_before: Sentiment::default(),
            sentiment_after: Sentiment::default(),
            duration_ticks: 5,
            auto_resolved: false,
            big_model_needed: true,
            ships_involved: vec!["all".to_string()],
        },
        Pattern {
            id: "pat-8".to_string(),
            pattern_type: PatternType::AutoResolve,
            trigger: "bug (duration 1 ticks)".to_string(),
            response: "Wiki/expertise resolved without escalation".to_string(),
            outcome: "auto-resolved".to_string(),
            quality: 0.8f32.to_bits(),
            sentiment_before: Sentiment::default(),
            sentiment_after: Sentiment::default(),
            duration_ticks: 1,
            auto_resolved: true,
            big_model_needed: false,
            ships_involved: vec!["all".to_string()],
        },
    ];
    let tiles = TileConverter::convert(&patterns, &[written("0.35", "0.3"), written("0.80", "0.8")]);
    assert_eq!(tiles.len(), 2);
    assert_eq!(tiles[0].id, "tile-0");
    assert_eq!(tiles[1].id, "tile-1");
    assert_eq!(tiles[0].source_pattern, "pat-7");
    assert_eq!(
        tiles[0].content,
        "[escalation] storm followed by outage within 5 ticks \u{2192} Cascading failure pattern \u{2192} escalation detected (quality: 0.35, duration: 5 ticks)"
    );
    assert_eq!(tiles[0].tags, vec!["type:escalation", "quality:0.3", "big_model"]);
    assert_eq!(tiles[1].tags, vec!["type:auto_resolve", "quality:0.8", "auto_resolved"]);
    assert_eq!(tiles[1].weight, 0.8f32.to_bits());
    assert_eq!(tiles[1].tile_type, "auto_resolve");
}

#[test]
fn converting_nothing() {
    assert!(TileConverter::convert(&[], &[]).is_empty());
}

#[test]
fn tile_content_layout() {
    let c = TileConverter::tile_content(PatternType::Recovery, "t", "r", "o", "1.00", 123);
    assert_eq!(c, "[recovery] t \u{2192} r \u{2192} o (quality: 1.00, duration: 123 ticks)");
}

#[test]
fn stats_of_converted_patterns() {
    let make = |id: &str, t: PatternType, auto: bool, big: bool| Pattern {
        id: id.to_string(),
        pattern_type: t,
        trigger: "t".to_string(),
        response: "r".to_string(),
        outcome: "o".to_string(),
        quality: 0.5f32.to_bits(),
        sentiment_before: Sentiment::default(),
        sentiment_after: Sentiment::default(),
        duration_ticks: 3,
        auto_resolved: auto,
        big_model_needed: big,
        ships_involved: vec!["all".to_string()],
    };
    let patterns = vec![
        make("pat-1", PatternType::Response, true, false),
        make("pat-2", PatternType::Response, false, true),
        make("pat-3", PatternType::AutoResolve, true, false),
        make("pat-4", PatternType::Escalation, false, true),
    ];
    let written: Vec<QualityText> = patterns.iter().map(|_| written("0.50", "0.5")).collect();
    let stats = TileConverter::stats(&TileConverter::convert(&patterns, &written));
    assert_eq!(stats.total, 4);
    assert_eq!(stats.auto_resolved, 2);
    assert_eq!(stats.big_model, 2);
    assert_eq!(stats.type_count("response"), Some(2));
    assert_eq!(stats.type_count("auto_resolve"), Some(1));
    assert_eq!(stats.type_count("escalation"), Some(1));
    assert_eq!(stats.type_count("recovery"), None);
}
