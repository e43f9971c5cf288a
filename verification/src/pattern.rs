//! Patterns found in a simulation run.

use vstd::prelude::*;

use crate::event::SimEvent;
use crate::order::{descending_keys, lists_each_index_once, rank_by_quality, stable_order};
use crate::text::{spec_decimal, spec_outcome_text, spec_response_text, spec_trigger_text};
use crate::sentiment::Sentiment;

verus! {

/// The kinds of pattern the extractor looks for.
#[derive(Debug, Clone, Copy, PartialEq, Eq, Structural)]
pub enum PatternType {
    /// A problem event and how the fleet came out of it.
    Response,
    /// One problem following another closely.
    Escalation,
    /// A problem short enough to be settled without the expensive model.
    AutoResolve,
    /// The fleet's mood returning to healthy after a problem.
    Recovery,
    /// One ship helping another.
    CrossShip,
}

impl PatternType {
    /// The pattern kind's name in tiles.
    pub open spec fn spec_tile_type(self) -> Seq<char> {
        match self {
            PatternType::Response => "response"@,
            PatternType::Escalation => "escalation"@,
            PatternType::AutoResolve => "auto_resolve"@,
            PatternType::Recovery => "recovery"@,
            PatternType::CrossShip => "cross_ship"@,
        }
    }

    /// The tile type of the pattern kind, also used in its `type:` tag.
    pub fn tile_type(&self) -> (s: &'static str)
        ensures
            s@ == self.spec_tile_type(),
    {
        match self {
            PatternType::Response => "response",
            PatternType::Escalation => "escalation",
            PatternType::AutoResolve => "auto_resolve",
            PatternType::Recovery => "recovery",
            PatternType::CrossShip => "cross_ship",
        }
    }
}

/// A pattern as the extractor finds it, before its quality is scored.
///
/// The pattern's id is `pat-` followed by `id`. Everything here is decided
/// from ticks, durations and health flags; the quality score and the texts
/// that show severities and scores are derived from it by the caller.
#[derive(Debug)]
pub struct PatternPlan {
    /// Sequence number of the pattern within its extractor.
    pub id: u32,
    pub pattern_type: PatternType,
    /// The event the pattern is about; for an escalation, the first one.
    pub event: SimEvent,
    /// For an escalation, the problem that followed; otherwise none.
    pub follow_up: Option<SimEvent>,
    pub sentiment_before: Sentiment,
    pub sentiment_after: Sentiment,
    pub duration_ticks: u32,
    /// For an escalation, the ticks between the two problems; for a
    /// recovery, the ticks after the event's end until the mood was healthy;
    /// otherwise 0.
    pub delay: u32,
    pub auto_resolved: bool,
    pub big_model_needed: bool,
    pub ships_involved: Vec<String>,
}

/// A scored pattern, ready to become a tile.
#[derive(Debug)]
pub struct Pattern {
    pub id: String,
    pub pattern_type: PatternType,
    pub trigger: String,
    pub response: String,
    pub outcome: String,
    /// Bit pattern of the quality score, an IEEE-754 single from 0.0 to 1.0.
    pub quality: u32,
    pub sentiment_before: Sentiment,
    pub sentiment_after: Sentiment,
    pub duration_ticks: u32,
    pub auto_resolved: bool,
    pub big_model_needed: bool,
    pub ships_involved: Vec<String>,
}

impl Clone for Pattern {
    fn clone(&self) -> (p: Self)
        ensures
            p.id == self.id,
            p.pattern_type == self.pattern_type,
            p.trigger == self.trigger,
            p.response == self.response,
            p.outcome == self.outcome,
            p.quality == self.quality,
            p.sentiment_before == self.sentiment_before,
            p.sentiment_after == self.sentiment_after,
            p.duration_ticks == self.duration_ticks,
            p.auto_resolved == self.auto_resolved,
            p.big_model_needed == self.big_model_needed,
            p.ships_involved@ == self.ships_involved@,
    {
        Pattern {
            id: self.id.clone(),
            pattern_type: self.pattern_type,
            trigger: self.trigger.clone(),
            response: self.response.clone(),
            outcome: self.outcome.clone(),
            quality: self.quality,
            sentiment_before: self.sentiment_before,
            sentiment_after: self.sentiment_after,
            duration_ticks: self.duration_ticks,
            auto_resolved: self.auto_resolved,
            big_model_needed: self.big_model_needed,
            ships_involved: copy_of_ships(&self.ships_involved),
        }
    }
}

fn copy_of_ships(ships: &Vec<String>) -> (copy: Vec<String>)
    ensures
        copy@ == ships@,
{
    let copy = ships.clone();
    assert(copy@ =~= ships@);
    copy
}

/// How a found pattern was scored.
#[derive(Debug)]
pub struct Score {
    /// Bit pattern of the quality score, an IEEE-754 single from 0.0 to 1.0.
    pub quality: u32,
    /// The severity of the pattern's event, written with two decimals.
    pub severity: String,
    /// Whether the quality is above one half.
    pub resolved: bool,
}

/// `p` is the found pattern `plan` scored with `quality`, `severity` (the
/// event's severity written out) and `resolved`.
pub open spec fn scored_as(
    p: Pattern,
    plan: PatternPlan,
    quality: u32,
    severity: Seq<char>,
    resolved: bool,
) -> bool {
    &&& p.id@ == "pat-"@ + spec_decimal(plan.id as nat)
    &&& p.pattern_type == plan.pattern_type
    &&& p.trigger@ == spec_trigger_text(plan, severity)
    &&& p.response@ == spec_response_text(plan)
    &&& p.outcome@ == spec_outcome_text(plan, resolved)
    &&& p.quality == quality
    &&& p.sentiment_before == plan.sentiment_before
    &&& p.sentiment_after == plan.sentiment_after
    &&& p.duration_ticks == plan.duration_ticks
    &&& p.auto_resolved == plan.auto_resolved
    &&& p.big_model_needed == plan.big_model_needed
    &&& p.ships_involved@ == plan.ships_involved@
}

impl PatternPlan {
    /// The scored pattern: `quality` is the bit pattern of its quality score,
    /// `severity` the event's severity written with two decimals, and
    /// `resolved` whether the quality is above one half.
    pub fn into_pattern(&self, quality: u32, severity: &str, resolved: bool) -> (p: Pattern)
        ensures
            scored_as(p, *self, quality, severity@, resolved),
    {
        Pattern {
            id: self.id_text(),
            pattern_type: self.pattern_type,
            trigger: self.trigger_text(severity),
            response: self.response_text(),
            outcome: self.outcome_text(resolved),
            quality,
            sentiment_before: self.sentiment_before,
            sentiment_after: self.sentiment_after,
            duration_ticks: self.duration_ticks,
            auto_resolved: self.auto_resolved,
            big_model_needed: self.big_model_needed,
            ships_involved: copy_of_ships(&self.ships_involved),
        }
    }
}

/// The quality keys of `scores`, in their order.
pub open spec fn score_qualities(scores: Seq<Score>) -> Seq<u32> {
    scores.map_values(|s: Score| s.quality)
}

/// The positions of `scores` from the highest quality to the lowest, equal
/// qualities in their order.
pub open spec fn score_order(scores: Seq<Score>) -> Seq<usize> {
    stable_order(descending_keys(score_qualities(scores)))
}

/// `ranked` holds each of `plans` scored with its score, from the highest
/// quality to the lowest; patterns of equal quality keep their order.
pub open spec fn ranked_from(ranked: Seq<Pattern>, plans: Seq<PatternPlan>, scores: Seq<Score>) -> bool {
    let o = score_order(scores);
    &&& ranked.len() == plans.len()
    &&& lists_each_index_once(o, plans.len())
    &&& forall|k: int|
        0 <= k < ranked.len() ==> scored_as(
            #[trigger] ranked[k],
            plans[o[k] as int],
            scores[o[k] as int].quality,
            scores[o[k] as int].severity@,
            scores[o[k] as int].resolved,
        )
    &&& forall|i: int, j: int| 0 <= i < j < ranked.len() ==> ranked[i].quality >= ranked[j].quality
    &&& forall|i: int, j: int|
        0 <= i < j < ranked.len() && ranked[i].quality == ranked[j].quality ==> o[i] < o[j]
}

/// Score each found pattern with its score (`scores[i]` for `plans[i]`) and
/// rank the scored patterns from the highest quality to the lowest, equal
/// qualities in the order they were found.
///
/// Qualities are compared by their bit patterns, which for non-negative
/// singles is the order of the values.
pub fn score_patterns(plans: &Vec<PatternPlan>, scores: &Vec<Score>) -> (ranked: Vec<Pattern>)
    requires
        scores@.len() == plans@.len(),
    ensures
        ranked_from(ranked@, plans@, scores@),
{
    let mut qualities: Vec<u32> = Vec::new();
    let mut i: usize = 0;
    while i < scores.len()
        invariant
            i <= scores.len(),
            qualities.len() == i,
            forall|j: int| 0 <= j < i ==> #[trigger] qualities@[j] == scores@[j].quality,
        decreases scores.len() - i,
    {
        qualities.push(scores[i].quality);
        i += 1;
    }
    assert(qualities@ =~= score_qualities(scores@));
    let order = rank_by_quality(&qualities);
    let mut ranked: Vec<Pattern> = Vec::new();
    let mut k: usize = 0;
    while k < order.len()
        invariant
            k <= order.len(),
            order@ == score_order(scores@),
            qualities@ == score_qualities(scores@),
            scores@.len() == plans@.len(),
            lists_each_index_once(order@, qualities@.len()),
            forall|i: int, j: int|
                0 <= i < j < order@.len() ==> qualities@[order@[i] as int]
                    >= qualities@[order@[j] as int],
            ranked.len() == k,
            forall|j: int|
                0 <= j < k ==> scored_as(
                    #[trigger] ranked@[j],
                    plans@[order@[j] as int],
                    scores@[order@[j] as int].quality,
                    scores@[order@[j] as int].severity@,
                    scores@[order@[j] as int].resolved,
                ),
        decreases order.len() - k,
    {
        let at = order[k];
        let score = &scores[at];
        ranked.push(plans[at].into_pattern(score.quality, score.severity.as_str(), score.resolved));
        k += 1;
    }
    proof {
        assert forall|i: int, j: int| 0 <= i < j < ranked@.len() implies ranked@[i].quality
            >= ranked@[j].quality by {
            assert(qualities@[order@[i] as int] >= qualities@[order@[j] as int]);
        }
    }
    ranked
}

} // verus!
