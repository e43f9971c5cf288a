//! Properties of extraction as a whole, proved from its specification.

use vstd::prelude::*;

use crate::event::SimEvent;
use crate::extractor::{
    by_tick,
    escalations_in,
    event_ticks,
    is_auto_resolve,
    is_escalation,
    is_problem,
    is_recovery,
    is_response,
    escalation_starts,
    first_healthy_offset,
    lemma_escalation_starts,
    lemma_first_healthy_offset,
    pattern_count,
    patterns_found,
    problem_events,
    reading_at,
    recorded_healthy,
    recovering_in,
    recovers,
    recovery_offset,
    short_lived_in,
    tick_gap,
    AUTO_RESOLVE_DURATION,
    ESCALATION_GAP,
    RECOVERY_WINDOW,
};
use crate::order::{appears_in, lemma_order_prefix, stable_order};
use crate::extractor::PatternExtractor;
use crate::pattern::{ranked_from, score_order, scored_as, Pattern, PatternPlan, PatternType, Score};
use crate::text::spec_decimal;
use crate::sentiment::SentimentReading;

verus! {

broadcast use {
    vstd::seq_lib::group_filter_ensures,
    Seq::lemma_filter_contains_rev,
};

/// The two patterns record the same finding: they differ at most in id.
pub open spec fn same_finding(a: PatternPlan, b: PatternPlan) -> bool {
    &&& a.pattern_type == b.pattern_type
    &&& a.event == b.event
    &&& a.follow_up == b.follow_up
    &&& a.sentiment_before == b.sentiment_before
    &&& a.sentiment_after == b.sentiment_after
    &&& a.duration_ticks == b.duration_ticks
    &&& a.delay == b.delay
    &&& a.auto_resolved == b.auto_resolved
    &&& a.big_model_needed == b.big_model_needed
    &&& a.ships_involved@.len() == b.ships_involved@.len()
    &&& forall|i: int|
        0 <= i < a.ships_involved@.len() ==> #[trigger] a.ships_involved@[i]@
            == b.ships_involved@[i]@
}

/// The pattern at position `k` of an extraction, by the section it lies in.
proof fn lemma_pattern_at(
    plans: Seq<PatternPlan>,
    events: Seq<SimEvent>,
    m: Map<u32, SentimentReading>,
    start: int,
    k: int,
)
    requires
        patterns_found(plans, events, m, start),
        0 <= k < plans.len(),
    ensures
        ({
            let p = problem_events(events);
            let esc = escalations_in(p);
            let rec = recovering_in(m, p);
            let short = short_lived_in(p);
            let r0 = p.len() as int;
            let r1 = r0 + esc.len();
            let r2 = r1 + rec.len();
            &&& k < r0 ==> is_response(plans[k], p[k], start + k, m)
            &&& r0 <= k < r1 ==> is_escalation(
                plans[k],
                p[esc[k - r0]],
                p[esc[k - r0] + 1],
                start + k,
                m,
            )
            &&& r1 <= k < r2 ==> is_recovery(plans[k], rec[k - r1], start + k, m)
            &&& r2 <= k ==> k - r2 < short.len() && is_auto_resolve(
                plans[k],
                short[k - r2],
                start + k,
                m,
            )
        }),
{
    let p = problem_events(events);
    let esc = escalations_in(p);
    let rec = recovering_in(m, p);
    let short = short_lived_in(p);
    let r0 = p.len() as int;
    let r1 = r0 + esc.len();
    let r2 = r1 + rec.len();
    if k < r0 {
    } else if k < r1 {
        let q = k - r0;
        assert(is_escalation(plans[r0 + q], p[esc[q]], p[esc[q] + 1], start + r0 + q, m));
    } else if k < r2 {
        let q = k - r1;
        assert(is_recovery(plans[r1 + q], rec[q], start + r1 + q, m));
    } else {
        let q = k - r2;
        assert(is_auto_resolve(plans[r2 + q], short[q], start + r2 + q, m));
    }
}

/// With no events fed, extraction finds no pattern, whatever the readings.
pub proof fn law_nothing_fed_nothing_found(m: Map<u32, SentimentReading>)
    ensures
        pattern_count(Seq::<SimEvent>::empty(), m) == 0,
{
    let none = Seq::<SimEvent>::empty();
    assert(event_ticks(none) =~= Seq::<u32>::empty());
    assert(stable_order(event_ticks(none)) =~= Seq::<usize>::empty());
    assert(by_tick(none) =~= none);
    assert(problem_events(none) =~= none);
    assert(escalations_in(none) =~= Seq::<int>::empty());
}

/// Patterns are numbered consecutively from the extractor's next id, so no
/// two share an id; none is a cross-ship pattern.
pub proof fn law_ids_consecutive(
    plans: Seq<PatternPlan>,
    events: Seq<SimEvent>,
    m: Map<u32, SentimentReading>,
    start: int,
)
    requires
        patterns_found(plans, events, m, start),
    ensures
        forall|k: int| 0 <= k < plans.len() ==> #[trigger] plans[k].id == start + k,
        forall|k: int|
            0 <= k < plans.len() ==> (#[trigger] plans[k]).pattern_type != PatternType::CrossShip,
        forall|i: int, j: int| 0 <= i < j < plans.len() ==> plans[i].id != plans[j].id,
{
    assert forall|k: int| 0 <= k < plans.len() implies (#[trigger] plans[k]).id == start + k
        && plans[k].pattern_type != PatternType::CrossShip by {
        lemma_pattern_at(plans, events, m, start, k);
    }
}

/// Extracting again, with nothing fed in between, finds the same patterns
/// in the same order, their ids shifted by the difference of the ids the
/// two extractions started from.
pub proof fn law_extraction_repeats(
    first: Seq<PatternPlan>,
    second: Seq<PatternPlan>,
    events: Seq<SimEvent>,
    m: Map<u32, SentimentReading>,
    start1: int,
    start2: int,
)
    requires
        patterns_found(first, events, m, start1),
        patterns_found(second, events, m, start2),
    ensures
        first.len() == second.len(),
        forall|k: int|
            0 <= k < first.len() ==> same_finding(first[k], #[trigger] second[k]) && second[k].id
                - first[k].id == start2 - start1,
{
    assert forall|k: int| 0 <= k < first.len() implies same_finding(first[k], #[trigger] second[k])
        && second[k].id - first[k].id == start2 - start1 by {
        lemma_pattern_at(first, events, m, start1, k);
        lemma_pattern_at(second, events, m, start2, k);
    }
}

/// A recovery is found only where the mood was unhealthy when the problem
/// struck and a healthy snapshot was recorded `delay` ticks after the
/// problem ended, within the recovery window.
pub proof fn law_recovery_turns_healthy(
    plans: Seq<PatternPlan>,
    events: Seq<SimEvent>,
    m: Map<u32, SentimentReading>,
    start: int,
)
    requires
        patterns_found(plans, events, m, start),
    ensures
        forall|k: int|
            0 <= k < plans.len() && (#[trigger] plans[k]).pattern_type == PatternType::Recovery
                ==> {
                &&& !reading_at(m, plans[k].event.tick).healthy
                &&& recorded_healthy(m, (plans[k].event.tick + plans[k].duration_ticks) as u32)
                &&& plans[k].duration_ticks == plans[k].event.duration + plans[k].delay
                &&& 1 <= plans[k].delay <= RECOVERY_WINDOW
            },
{
    let p = problem_events(events);
    let rec = recovering_in(m, p);
    let r1 = p.len() + escalations_in(p).len();
    let r2 = r1 + rec.len();
    assert forall|k: int|
        0 <= k < plans.len() && (#[trigger] plans[k]).pattern_type
            == PatternType::Recovery implies {
        &&& !reading_at(m, plans[k].event.tick).healthy
        &&& recorded_healthy(m, (plans[k].event.tick + plans[k].duration_ticks) as u32)
        &&& plans[k].duration_ticks == plans[k].event.duration + plans[k].delay
        &&& 1 <= plans[k].delay <= RECOVERY_WINDOW
    } by {
        lemma_pattern_at(plans, events, m, start, k);
        if r1 <= k < r2 {
            let e = rec[k - r1];
            lemma_first_healthy_offset(m, e.tick + e.duration, 1);
            assert(recovery_offset(m, e) is Some);
        }
    }
}

/// An escalation joins two problems, the second following within the
/// escalation gap; it needs the expensive model and does not settle itself.
pub proof fn law_escalations_are_close(
    plans: Seq<PatternPlan>,
    events: Seq<SimEvent>,
    m: Map<u32, SentimentReading>,
    start: int,
)
    requires
        patterns_found(plans, events, m, start),
    ensures
        forall|k: int|
            0 <= k < plans.len() && (#[trigger] plans[k]).pattern_type == PatternType::Escalation
                ==> {
                &&& is_problem(plans[k].event)
                &&& plans[k].follow_up matches Some(next) && is_problem(next)
                &&& plans[k].delay <= ESCALATION_GAP
                &&& plans[k].duration_ticks == plans[k].delay
                &&& plans[k].big_model_needed
                &&& !plans[k].auto_resolved
            },
{
    let p = problem_events(events);
    let esc = escalations_in(p);
    let r0 = p.len() as int;
    let r1 = r0 + esc.len();
    if p.len() > 0 {
        lemma_escalation_starts(p, p.len() - 1);
    }
    assert forall|k: int|
        0 <= k < plans.len() && (#[trigger] plans[k]).pattern_type
            == PatternType::Escalation implies {
        &&& is_problem(plans[k].event)
        &&& plans[k].follow_up matches Some(next) && is_problem(next)
        &&& plans[k].delay <= ESCALATION_GAP
        &&& plans[k].duration_ticks == plans[k].delay
        &&& plans[k].big_model_needed
        &&& !plans[k].auto_resolved
    } by {
        lemma_pattern_at(plans, events, m, start, k);
        if r0 <= k < r1 {
            let i = esc[k - r0];
            assert(is_problem(p[i]));
            assert(is_problem(p[i + 1]));
        }
    }
}

/// An auto-resolve is found only for a problem lasting at most the
/// auto-resolve duration, and the response to that same problem is marked
/// auto-resolved too.
pub proof fn law_auto_resolve_matches_response(
    plans: Seq<PatternPlan>,
    events: Seq<SimEvent>,
    m: Map<u32, SentimentReading>,
    start: int,
)
    requires
        patterns_found(plans, events, m, start),
    ensures
        forall|k: int|
            0 <= k < plans.len() && (#[trigger] plans[k]).pattern_type == PatternType::AutoResolve
                ==> {
                &&& plans[k].duration_ticks <= AUTO_RESOLVE_DURATION
                &&& plans[k].auto_resolved
                &&& !plans[k].big_model_needed
                &&& exists|j: int|
                    0 <= j < plans.len() && plans[j].pattern_type == PatternType::Response
                        && plans[j].event == plans[k].event && plans[j].auto_resolved
            },
{
    let p = problem_events(events);
    let short = short_lived_in(p);
    let r2 = p.len() + escalations_in(p).len() + recovering_in(m, p).len();
    assert forall|k: int|
        0 <= k < plans.len() && (#[trigger] plans[k]).pattern_type
            == PatternType::AutoResolve implies {
        &&& plans[k].duration_ticks <= AUTO_RESOLVE_DURATION
        &&& plans[k].auto_resolved
        &&& !plans[k].big_model_needed
        &&& exists|j: int|
            0 <= j < plans.len() && plans[j].pattern_type == PatternType::Response
                && plans[j].event == plans[k].event && plans[j].auto_resolved
    } by {
        lemma_pattern_at(plans, events, m, start, k);
        if r2 <= k {
            let e = short[k - r2];
            assert(e.duration <= AUTO_RESOLVE_DURATION);
            assert(short.contains(e));
            assert(p.contains(e));
            let j = choose|j: int| 0 <= j < p.len() && p[j] == e;
            lemma_pattern_at(plans, events, m, start, j);
        }
    }
}

/// Every problem fed gets a response, and every response answers a problem
/// that was fed.
pub proof fn law_every_problem_gets_a_response(
    plans: Seq<PatternPlan>,
    events: Seq<SimEvent>,
    m: Map<u32, SentimentReading>,
    start: int,
)
    requires
        patterns_found(plans, events, m, start),
        events.len() <= usize::MAX,
    ensures
        forall|i: int|
            0 <= i < events.len() && is_problem(#[trigger] events[i]) ==> exists|k: int|
                0 <= k < plans.len() && plans[k].pattern_type == PatternType::Response
                    && plans[k].event == events[i],
        forall|k: int|
            0 <= k < plans.len() && (#[trigger] plans[k]).pattern_type == PatternType::Response
                ==> exists|i: int|
                0 <= i < events.len() && events[i] == plans[k].event && is_problem(events[i]),
{
    let ticks = event_ticks(events);
    let order = stable_order(ticks);
    let sorted = by_tick(events);
    let p = problem_events(events);
    lemma_order_prefix(ticks, ticks.len());
    assert(sorted.len() == events.len());
    assert forall|i: int| 0 <= i < events.len() && is_problem(#[trigger] events[i]) implies exists|
        k: int,
    |
        0 <= k < plans.len() && plans[k].pattern_type == PatternType::Response && plans[k].event
            == events[i] by {
        assert(appears_in(order, i));
        let j = choose|j: int| 0 <= j < order.len() && order[j] == i;
        assert(sorted[j] == events[i]);
        assert(p.contains(sorted[j]));
        let q = choose|q: int| 0 <= q < p.len() && p[q] == sorted[j];
        lemma_pattern_at(plans, events, m, start, q);
    }
    assert forall|k: int|
        0 <= k < plans.len() && (#[trigger] plans[k]).pattern_type
            == PatternType::Response implies exists|i: int|
        0 <= i < events.len() && events[i] == plans[k].event && is_problem(events[i]) by {
        lemma_pattern_at(plans, events, m, start, k);
        if k < p.len() {
            assert(p.contains(p[k]));
            assert(sorted.contains(p[k]));
            let j = choose|j: int| 0 <= j < sorted.len() && sorted[j] == p[k];
            assert(sorted[j] == events[order[j] as int]);
            assert(is_problem(p[k]));
        }
    }
}

/// Extracted, scored and ranked patterns come from the highest quality to
/// the lowest; patterns of equal quality come in the order they were found,
/// so by increasing id; each ranked pattern's id is `pat-` and its number,
/// one of the numbers handed out from `start`, and none is cross-ship.
pub proof fn law_ranked_extraction(
    plans: Seq<PatternPlan>,
    events: Seq<SimEvent>,
    m: Map<u32, SentimentReading>,
    start: int,
    scores: Seq<Score>,
    ranked: Seq<Pattern>,
)
    requires
        patterns_found(plans, events, m, start),
        ranked_from(ranked, plans, scores),
    ensures
        forall|i: int, j: int| 0 <= i < j < ranked.len() ==> ranked[i].quality >= ranked[j].quality,
        forall|i: int, j: int|
            0 <= i < j < ranked.len() && ranked[i].quality == ranked[j].quality ==> plans[score_order(
                scores,
            )[i] as int].id < plans[score_order(scores)[j] as int].id,
        forall|k: int|
            0 <= k < ranked.len() ==> {
                let n = score_order(scores)[k] as int;
                &&& 0 <= n < plans.len()
                &&& (#[trigger] ranked[k]).id@ == "pat-"@ + spec_decimal((start + n) as nat)
                &&& ranked[k].pattern_type != PatternType::CrossShip
            },
{
    let o = score_order(scores);
    law_ids_consecutive(plans, events, m, start);
    assert forall|i: int, j: int|
        0 <= i < j < ranked.len() && ranked[i].quality == ranked[j].quality implies plans[o[i] as int].id
        < plans[o[j] as int].id by {
        assert(o[i] < o[j]);
        assert(plans[o[i] as int].id == start + o[i]);
        assert(plans[o[j] as int].id == start + o[j]);
    }
    assert forall|k: int| 0 <= k < ranked.len() implies {
        let n = o[k] as int;
        &&& 0 <= n < plans.len()
        &&& (#[trigger] ranked[k]).id@ == "pat-"@ + spec_decimal((start + n) as nat)
        &&& ranked[k].pattern_type != PatternType::CrossShip
    } by {
        let n = o[k] as int;
        assert(scored_as(
            ranked[k],
            plans[n],
            scores[n].quality,
            scores[n].severity@,
            scores[n].resolved,
        ));
        assert(plans[n].id == start + n);
    }
}

/// After an extraction, with nothing fed since, a second extraction stays
/// within 32-bit ticks and ids exactly when the ids it would hand out fit:
/// the number the first handed out once more on top of the new next id.
pub proof fn law_second_extraction_fits(before: PatternExtractor, after: PatternExtractor)
    requires
        before.extraction_fits(),
        after.spec_events() == before.spec_events(),
        after.spec_sentiments() == before.spec_sentiments(),
        after.spec_next_id() == before.spec_next_id() + pattern_count(
            before.spec_events(),
            before.spec_sentiments(),
        ),
    ensures
        after.extraction_fits() <==> after.spec_next_id() + pattern_count(
            after.spec_events(),
            after.spec_sentiments(),
        ) <= u32::MAX,
{
}

// ── Tick order, and the converses of the section laws ────

/// A problem that was fed lies among the problems extraction works on.
proof fn lemma_fed_problem_found(events: Seq<SimEvent>, i: int)
    requires
        0 <= i < events.len(),
        events.len() <= usize::MAX,
        is_problem(events[i]),
    ensures
        problem_events(events).contains(events[i]),
{
    let ticks = event_ticks(events);
    let order = stable_order(ticks);
    let sorted = by_tick(events);
    lemma_order_prefix(ticks, ticks.len());
    assert(appears_in(order, i));
    let j = choose|j: int| 0 <= j < order.len() && order[j] == i;
    assert(sorted[j] == events[i]);
    assert(problem_events(events).contains(sorted[j]));
}

/// Keeping some of the events of a sequence whose ticks never decrease
/// gives a sequence whose ticks never decrease.
proof fn lemma_filter_keeps_tick_order(s: Seq<SimEvent>, keep: spec_fn(SimEvent) -> bool)
    requires
        forall|i: int, j: int| 0 <= i < j < s.len() ==> s[i].tick <= s[j].tick,
    ensures
        forall|i: int, j: int|
            0 <= i < j < s.filter(keep).len() ==> s.filter(keep)[i].tick <= s.filter(keep)[j].tick,
    decreases s.len(),
{
    if s.len() > 0 {
        let d = s.drop_last();
        let f = d.filter(keep);
        lemma_filter_keeps_tick_order(d, keep);
        assert(d.push(s.last()) == s);
        d.lemma_filter_push(s.last(), keep);
        if keep(s.last()) {
            assert(s.filter(keep) == f.push(s.last()));
            assert forall|i: int| 0 <= i < f.len() implies f[i].tick <= s.last().tick by {
                assert(f.contains(f[i]));
                assert(d.contains(f[i]));
                let q = choose|q: int| 0 <= q < d.len() && d[q] == f[i];
                assert(s[q] == f[i]);
            }
        } else {
            assert(s.filter(keep) == f);
        }
    }
}

/// The problems extraction works on come in tick order: a problem's tick
/// is never later than that of any problem after it.
pub proof fn law_problems_in_tick_order(events: Seq<SimEvent>)
    requires
        events.len() <= usize::MAX,
    ensures
        forall|i: int, j: int|
            0 <= i < j < problem_events(events).len() ==> problem_events(events)[i].tick
                <= problem_events(events)[j].tick,
{
    let ticks = event_ticks(events);
    let order = stable_order(ticks);
    let sorted = by_tick(events);
    lemma_order_prefix(ticks, ticks.len());
    assert forall|i: int, j: int| 0 <= i < j < sorted.len() implies sorted[i].tick
        <= sorted[j].tick by {
        assert(ticks[order[i] as int] <= ticks[order[j] as int]);
        assert(sorted[i] == events[order[i] as int]);
        assert(sorted[j] == events[order[j] as int]);
    }
    lemma_filter_keeps_tick_order(sorted, |e: SimEvent| is_problem(e));
}

/// Position `i` of `p`, whose problem is followed by the next within the
/// escalation gap, is among the escalation starts below any later bound.
proof fn lemma_escalation_start_listed(p: Seq<SimEvent>, upto: int, i: int)
    requires
        0 <= i < upto < p.len(),
        tick_gap(p[i], p[i + 1]) <= ESCALATION_GAP,
    ensures
        exists|k: int|
            0 <= k < escalation_starts(p, upto).len() && escalation_starts(p, upto)[k] == i,
    decreases upto,
{
    let prev = escalation_starts(p, upto - 1);
    if i == upto - 1 {
        assert(escalation_starts(p, upto) == prev.push(i));
        assert(escalation_starts(p, upto)[prev.len() as int] == i);
    } else {
        lemma_escalation_start_listed(p, upto - 1, i);
        let k = choose|k: int| 0 <= k < prev.len() && prev[k] == i;
        assert(escalation_starts(p, upto)[k] == i);
    }
}

/// The escalation that consecutive problems `p[i]` and `p[i + 1]`, at most
/// the escalation gap apart in tick order, give.
proof fn lemma_close_pair_escalates(
    plans: Seq<PatternPlan>,
    events: Seq<SimEvent>,
    m: Map<u32, SentimentReading>,
    start: int,
    i: int,
)
    requires
        patterns_found(plans, events, m, start),
        events.len() <= usize::MAX,
        0 <= i && i + 1 < problem_events(events).len(),
        problem_events(events)[i + 1].tick - problem_events(events)[i].tick <= ESCALATION_GAP,
    ensures
        exists|k: int|
            0 <= k < plans.len() && plans[k].pattern_type == PatternType::Escalation
                && plans[k].event == problem_events(events)[i] && plans[k].follow_up == Some(
                problem_events(events)[i + 1],
            ) && plans[k].delay == problem_events(events)[i + 1].tick - problem_events(
                events,
            )[i].tick,
{
    let p = problem_events(events);
    let esc = escalations_in(p);
    let r0 = p.len() as int;
    law_problems_in_tick_order(events);
    assert(p[i].tick <= p[i + 1].tick);
    assert(tick_gap(p[i], p[i + 1]) <= ESCALATION_GAP);
    lemma_escalation_start_listed(p, p.len() - 1, i);
    let q = choose|q: int| 0 <= q < esc.len() && esc[q] == i;
    lemma_escalation_starts(p, p.len() - 1);
    lemma_pattern_at(plans, events, m, start, r0 + q);
    assert(is_escalation(plans[r0 + q], p[i], p[i + 1], start + r0 + q, m));
}

/// Every two consecutive problems, in tick order, at most the escalation
/// gap apart give an escalation from the first to the second, whatever
/// their kinds, with the difference of their ticks as its delay; and every
/// escalation's follow-up comes no earlier than its problem, its delay
/// being the difference of their ticks.
pub proof fn law_close_problems_escalate(
    plans: Seq<PatternPlan>,
    events: Seq<SimEvent>,
    m: Map<u32, SentimentReading>,
    start: int,
)
    requires
        patterns_found(plans, events, m, start),
        events.len() <= usize::MAX,
    ensures
        forall|i: int|
            0 <= i && i + 1 < problem_events(events).len() && problem_events(events)[i + 1].tick
                - (#[trigger] problem_events(events)[i]).tick <= ESCALATION_GAP ==> exists|k: int|
                0 <= k < plans.len() && plans[k].pattern_type == PatternType::Escalation
                    && plans[k].event == problem_events(events)[i] && plans[k].follow_up == Some(
                    problem_events(events)[i + 1],
                ) && plans[k].delay == problem_events(events)[i + 1].tick - problem_events(
                    events,
                )[i].tick,
        forall|k: int|
            0 <= k < plans.len() && (#[trigger] plans[k]).pattern_type == PatternType::Escalation
                ==> (plans[k].follow_up matches Some(next) && plans[k].event.tick <= next.tick
                && plans[k].delay == next.tick - plans[k].event.tick),
{
    let p = problem_events(events);
    assert forall|i: int|
        0 <= i && i + 1 < p.len() && p[i + 1].tick - (#[trigger] p[i]).tick
            <= ESCALATION_GAP implies exists|k: int|
        0 <= k < plans.len() && plans[k].pattern_type == PatternType::Escalation && plans[k].event
            == p[i] && plans[k].follow_up == Some(p[i + 1]) && plans[k].delay == p[i + 1].tick
            - p[i].tick by {
        lemma_close_pair_escalates(plans, events, m, start, i);
    }
    assert forall|k: int|
        0 <= k < plans.len() && (#[trigger] plans[k]).pattern_type
            == PatternType::Escalation implies (plans[k].follow_up matches Some(next)
        && plans[k].event.tick <= next.tick && plans[k].delay == next.tick - plans[k].event.tick) by {
        lemma_escalation_follow_up_later(plans, events, m, start, k);
    }
}

/// An escalation's follow-up comes no earlier than its problem, and its
/// delay is the difference of their ticks.
proof fn lemma_escalation_follow_up_later(
    plans: Seq<PatternPlan>,
    events: Seq<SimEvent>,
    m: Map<u32, SentimentReading>,
    start: int,
    k: int,
)
    requires
        patterns_found(plans, events, m, start),
        events.len() <= usize::MAX,
        0 <= k < plans.len(),
        plans[k].pattern_type == PatternType::Escalation,
    ensures
        plans[k].follow_up matches Some(next) && plans[k].event.tick <= next.tick
            && plans[k].delay == next.tick - plans[k].event.tick,
{
    let p = problem_events(events);
    let esc = escalations_in(p);
    let r0 = p.len() as int;
    let r1 = r0 + esc.len();
    law_problems_in_tick_order(events);
    if p.len() > 0 {
        lemma_escalation_starts(p, p.len() - 1);
    }
    lemma_pattern_at(plans, events, m, start, k);
    if r0 <= k < r1 {
        let i = esc[k - r0];
        assert(0 <= i && i + 1 < p.len());
        assert(p[i].tick <= p[i + 1].tick);
    }
}

/// The mood is healthy, by a recorded snapshot, `o` ticks after the
/// problem ended.
pub open spec fn healthy_after(m: Map<u32, SentimentReading>, e: SimEvent, o: int) -> bool {
    recorded_healthy(m, (e.tick + e.duration + o) as u32)
}

/// Scanning from `from`, the first healthy offset found is `o` when `o` is
/// the first offset from `from` on at which a healthy snapshot was recorded.
proof fn lemma_first_healthy_is(m: Map<u32, SentimentReading>, e: SimEvent, from: int, o: int)
    requires
        1 <= from <= o <= RECOVERY_WINDOW,
        healthy_after(m, e, o),
        forall|o2: int| from <= o2 < o ==> !healthy_after(m, e, o2),
    ensures
        first_healthy_offset(m, e.tick + e.duration, from) == Some(o as u32),
    decreases o - from,
{
    if from < o {
        assert(!healthy_after(m, e, from));
        lemma_first_healthy_is(m, e, from + 1, o);
    }
}

/// Every problem fed that struck in an unhealthy mood, and after whose end
/// a healthy snapshot was recorded within the recovery window, gets a
/// recovery pattern, whatever its duration; its delay is the first offset
/// at which a healthy snapshot was recorded.
pub proof fn law_unhealthy_problem_recovers(
    plans: Seq<PatternPlan>,
    events: Seq<SimEvent>,
    m: Map<u32, SentimentReading>,
    start: int,
)
    requires
        patterns_found(plans, events, m, start),
        events.len() <= usize::MAX,
    ensures
        forall|i: int, o: int|
            0 <= i < events.len() && is_problem(events[i]) && !reading_at(m, events[i].tick).healthy
                && 1 <= o <= RECOVERY_WINDOW && #[trigger] healthy_after(m, events[i], o) && (forall|
                o2: int,
            |
                1 <= o2 < o ==> !healthy_after(m, events[i], o2)) ==> exists|k: int|
                0 <= k < plans.len() && plans[k].pattern_type == PatternType::Recovery
                    && plans[k].event == events[i] && plans[k].delay == o,
{
    let p = problem_events(events);
    let rec = recovering_in(m, p);
    let r1 = p.len() + escalations_in(p).len();
    assert forall|i: int, o: int|
        0 <= i < events.len() && is_problem(events[i]) && !reading_at(m, events[i].tick).healthy
            && 1 <= o <= RECOVERY_WINDOW && #[trigger] healthy_after(m, events[i], o) && (forall|
            o2: int,
        |
            1 <= o2 < o ==> !healthy_after(m, events[i], o2)) implies exists|k: int|
        0 <= k < plans.len() && plans[k].pattern_type == PatternType::Recovery && plans[k].event
            == events[i] && plans[k].delay == o by {
        let e = events[i];
        lemma_first_healthy_is(m, e, 1, o);
        assert(recovery_offset(m, e) == Some(o as u32));
        lemma_fed_problem_found(events, i);
        let q = choose|q: int| 0 <= q < p.len() && p[q] == e;
        assert(recovers(m, p[q]));
        assert(rec.contains(e));
        let r = choose|r: int| 0 <= r < rec.len() && rec[r] == e;
        lemma_pattern_at(plans, events, m, start, r1 + r);
    }
}

/// Every problem fed that lasts at most the auto-resolve duration gets an
/// auto-resolve pattern, whatever its kind.
pub proof fn law_short_problems_auto_resolve(
    plans: Seq<PatternPlan>,
    events: Seq<SimEvent>,
    m: Map<u32, SentimentReading>,
    start: int,
)
    requires
        patterns_found(plans, events, m, start),
        events.len() <= usize::MAX,
    ensures
        forall|i: int|
            0 <= i < events.len() && is_problem(#[trigger] events[i]) && events[i].duration
                <= AUTO_RESOLVE_DURATION ==> exists|k: int|
                0 <= k < plans.len() && plans[k].pattern_type == PatternType::AutoResolve
                    && plans[k].event == events[i],
{
    let p = problem_events(events);
    let short = short_lived_in(p);
    let r2 = p.len() + escalations_in(p).len() + recovering_in(m, p).len();
    assert forall|i: int|
        0 <= i < events.len() && is_problem(#[trigger] events[i]) && events[i].duration
            <= AUTO_RESOLVE_DURATION implies exists|k: int|
        0 <= k < plans.len() && plans[k].pattern_type == PatternType::AutoResolve && plans[k].event
            == events[i] by {
        let e = events[i];
        lemma_fed_problem_found(events, i);
        let q = choose|q: int| 0 <= q < p.len() && p[q] == e;
        assert(short.contains(e));
        let r = choose|r: int| 0 <= r < short.len() && short[r] == e;
        lemma_pattern_at(plans, events, m, start, r2 + r);
    }
}

} // verus!
