//! Pattern extraction from accumulated events and sentiment snapshots.
//!
//! Events are taken in tick order (equal ticks in the order they were fed).
//! Of those, the problems (negative events) give, in this order and with
//! consecutive ids:
//! - a response for each problem;
//! - an escalation for each problem followed by the next one within
//!   [`ESCALATION_GAP`] ticks;
//! - a recovery for each problem that struck in an unhealthy mood and was
//!   followed, within [`RECOVERY_WINDOW`] ticks of its end, by a recorded
//!   healthy snapshot (ticks without a snapshot are no recovery);
//! - an auto-resolve for each problem lasting at most
//!   [`AUTO_RESOLVE_DURATION`] ticks.

use std::collections::HashMap;

use vstd::prelude::*;

use crate::event::SimEvent;
use crate::order::{lemma_order_prefix, stable_order, stable_order_by_key};
use crate::pattern::{PatternPlan, PatternType};
use crate::sentiment::{Sentiment, SentimentReading};

verus! {

broadcast use {
    vstd::std_specs::hash::group_hash_axioms,
    vstd::seq_lib::group_filter_ensures,
    Seq::lemma_filter_push,
    Seq::lemma_filter_contains_rev,
};

/// Longest gap, in ticks, between two problems that makes an escalation.
pub const ESCALATION_GAP: u32 = 10;

/// Longest wait, in ticks after a problem's end, for the mood to turn healthy.
pub const RECOVERY_WINDOW: u32 = 30;

/// Longest problem, in ticks, that settles itself.
pub const AUTO_RESOLVE_DURATION: u32 = 5;

/// Response length, in ticks, above which the expensive model is needed.
pub const BIG_MODEL_DURATION: u32 = 20;

/// Recovery delay, in ticks, below which the recovery counts as automatic.
pub const QUICK_RECOVERY: u32 = 15;

// ── Specification ────────────────────────────────────────

/// The reading at `tick`: the recorded one, else the neutral one.
pub open spec fn reading_at(m: Map<u32, SentimentReading>, tick: u32) -> SentimentReading {
    if m.contains_key(tick) {
        m[tick]
    } else {
        SentimentReading::spec_neutral()
    }
}

/// The ticks of `events`, in their order.
pub open spec fn event_ticks(events: Seq<SimEvent>) -> Seq<u32> {
    events.map_values(|e: SimEvent| e.tick)
}

/// `events` in tick order; events with equal ticks keep their order.
pub open spec fn by_tick(events: Seq<SimEvent>) -> Seq<SimEvent> {
    stable_order(event_ticks(events)).map_values(|i: usize| events[i as int])
}

/// Whether the event is a problem for the fleet.
pub open spec fn is_problem(e: SimEvent) -> bool {
    e.event_type.spec_is_negative()
}

/// The problems among `s`, in their order.
pub open spec fn problems_in(s: Seq<SimEvent>) -> Seq<SimEvent> {
    s.filter(|e: SimEvent| is_problem(e))
}

/// The problems among `events`, in tick order.
pub open spec fn problem_events(events: Seq<SimEvent>) -> Seq<SimEvent> {
    problems_in(by_tick(events))
}

/// Ticks from `first` to `second`, or 0 if `second` comes first.
pub open spec fn tick_gap(first: SimEvent, second: SimEvent) -> u32 {
    if second.tick >= first.tick {
        (second.tick - first.tick) as u32
    } else {
        0
    }
}

/// Positions `i < upto` of `p` whose problem is followed by `p[i + 1]`
/// within [`ESCALATION_GAP`] ticks, in order.
pub open spec fn escalation_starts(p: Seq<SimEvent>, upto: int) -> Seq<int>
    decreases upto,
{
    if upto <= 0 {
        Seq::empty()
    } else {
        let prev = escalation_starts(p, upto - 1);
        if tick_gap(p[upto - 1], p[upto]) <= ESCALATION_GAP {
            prev.push(upto - 1)
        } else {
            prev
        }
    }
}

/// Positions of `p` that start an escalation.
pub open spec fn escalations_in(p: Seq<SimEvent>) -> Seq<int> {
    escalation_starts(p, p.len() - 1)
}

/// A snapshot was recorded at `tick` and it is healthy.
pub open spec fn recorded_healthy(m: Map<u32, SentimentReading>, tick: u32) -> bool {
    m.contains_key(tick) && m[tick].healthy
}

/// The first offset from `offset` to [`RECOVERY_WINDOW`] at which a healthy
/// snapshot was recorded, `offset` ticks after `end`. Ticks without a
/// snapshot do not count as a recovery.
pub open spec fn first_healthy_offset(m: Map<u32, SentimentReading>, end: int, offset: int) -> Option<
    u32,
>
    decreases RECOVERY_WINDOW + 1 - offset,
{
    if offset > RECOVERY_WINDOW {
        None
    } else if recorded_healthy(m, (end + offset) as u32) {
        Some(offset as u32)
    } else {
        first_healthy_offset(m, end, offset + 1)
    }
}

/// Ticks after the problem's end until a healthy snapshot was recorded, if
/// the mood was unhealthy when the problem struck and a healthy snapshot
/// follows within [`RECOVERY_WINDOW`] ticks of its end.
pub open spec fn recovery_offset(m: Map<u32, SentimentReading>, e: SimEvent) -> Option<u32> {
    if reading_at(m, e.tick).healthy {
        None
    } else {
        first_healthy_offset(m, e.tick + e.duration, 1)
    }
}

/// Whether the fleet recovered from the problem.
pub open spec fn recovers(m: Map<u32, SentimentReading>, e: SimEvent) -> bool {
    recovery_offset(m, e) is Some
}

/// The problems among `s` that the fleet recovered from, in order.
pub open spec fn recovering_in(m: Map<u32, SentimentReading>, s: Seq<SimEvent>) -> Seq<SimEvent> {
    s.filter(|e: SimEvent| recovers(m, e))
}

/// The events among `s` lasting at most [`AUTO_RESOLVE_DURATION`] ticks.
pub open spec fn short_lived_in(s: Seq<SimEvent>) -> Seq<SimEvent> {
    s.filter(|e: SimEvent| e.duration <= AUTO_RESOLVE_DURATION)
}

/// The last tick whose mood is read for the problem: the recovery search
/// runs up to the recovery, or over the whole window.
pub open spec fn last_tick_read(m: Map<u32, SentimentReading>, e: SimEvent) -> int {
    e.tick + e.duration + match recovery_offset(m, e) {
        Some(o) => o as int,
        None => RECOVERY_WINDOW as int,
    }
}

/// How many patterns the events and readings give.
pub open spec fn pattern_count(events: Seq<SimEvent>, m: Map<u32, SentimentReading>) -> nat {
    let p = problem_events(events);
    p.len() + escalations_in(p).len() + recovering_in(m, p).len() + short_lived_in(p).len()
}

/// The ships a pattern about `e` involves: its target, or the whole fleet.
pub open spec fn ships_of(e: SimEvent, ships: Seq<String>) -> bool {
    &&& ships.len() == 1
    &&& if e.target@.len() == 0 {
        ships[0]@ == "all"@
    } else {
        ships[0]@ == e.target@
    }
}

/// The whole fleet is involved.
pub open spec fn whole_fleet(ships: Seq<String>) -> bool {
    ships.len() == 1 && ships[0]@ == "all"@
}

/// `plan` is the response pattern `id` to problem `e`.
pub open spec fn is_response(
    plan: PatternPlan,
    e: SimEvent,
    id: int,
    m: Map<u32, SentimentReading>,
) -> bool {
    &&& plan.id == id
    &&& plan.pattern_type == PatternType::Response
    &&& plan.event == e
    &&& plan.follow_up is None
    &&& plan.sentiment_before == reading_at(m, e.tick).sentiment
    &&& plan.sentiment_after == reading_at(m, (e.tick + e.duration) as u32).sentiment
    &&& plan.duration_ticks == e.duration
    &&& plan.delay == 0
    &&& plan.auto_resolved == (e.duration <= AUTO_RESOLVE_DURATION)
    &&& plan.big_model_needed == (e.duration > BIG_MODEL_DURATION)
    &&& ships_of(e, plan.ships_involved@)
}

/// `plan` is the escalation pattern `id` from problem `first` to `second`.
pub open spec fn is_escalation(
    plan: PatternPlan,
    first: SimEvent,
    second: SimEvent,
    id: int,
    m: Map<u32, SentimentReading>,
) -> bool {
    &&& plan.id == id
    &&& plan.pattern_type == PatternType::Escalation
    &&& plan.event == first
    &&& plan.follow_up == Some(second)
    &&& plan.sentiment_before == reading_at(m, first.tick).sentiment
    &&& plan.sentiment_after == reading_at(m, second.tick).sentiment
    &&& plan.duration_ticks == tick_gap(first, second)
    &&& plan.delay == tick_gap(first, second)
    &&& !plan.auto_resolved
    &&& plan.big_model_needed
    &&& whole_fleet(plan.ships_involved@)
}

/// `plan` is the recovery pattern `id` after problem `e`.
pub open spec fn is_recovery(
    plan: PatternPlan,
    e: SimEvent,
    id: int,
    m: Map<u32, SentimentReading>,
) -> bool {
    let o = recovery_offset(m, e)->0;
    &&& plan.id == id
    &&& plan.pattern_type == PatternType::Recovery
    &&& plan.event == e
    &&& plan.follow_up is None
    &&& plan.sentiment_before == reading_at(m, e.tick).sentiment
    &&& plan.sentiment_after == reading_at(m, (e.tick + e.duration + o) as u32).sentiment
    &&& plan.duration_ticks == e.duration + o
    &&& plan.delay == o
    &&& plan.auto_resolved == (o < QUICK_RECOVERY)
    &&& plan.big_model_needed == (o > BIG_MODEL_DURATION)
    &&& whole_fleet(plan.ships_involved@)
}

/// `plan` is the auto-resolve pattern `id` for problem `e`.
pub open spec fn is_auto_resolve(
    plan: PatternPlan,
    e: SimEvent,
    id: int,
    m: Map<u32, SentimentReading>,
) -> bool {
    &&& plan.id == id
    &&& plan.pattern_type == PatternType::AutoResolve
    &&& plan.event == e
    &&& plan.follow_up is None
    &&& plan.sentiment_before == reading_at(m, e.tick).sentiment
    &&& plan.sentiment_after == reading_at(m, (e.tick + e.duration) as u32).sentiment
    &&& plan.duration_ticks == e.duration
    &&& plan.delay == 0
    &&& plan.auto_resolved
    &&& !plan.big_model_needed
    &&& whole_fleet(plan.ships_involved@)
}

/// `plans` are exactly the patterns found in `events` with readings `m`,
/// numbered from `start`: responses, escalations, recoveries, then
/// auto-resolves.
pub open spec fn patterns_found(
    plans: Seq<PatternPlan>,
    events: Seq<SimEvent>,
    m: Map<u32, SentimentReading>,
    start: int,
) -> bool {
    let p = problem_events(events);
    let esc = escalations_in(p);
    let rec = recovering_in(m, p);
    let short = short_lived_in(p);
    let r0 = p.len() as int;
    let r1 = r0 + esc.len();
    let r2 = r1 + rec.len();
    &&& plans.len() == pattern_count(events, m)
    &&& forall|k: int| #![trigger plans[k]] 0 <= k < r0 ==> is_response(plans[k], p[k], start + k, m)
    &&& forall|k: int|
        #![trigger esc[k]]
        0 <= k < esc.len() ==> is_escalation(
            plans[r0 + k],
            p[esc[k]],
            p[esc[k] + 1],
            start + r0 + k,
            m,
        )
    &&& forall|k: int|
        #![trigger rec[k]]
        0 <= k < rec.len() ==> is_recovery(plans[r1 + k], rec[k], start + r1 + k, m)
    &&& forall|k: int|
        #![trigger short[k]]
        0 <= k < short.len() ==> is_auto_resolve(plans[r2 + k], short[k], start + r2 + k, m)
}

// ── Lemmas ───────────────────────────────────────────────

/// Escalation starts are fewer than the positions they range over, lie in
/// range, and each starts a pair of problems within the gap.
pub proof fn lemma_escalation_starts(p: Seq<SimEvent>, upto: int)
    requires
        upto < p.len(),
    ensures
        escalation_starts(p, upto).len() <= if upto < 0 { 0 } else { upto },
        forall|k: int|
            0 <= k < escalation_starts(p, upto).len() ==> 0 <= #[trigger] escalation_starts(
                p,
                upto,
            )[k] < upto,
        forall|k: int|
            0 <= k < escalation_starts(p, upto).len() ==> tick_gap(
                p[#[trigger] escalation_starts(p, upto)[k]],
                p[escalation_starts(p, upto)[k] + 1],
            ) <= ESCALATION_GAP,
    decreases upto,
{
    if upto > 0 {
        lemma_escalation_starts(p, upto - 1);
    }
}

/// A healthy offset found from `offset` lies between it and the window's
/// end, and the mood is healthy there.
pub proof fn lemma_first_healthy_offset(m: Map<u32, SentimentReading>, end: int, offset: int)
    requires
        offset >= 1,
    ensures
        first_healthy_offset(m, end, offset) matches Some(o) ==> offset <= o <= RECOVERY_WINDOW
            && recorded_healthy(m, (end + o) as u32),
    decreases RECOVERY_WINDOW + 1 - offset,
{
    if offset <= RECOVERY_WINDOW {
        lemma_first_healthy_offset(m, end, offset + 1);
    }
}

// ── Extractor ────────────────────────────────────────────

/// Accumulates simulation events and sentiment readings, and finds
/// patterns in them.
pub struct PatternExtractor {
    events: Vec<SimEvent>,
    /// Reading at each tick where a snapshot was recorded.
    sentiments: HashMap<u32, SentimentReading>,
    next_pattern_id: u32,
}

impl PatternExtractor {
    /// The events fed so far, in the order they were fed.
    pub closed spec fn spec_events(&self) -> Seq<SimEvent> {
        self.events@
    }

    /// The reading recorded at each tick.
    pub closed spec fn spec_sentiments(&self) -> Map<u32, SentimentReading> {
        self.sentiments@
    }

    /// The number the next pattern will get.
    pub closed spec fn spec_next_id(&self) -> u32 {
        self.next_pattern_id
    }

    /// Extraction stays within the range of tick and id numbers: every tick
    /// it reads, and every pattern id it hands out, fits in 32 bits.
    pub open spec fn extraction_fits(&self) -> bool {
        let p = problem_events(self.spec_events());
        let m = self.spec_sentiments();
        &&& forall|k: int| 0 <= k < p.len() ==> last_tick_read(m, #[trigger] p[k]) <= u32::MAX
        &&& self.spec_next_id() + pattern_count(self.spec_events(), m) <= u32::MAX
    }

    /// An extractor with no events and no readings; pattern ids start at 1.
    pub fn new() -> (x: Self)
        ensures
            x.spec_events() == Seq::<SimEvent>::empty(),
            x.spec_sentiments() == Map::<u32, SentimentReading>::empty(),
            x.spec_next_id() == 1,
    {
        PatternExtractor { events: Vec::new(), sentiments: HashMap::new(), next_pattern_id: 1 }
    }

    /// Feed events; they follow the events fed before.
    pub fn feed_events(&mut self, events: &[SimEvent])
        ensures
            final(self).spec_events() == old(self).spec_events() + events@,
            final(self).spec_sentiments() == old(self).spec_sentiments(),
            final(self).spec_next_id() == old(self).spec_next_id(),
    {
        self.events.extend_from_slice(events);
        assert(self.events@ =~= old(self).events@ + events@);
    }

    /// Record the reading at `tick`: the snapshot and whether it is healthy.
    /// It replaces any reading recorded there before.
    pub fn set_sentiment(&mut self, tick: u32, sentiment: Sentiment, healthy: bool)
        ensures
            final(self).spec_events() == old(self).spec_events(),
            final(self).spec_sentiments() == old(self).spec_sentiments().insert(
                tick,
                SentimentReading { sentiment, healthy },
            ),
            final(self).spec_next_id() == old(self).spec_next_id(),
    {
        self.sentiments.insert(tick, SentimentReading { sentiment, healthy });
    }

    /// Feed events and readings: the events follow those fed before, and a
    /// reading replaces any recorded at the same tick.
    pub fn feed(&mut self, events: &[SimEvent], sentiments: &HashMap<u32, SentimentReading>)
        ensures
            final(self).spec_events() == old(self).spec_events() + events@,
            final(self).spec_sentiments() == old(self).spec_sentiments().union_prefer_right(
                sentiments@,
            ),
            final(self).spec_next_id() == old(self).spec_next_id(),
    {
        self.feed_events(events);
        let ghost before = self.sentiments@;
        let ghost given = sentiments@;
        let ghost mut seen: Set<u32> = Set::empty();
        for entry in it: sentiments.iter()
            invariant
                given == sentiments@,
                before == old(self).sentiments@,
                self.events@ == old(self).events@ + events@,
                self.next_pattern_id == old(self).next_pattern_id,
                forall|k: u32|
                    #[trigger] seen.contains(k) <==> exists|j: int|
                        0 <= j < it.index() && *it.seq()[j].0 == k,
                forall|k: u32|
                    #[trigger] self.sentiments@.contains_key(k) <==> (before.contains_key(k)
                        || seen.contains(k)),
                forall|k: u32|
                    seen.contains(k) ==> given.contains_key(k) && #[trigger] self.sentiments@[k]
                        == given[k],
                forall|k: u32|
                    !seen.contains(k) && before.contains_key(k) ==> #[trigger] self.sentiments@[k]
                        == before[k],
                forall|k: u32|
                    given.contains_key(k) ==> exists|j: int|
                        0 <= j < it.seq().len() && *it.seq()[j].0 == k,
        {
            let (tick, reading) = entry;
            proof {
                assert(given.contains_key(*tick) && given[*tick] == *reading);
                seen = seen.insert(*tick);
            }
            self.sentiments.insert(*tick, *reading);
        }
        proof {
            assert(self.sentiments@ =~= before.union_prefer_right(given));
        }
    }

    fn next_id(&mut self) -> (id: u32)
        requires
            old(self).next_pattern_id < u32::MAX,
        ensures
            id == old(self).next_pattern_id,
            final(self).next_pattern_id == old(self).next_pattern_id + 1,
            final(self).events@ == old(self).events@,
            final(self).sentiments@ == old(self).sentiments@,
    {
        let id = self.next_pattern_id;
        self.next_pattern_id = self.next_pattern_id + 1;
        id
    }

    fn reading_at(&self, tick: u32) -> (r: SentimentReading)
        ensures
            r == reading_at(self.sentiments@, tick),
    {
        match self.sentiments.get(&tick) {
            Some(r) => *r,
            None => SentimentReading::neutral(),
        }
    }

    fn recorded_healthy(&self, tick: u32) -> (b: bool)
        ensures
            b == recorded_healthy(self.sentiments@, tick),
    {
        match self.sentiments.get(&tick) {
            Some(r) => r.healthy,
            None => false,
        }
    }

    fn events_by_tick(&self) -> (sorted: Vec<SimEvent>)
        ensures
            sorted@ == by_tick(self.events@),
    {
        let n = self.events.len();
        let mut ticks: Vec<u32> = Vec::new();
        let mut i: usize = 0;
        while i < n
            invariant
                i <= n,
                n == self.events.len(),
                ticks.len() == i,
                forall|j: int| 0 <= j < i ==> #[trigger] ticks@[j] == self.events@[j].tick,
            decreases n - i,
        {
            ticks.push(self.events[i].tick);
            i += 1;
        }
        assert(ticks@ =~= event_ticks(self.events@));
        let order = stable_order_by_key(&ticks);
        proof {
            lemma_order_prefix(ticks@, ticks@.len());
        }
        let mut sorted: Vec<SimEvent> = Vec::new();
        let mut k: usize = 0;
        while k < order.len()
            invariant
                k <= order.len(),
                order.len() == n,
                n == self.events.len(),
                order@ == stable_order(event_ticks(self.events@)),
                forall|j: int| 0 <= j < n ==> #[trigger] order@[j] < n,
                sorted.len() == k,
                forall|j: int| 0 <= j < k ==> #[trigger] sorted@[j] == self.events@[order@[j] as int],
            decreases order.len() - k,
        {
            sorted.push(self.events[order[k]].clone());
            k += 1;
        }
        assert(sorted@ =~= by_tick(self.events@));
        sorted
    }

    fn problems_of(events: &Vec<SimEvent>) -> (p: Vec<SimEvent>)
        ensures
            p@ == problems_in(events@),
    {
        let mut p: Vec<SimEvent> = Vec::new();
        let mut i: usize = 0;
        while i < events.len()
            invariant
                i <= events.len(),
                p@ == problems_in(events@.take(i as int)),
            decreases events.len() - i,
        {
            if events[i].event_type.is_negative() {
                p.push(events[i].clone());
            }
            assert(events@.take(i + 1) =~= events@.take(i as int).push(events@[i as int]));
            i += 1;
        }
        assert(events@.take(events.len() as int) =~= events@);
        p
    }

    fn whole_fleet() -> (ships: Vec<String>)
        ensures
            whole_fleet(ships@),
    {
        vec![String::from_str("all")]
    }

    fn ships_of(e: &SimEvent) -> (ships: Vec<String>)
        ensures
            ships_of(*e, ships@),
    {
        if e.target.as_str().is_empty() {
            Self::whole_fleet()
        } else {
            vec![e.target.clone()]
        }
    }

    fn extract_responses(&mut self, problems: &Vec<SimEvent>) -> (plans: Vec<PatternPlan>)
        requires
            old(self).next_pattern_id + problems.len() <= u32::MAX,
            forall|k: int|
                0 <= k < problems.len() ==> (#[trigger] problems@[k]).tick + problems@[k].duration
                    <= u32::MAX,
        ensures
            plans.len() == problems.len(),
            forall|k: int|
                #![trigger plans@[k]]
                0 <= k < problems.len() ==> is_response(
                    plans@[k],
                    problems@[k],
                    old(self).next_pattern_id + k,
                    old(self).sentiments@,
                ),
            final(self).next_pattern_id == old(self).next_pattern_id + problems.len(),
            final(self).events@ == old(self).events@,
            final(self).sentiments@ == old(self).sentiments@,
    {
        let ghost start = self.next_pattern_id as int;
        let mut plans: Vec<PatternPlan> = Vec::new();
        let mut k: usize = 0;
        while k < problems.len()
            invariant
                k <= problems.len(),
                plans.len() == k,
                self.next_pattern_id == start + k,
                start == old(self).next_pattern_id,
                start + problems.len() <= u32::MAX,
                self.events@ == old(self).events@,
                self.sentiments@ == old(self).sentiments@,
                forall|j: int|
                    0 <= j < problems.len() ==> (#[trigger] problems@[j]).tick + problems@[j].duration
                        <= u32::MAX,
                forall|j: int|
                    #![trigger plans@[j]]
                    0 <= j < k ==> is_response(
                        plans@[j],
                        problems@[j],
                        start + j,
                        old(self).sentiments@,
                    ),
            decreases problems.len() - k,
        {
            let e = &problems[k];
            let before = self.reading_at(e.tick);
            let after = self.reading_at(e.tick + e.duration);
            let id = self.next_id();
            plans.push(
                PatternPlan {
                    id,
                    pattern_type: PatternType::Response,
                    event: e.clone(),
                    follow_up: None,
                    sentiment_before: before.sentiment,
                    sentiment_after: after.sentiment,
                    duration_ticks: e.duration,
                    delay: 0,
                    auto_resolved: e.duration <= AUTO_RESOLVE_DURATION,
                    big_model_needed: e.duration > BIG_MODEL_DURATION,
                    ships_involved: Self::ships_of(e),
                },
            );
            k += 1;
        }
        plans
    }

    fn extract_escalations(&mut self, problems: &Vec<SimEvent>) -> (plans: Vec<PatternPlan>)
        requires
            old(self).next_pattern_id + escalations_in(problems@).len() <= u32::MAX,
        ensures
            plans.len() == escalations_in(problems@).len(),
            forall|k: int|
                #![trigger plans@[k]]
                0 <= k < plans.len() ==> is_escalation(
                    plans@[k],
                    problems@[escalations_in(problems@)[k]],
                    problems@[escalations_in(problems@)[k] + 1],
                    old(self).next_pattern_id + k,
                    old(self).sentiments@,
                ),
            final(self).next_pattern_id == old(self).next_pattern_id + plans.len(),
            final(self).events@ == old(self).events@,
            final(self).sentiments@ == old(self).sentiments@,
    {
        let ghost start = self.next_pattern_id as int;
        let ghost p = problems@;
        let mut plans: Vec<PatternPlan> = Vec::new();
        let n = problems.len();
        let mut i: usize = 0;
        proof {
            if n > 0 {
                lemma_escalation_starts(p, n - 1);
            }
        }
        while i + 1 < n
            invariant
                n == problems.len(),
                p == problems@,
                i < n || n == 0,
                i == 0 || i + 1 <= n,
                plans.len() == escalation_starts(p, i as int).len(),
                self.next_pattern_id == start + plans.len(),
                start == old(self).next_pattern_id,
                start + escalations_in(p).len() <= u32::MAX,
                escalation_starts(p, i as int).len() <= escalations_in(p).len(),
                self.events@ == old(self).events@,
                self.sentiments@ == old(self).sentiments@,
                forall|j: int|
                    #![trigger plans@[j]]
                    0 <= j < plans.len() ==> is_escalation(
                        plans@[j],
                        p[escalation_starts(p, i as int)[j]],
                        p[escalation_starts(p, i as int)[j] + 1],
                        start + j,
                        old(self).sentiments@,
                    ),
            decreases n - i,
        {
            proof {
                lemma_escalation_prefix(p, i as int + 1, n - 1);
            }
            let first = &problems[i];
            let second = &problems[i + 1];
            let gap = second.tick.saturating_sub(first.tick);
            if gap <= ESCALATION_GAP {
                let before = self.reading_at(first.tick);
                let after = self.reading_at(second.tick);
                let id = self.next_id();
                plans.push(
                    PatternPlan {
                        id,
                        pattern_type: PatternType::Escalation,
                        event: first.clone(),
                        follow_up: Some(second.clone()),
                        sentiment_before: before.sentiment,
                        sentiment_after: after.sentiment,
                        duration_ticks: gap,
                        delay: gap,
                        auto_resolved: false,
                        big_model_needed: true,
                        ships_involved: Self::whole_fleet(),
                    },
                );
            }
            i += 1;
        }
        proof {
            if n >= 1 {
                assert(i as int == n - 1);
            }
        }
        plans
    }

    fn find_recovery(&self, e: &SimEvent) -> (found: Option<(u32, SentimentReading)>)
        requires
            last_tick_read(self.sentiments@, *e) <= u32::MAX,
        ensures
            match found {
                Some((o, r)) => recovery_offset(self.sentiments@, *e) == Some(o) && r
                    == reading_at(self.sentiments@, (e.tick + e.duration + o) as u32),
                None => recovery_offset(self.sentiments@, *e) is None,
            },
    {
        let ghost m = self.sentiments@;
        let before = self.reading_at(e.tick);
        let mut offset: u32 = 1;
        while offset <= RECOVERY_WINDOW
            invariant
                1 <= offset <= RECOVERY_WINDOW + 1,
                m == self.sentiments@,
                before == reading_at(m, e.tick),
                last_tick_read(m, *e) <= u32::MAX,
                recovery_offset(m, *e) == if before.healthy {
                    None
                } else {
                    first_healthy_offset(m, e.tick + e.duration, offset as int)
                },
            decreases RECOVERY_WINDOW + 1 - offset,
        {
            proof {
                lemma_first_healthy_offset(m, e.tick + e.duration, offset as int);
            }
            let check_tick = e.tick + e.duration + offset;
            if self.recorded_healthy(check_tick) && !before.healthy {
                return Some((offset, self.reading_at(check_tick)));
            }
            offset += 1;
        }
        None
    }

    fn extract_recoveries(&mut self, problems: &Vec<SimEvent>) -> (plans: Vec<PatternPlan>)
        requires
            old(self).next_pattern_id + recovering_in(old(self).sentiments@, problems@).len()
                <= u32::MAX,
            forall|k: int|
                0 <= k < problems.len() ==> last_tick_read(
                    old(self).sentiments@,
                    #[trigger] problems@[k],
                ) <= u32::MAX,
        ensures
            plans.len() == recovering_in(old(self).sentiments@, problems@).len(),
            forall|k: int|
                #![trigger plans@[k]]
                0 <= k < plans.len() ==> is_recovery(
                    plans@[k],
                    recovering_in(old(self).sentiments@, problems@)[k],
                    old(self).next_pattern_id + k,
                    old(self).sentiments@,
                ),
            final(self).next_pattern_id == old(self).next_pattern_id + plans.len(),
            final(self).events@ == old(self).events@,
            final(self).sentiments@ == old(self).sentiments@,
    {
        let ghost start = self.next_pattern_id as int;
        let ghost m = self.sentiments@;
        let ghost p = problems@;
        let mut plans: Vec<PatternPlan> = Vec::new();
        let mut k: usize = 0;
        while k < problems.len()
            invariant
                k <= problems.len(),
                p == problems@,
                m == old(self).sentiments@,
                plans.len() == recovering_in(m, p.take(k as int)).len(),
                recovering_in(m, p.take(k as int)).len() <= recovering_in(m, p).len(),
                self.next_pattern_id == start + plans.len(),
                start == old(self).next_pattern_id,
                start + recovering_in(m, p).len() <= u32::MAX,
                self.events@ == old(self).events@,
                self.sentiments@ == m,
                forall|j: int|
                    0 <= j < p.len() ==> last_tick_read(m, #[trigger] p[j]) <= u32::MAX,
                forall|j: int|
                    #![trigger plans@[j]]
                    0 <= j < plans.len() ==> is_recovery(
                        plans@[j],
                        recovering_in(m, p.take(k as int))[j],
                        start + j,
                        m,
                    ),
            decreases problems.len() - k,
        {
            proof {
                assert(p.take(k + 1) =~= p.take(k as int).push(p[k as int]));
                lemma_filter_prefix(p, |e: SimEvent| recovers(m, e), k as int + 1);
            }
            let e = &problems[k];
            match self.find_recovery(e) {
                Some((offset, reading)) => {
                    let before = self.reading_at(e.tick);
                    let id = self.next_id();
                    plans.push(
                        PatternPlan {
                            id,
                            pattern_type: PatternType::Recovery,
                            event: e.clone(),
                            follow_up: None,
                            sentiment_before: before.sentiment,
                            sentiment_after: reading.sentiment,
                            duration_ticks: e.duration + offset,
                            delay: offset,
                            auto_resolved: offset < QUICK_RECOVERY,
                            big_model_needed: offset > BIG_MODEL_DURATION,
                            ships_involved: Self::whole_fleet(),
                        },
                    );
                },
                None => {},
            }
            k += 1;
        }
        assert(p.take(problems.len() as int) =~= p);
        plans
    }

    fn extract_auto_resolves(&mut self, problems: &Vec<SimEvent>) -> (plans: Vec<PatternPlan>)
        requires
            old(self).next_pattern_id + short_lived_in(problems@).len() <= u32::MAX,
            forall|k: int|
                0 <= k < problems.len() ==> (#[trigger] problems@[k]).tick + problems@[k].duration
                    <= u32::MAX,
        ensures
            plans.len() == short_lived_in(problems@).len(),
            forall|k: int|
                #![trigger plans@[k]]
                0 <= k < plans.len() ==> is_auto_resolve(
                    plans@[k],
                    short_lived_in(problems@)[k],
                    old(self).next_pattern_id + k,
                    old(self).sentiments@,
                ),
            final(self).next_pattern_id == old(self).next_pattern_id + plans.len(),
            final(self).events@ == old(self).events@,
            final(self).sentiments@ == old(self).sentiments@,
    {
        let ghost start = self.next_pattern_id as int;
        let ghost p = problems@;
        let mut plans: Vec<PatternPlan> = Vec::new();
        let mut k: usize = 0;
        while k < problems.len()
            invariant
                k <= problems.len(),
                p == problems@,
                plans.len() == short_lived_in(p.take(k as int)).len(),
                short_lived_in(p.take(k as int)).len() <= short_lived_in(p).len(),
                self.next_pattern_id == start + plans.len(),
                start == old(self).next_pattern_id,
                start + short_lived_in(p).len() <= u32::MAX,
                self.events@ == old(self).events@,
                self.sentiments@ == old(self).sentiments@,
                forall|j: int|
                    0 <= j < p.len() ==> (#[trigger] p[j]).tick + p[j].duration <= u32::MAX,
                forall|j: int|
                    #![trigger plans@[j]]
                    0 <= j < plans.len() ==> is_auto_resolve(
                        plans@[j],
                        short_lived_in(p.take(k as int))[j],
                        start + j,
                        old(self).sentiments@,
                    ),
            decreases problems.len() - k,
        {
            proof {
                assert(p.take(k + 1) =~= p.take(k as int).push(p[k as int]));
                lemma_filter_prefix(p, |e: SimEvent| e.duration <= AUTO_RESOLVE_DURATION, k as int + 1);
            }
            let e = &problems[k];
            if e.duration <= AUTO_RESOLVE_DURATION {
                let before = self.reading_at(e.tick);
                let after = self.reading_at(e.tick + e.duration);
                let id = self.next_id();
                plans.push(
                    PatternPlan {
                        id,
                        pattern_type: PatternType::AutoResolve,
                        event: e.clone(),
                        follow_up: None,
                        sentiment_before: before.sentiment,
                        sentiment_after: after.sentiment,
                        duration_ticks: e.duration,
                        delay: 0,
                        auto_resolved: true,
                        big_model_needed: false,
                        ships_involved: Self::whole_fleet(),
                    },
                );
            }
            k += 1;
        }
        assert(p.take(problems.len() as int) =~= p);
        plans
    }

    /// Whether the last tick read for problem `e` fits in 32 bits.
    fn tick_reads_fit(&self, e: &SimEvent) -> (ok: bool)
        ensures
            ok == (last_tick_read(self.sentiments@, *e) <= u32::MAX),
    {
        let ghost m = self.sentiments@;
        let end: u64 = e.tick as u64 + e.duration as u64;
        let before = self.reading_at(e.tick);
        if before.healthy {
            return end + RECOVERY_WINDOW as u64 <= u32::MAX as u64;
        }
        if end > u32::MAX as u64 {
            return false;
        }
        let mut offset: u32 = 1;
        while offset <= RECOVERY_WINDOW
            invariant
                1 <= offset <= RECOVERY_WINDOW + 1,
                m == self.sentiments@,
                end == e.tick + e.duration,
                !reading_at(m, e.tick).healthy,
                end + offset - 1 <= u32::MAX,
                recovery_offset(m, *e) == first_healthy_offset(m, end as int, offset as int),
            decreases RECOVERY_WINDOW + 1 - offset,
        {
            proof {
                lemma_first_healthy_offset(m, end as int, offset as int);
            }
            if end + offset as u64 > u32::MAX as u64 {
                return false;
            }
            if self.recorded_healthy((end + offset as u64) as u32) {
                return true;
            }
            offset += 1;
        }
        end + RECOVERY_WINDOW as u64 <= u32::MAX as u64
    }

    /// Whether [`Self::extract`] stays within 32-bit ticks and ids on the
    /// events and readings fed so far.
    pub fn can_extract(&self) -> (ok: bool)
        ensures
            ok == self.extraction_fits(),
    {
        let ghost m = self.sentiments@;
        let sorted = self.events_by_tick();
        let problems = Self::problems_of(&sorted);
        let ghost p = problems@;
        let n = problems.len();
        proof {
            assert(p == problem_events(self.events@));
            lemma_escalation_bound(p);
        }
        if n as u64 > u32::MAX as u64 {
            return false;
        }
        let mut escalations: u64 = 0;
        let mut recoveries: u64 = 0;
        let mut short: u64 = 0;
        let mut k: usize = 0;
        while k < n
            invariant
                k <= n,
                n == problems.len(),
                p == problems@,
                m == self.sentiments@,
                forall|j: int| 0 <= j < k ==> last_tick_read(m, #[trigger] p[j]) <= u32::MAX,
                escalations == escalation_starts(p, k as int - 1).len(),
                recoveries == recovering_in(m, p.take(k as int)).len(),
                short == short_lived_in(p.take(k as int)).len(),
                escalations <= k,
                recoveries <= k,
                short <= k,
                n <= u32::MAX,
                p == problem_events(self.events@),
            decreases n - k,
        {
            proof {
                assert(p.take(k + 1) =~= p.take(k as int).push(p[k as int]));
                if k > 0 {
                    lemma_escalation_starts(p, k - 1);
                }
            }
            let e = &problems[k];
            if !self.tick_reads_fit(e) {
                proof {
                    assert(last_tick_read(m, p[k as int]) > u32::MAX);
                }
                return false;
            }
            if k > 0 && problems[k].tick.saturating_sub(problems[k - 1].tick) <= ESCALATION_GAP {
                escalations = escalations + 1;
            }
            if self.find_recovery(e).is_some() {
                recoveries = recoveries + 1;
            }
            if e.duration <= AUTO_RESOLVE_DURATION {
                short = short + 1;
            }
            k += 1;
        }
        proof {
            assert(p.take(n as int) =~= p);
            assert(p == problem_events(self.events@));
        }
        self.next_pattern_id as u64 + n as u64 + escalations + recoveries + short
            <= u32::MAX as u64
    }

    /// Find the patterns in the events fed so far (see the module
    /// documentation), numbered on from the last extraction. Events and
    /// readings stay as they are.
    pub fn extract(&mut self) -> (plans: Vec<PatternPlan>)
        requires
            old(self).extraction_fits(),
        ensures
            patterns_found(
                plans@,
                old(self).spec_events(),
                old(self).spec_sentiments(),
                old(self).spec_next_id() as int,
            ),
            final(self).spec_next_id() == old(self).spec_next_id() + plans.len(),
            final(self).spec_events() == old(self).spec_events(),
            final(self).spec_sentiments() == old(self).spec_sentiments(),
    {
        let ghost events = self.events@;
        let ghost m = self.sentiments@;
        let ghost start = self.next_pattern_id as int;
        let sorted = self.events_by_tick();
        let problems = Self::problems_of(&sorted);
        let ghost p = problems@;
        proof {
            assert(p == problem_events(events));
            lemma_escalation_bound(p);
            assert forall|k: int| 0 <= k < p.len() implies (#[trigger] p[k]).tick + p[k].duration
                <= u32::MAX by {
                assert(last_tick_read(m, p[k]) <= u32::MAX);
            }
        }
        let mut plans = self.extract_responses(&problems);
        let mut escalations = self.extract_escalations(&problems);
        plans.append(&mut escalations);
        let mut recoveries = self.extract_recoveries(&problems);
        plans.append(&mut recoveries);
        let mut auto_resolves = self.extract_auto_resolves(&problems);
        plans.append(&mut auto_resolves);
        plans
    }
}

impl Default for PatternExtractor {
    fn default() -> (x: Self)
        ensures
            x.spec_events() == Seq::<SimEvent>::empty(),
            x.spec_sentiments() == Map::<u32, SentimentReading>::empty(),
            x.spec_next_id() == 1,
    {
        Self::new()
    }
}

proof fn lemma_escalation_bound(p: Seq<SimEvent>)
    ensures
        escalations_in(p).len() <= p.len(),
{
    if p.len() > 0 {
        lemma_escalation_starts(p, p.len() - 1);
    }
}

/// Escalation starts grow with the range they cover.
proof fn lemma_escalation_prefix(p: Seq<SimEvent>, a: int, b: int)
    requires
        a <= b,
    ensures
        escalation_starts(p, a).len() <= escalation_starts(p, b).len(),
    decreases b - a,
{
    if a < b {
        lemma_escalation_prefix(p, a, b - 1);
    }
}

/// Filtering a prefix of `s` keeps no more than filtering all of `s`.
pub proof fn lemma_filter_prefix<A>(s: Seq<A>, pred: spec_fn(A) -> bool, k: int)
    requires
        0 <= k <= s.len(),
    ensures
        s.take(k).filter(pred).len() <= s.filter(pred).len(),
{
    broadcast use Seq::filter_distributes_over_add;

    assert(s.take(k) + s.skip(k) =~= s);
    assert((s.take(k) + s.skip(k)).filter(pred) == s.take(k).filter(pred) + s.skip(k).filter(pred));
}

} // verus!
