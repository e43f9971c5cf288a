//! Training tiles made from patterns, and their statistics.
//!
//! A tile's quality and weight are held as the bit patterns of IEEE-754
//! singles; the library carries them and never computes with them.

use vstd::prelude::*;

use crate::pattern::{Pattern, PatternType};
use crate::text::{decimal, spec_decimal};

verus! {

/// A unit of training data for a room.
#[derive(Debug)]
pub struct Tile {
    pub id: String,
    pub content: String,
    pub tile_type: String,
    /// Id of the pattern the tile was made from.
    pub source_pattern: String,
    /// Bit pattern of the quality (0.0 to 1.0).
    pub quality: u32,
    pub tags: Vec<String>,
    /// Bit pattern of the training weight.
    pub weight: u32,
}

impl Clone for Tile {
    fn clone(&self) -> (t: Self)
        ensures
            t.id == self.id,
            t.content == self.content,
            t.tile_type == self.tile_type,
            t.source_pattern == self.source_pattern,
            t.quality == self.quality,
            t.tags@ == self.tags@,
            t.weight == self.weight,
    {
        let tags = self.tags.clone();
        proof {
            assert(tags@ =~= self.tags@);
        }
        Tile {
            id: self.id.clone(),
            content: self.content.clone(),
            tile_type: self.tile_type.clone(),
            source_pattern: self.source_pattern.clone(),
            quality: self.quality,
            tags,
            weight: self.weight,
        }
    }
}

impl Tile {
    /// A tile without tags, weighted by its quality.
    pub fn new(id: &str, content: &str, tile_type: &str, source_pattern: &str, quality: u32) -> (t:
        Self)
        ensures
            t.id@ == id@,
            t.content@ == content@,
            t.tile_type@ == tile_type@,
            t.source_pattern@ == source_pattern@,
            t.quality == quality,
            t.tags@ == Seq::<String>::empty(),
            t.weight == quality,
    {
        Tile {
            id: String::from_str(id),
            content: String::from_str(content),
            tile_type: String::from_str(tile_type),
            source_pattern: String::from_str(source_pattern),
            quality,
            tags: Vec::new(),
            weight: quality,
        }
    }

    /// The same tile with `tags` in place of its tags.
    pub fn with_tags(self, tags: Vec<String>) -> (t: Self)
        ensures
            t.id == self.id,
            t.content == self.content,
            t.tile_type == self.tile_type,
            t.source_pattern == self.source_pattern,
            t.quality == self.quality,
            t.tags == tags,
            t.weight == self.weight,
    {
        let mut t = self;
        t.tags = tags;
        t
    }
}

/// Whether one of `tags` reads `tag`.
pub open spec fn has_tag(tags: Seq<String>, tag: Seq<char>) -> bool {
    exists|i: int| 0 <= i < tags.len() && tags[i]@ == tag
}

/// How many of `tiles` carry the tag `tag`.
pub open spec fn count_tagged(tiles: Seq<Tile>, tag: Seq<char>) -> nat
    decreases tiles.len(),
{
    if tiles.len() == 0 {
        0
    } else {
        count_tagged(tiles.drop_last(), tag) + if has_tag(tiles.last().tags@, tag) {
            1nat
        } else {
            0nat
        }
    }
}

/// How many of `tiles` have the tile type `tile_type`.
pub open spec fn count_of_type(tiles: Seq<Tile>, tile_type: Seq<char>) -> nat
    decreases tiles.len(),
{
    if tiles.len() == 0 {
        0
    } else {
        count_of_type(tiles.drop_last(), tile_type) + if tiles.last().tile_type@ == tile_type {
            1nat
        } else {
            0nat
        }
    }
}

/// The tile types that occur in `tiles`.
pub open spec fn has_type(tiles: Seq<Tile>, tile_type: Seq<char>) -> bool {
    exists|i: int| 0 <= i < tiles.len() && tiles[i].tile_type@ == tile_type
}

/// A quality score written out, for a tile's content and its tag.
#[derive(Debug)]
pub struct QualityText {
    /// With two decimals, as in the content.
    pub two_decimals: String,
    /// With one decimal, as in the `quality:` tag.
    pub one_decimal: String,
}

/// The tags of a tile made from a pattern: its kind, its quality, and its
/// flags where set.
pub open spec fn spec_tile_tags(
    pattern_type: PatternType,
    quality: Seq<char>,
    auto_resolved: bool,
    big_model_needed: bool,
) -> Seq<Seq<char>> {
    seq!["type:"@ + pattern_type.spec_tile_type(), "quality:"@ + quality] + (if auto_resolved {
        seq!["auto_resolved"@]
    } else {
        Seq::empty()
    }) + (if big_model_needed {
        seq!["big_model"@]
    } else {
        Seq::empty()
    })
}

/// The content of a tile made from a pattern.
pub open spec fn spec_tile_content(
    pattern_type: PatternType,
    trigger: Seq<char>,
    response: Seq<char>,
    outcome: Seq<char>,
    quality: Seq<char>,
    duration_ticks: u32,
) -> Seq<char> {
    "["@ + pattern_type.spec_tile_type() + "] "@ + trigger + " \u{2192} "@ + response + " \u{2192} "@
        + outcome + " (quality: "@ + quality + ", duration: "@ + spec_decimal(duration_ticks as nat)
        + " ticks)"@
}

/// `tile` is the `i`-th tile of a conversion, made from `p` with its
/// quality written as `q`.
pub open spec fn is_tile_of(tile: Tile, p: Pattern, q: QualityText, i: int) -> bool {
    &&& tile.id@ == "tile-"@ + spec_decimal(i as nat)
    &&& tile.content@ == spec_tile_content(
        p.pattern_type,
        p.trigger@,
        p.response@,
        p.outcome@,
        q.two_decimals@,
        p.duration_ticks,
    )
    &&& tile.tile_type@ == p.pattern_type.spec_tile_type()
    &&& tile.source_pattern@ == p.id@
    &&& tile.quality == p.quality
    &&& tile.weight == p.quality
    &&& tile.tags@.len() == spec_tile_tags(
        p.pattern_type,
        q.one_decimal@,
        p.auto_resolved,
        p.big_model_needed,
    ).len()
    &&& forall|j: int|
        0 <= j < tile.tags@.len() ==> #[trigger] tile.tags@[j]@ == spec_tile_tags(
            p.pattern_type,
            q.one_decimal@,
            p.auto_resolved,
            p.big_model_needed,
        )[j]
}

/// Counts over a set of tiles.
#[derive(Debug)]
pub struct TileStats {
    pub total: usize,
    /// Tiles tagged `auto_resolved`.
    pub auto_resolved: usize,
    /// Tiles tagged `big_model`.
    pub big_model: usize,
    /// Each tile type that occurs, once, with the number of its tiles, in
    /// the order the types first occur.
    pub by_type: Vec<(String, usize)>,
}

/// `by_type` lists each tile type of `tiles` once, with its number of tiles.
pub open spec fn counts_types(by_type: Seq<(String, usize)>, tiles: Seq<Tile>) -> bool {
    &&& forall|i: int, j: int| 0 <= i < j < by_type.len() ==> by_type[i].0@ != by_type[j].0@
    &&& forall|i: int|
        0 <= i < by_type.len() ==> #[trigger] by_type[i].1 == count_of_type(tiles, by_type[i].0@)
    &&& forall|i: int| 0 <= i < by_type.len() ==> has_type(tiles, #[trigger] by_type[i].0@)
    &&& forall|t: Seq<char>|
        has_type(tiles, t) ==> exists|i: int| 0 <= i < by_type.len() && #[trigger] by_type[i].0@ == t
}

/// `s` holds the counts over `tiles`.
pub open spec fn stats_of(s: TileStats, tiles: Seq<Tile>) -> bool {
    &&& s.total == tiles.len()
    &&& s.auto_resolved == count_tagged(tiles, "auto_resolved"@)
    &&& s.big_model == count_tagged(tiles, "big_model"@)
    &&& counts_types(s.by_type@, tiles)
}

/// `tiles` are the tiles made from `patterns`, their qualities written as
/// `qualities`.
pub open spec fn converted(tiles: Seq<Tile>, patterns: Seq<Pattern>, qualities: Seq<QualityText>) -> bool {
    &&& tiles.len() == patterns.len()
    &&& qualities.len() == patterns.len()
    &&& forall|i: int|
        0 <= i < tiles.len() ==> is_tile_of(#[trigger] tiles[i], patterns[i], qualities[i], i)
}

/// How many of `patterns` are marked auto-resolved.
pub open spec fn count_auto_resolved(patterns: Seq<Pattern>) -> nat
    decreases patterns.len(),
{
    if patterns.len() == 0 {
        0
    } else {
        count_auto_resolved(patterns.drop_last()) + if patterns.last().auto_resolved {
            1nat
        } else {
            0nat
        }
    }
}

/// How many of `patterns` need the expensive model.
pub open spec fn count_big_model(patterns: Seq<Pattern>) -> nat
    decreases patterns.len(),
{
    if patterns.len() == 0 {
        0
    } else {
        count_big_model(patterns.drop_last()) + if patterns.last().big_model_needed {
            1nat
        } else {
            0nat
        }
    }
}

/// How many of `patterns` are of a kind whose tile type is `tile_type`.
pub open spec fn count_of_kind(patterns: Seq<Pattern>, tile_type: Seq<char>) -> nat
    decreases patterns.len(),
{
    if patterns.len() == 0 {
        0
    } else {
        count_of_kind(patterns.drop_last(), tile_type) + if patterns.last().pattern_type.spec_tile_type()
            == tile_type {
            1nat
        } else {
            0nat
        }
    }
}

/// A tile made from a pattern carries `auto_resolved` exactly when the
/// pattern is auto-resolved, and `big_model` exactly when it needs the
/// expensive model.
proof fn lemma_flag_tags(tile: Tile, p: Pattern, q: QualityText, i: int)
    requires
        is_tile_of(tile, p, q, i),
    ensures
        has_tag(tile.tags@, "auto_resolved"@) == p.auto_resolved,
        has_tag(tile.tags@, "big_model"@) == p.big_model_needed,
{
    reveal_strlit("type:");
    reveal_strlit("quality:");
    reveal_strlit("auto_resolved");
    reveal_strlit("big_model");
    let tags = spec_tile_tags(p.pattern_type, q.one_decimal@, p.auto_resolved, p.big_model_needed);
    let auto = "auto_resolved"@;
    let big = "big_model"@;
    assert(auto[0] == 'a');
    assert(big[0] == 'b');
    assert(tags[0][0] == 't');
    assert(tags[1][0] == 'q');
    if has_tag(tile.tags@, auto) {
        let j = choose|j: int| 0 <= j < tile.tags@.len() && tile.tags@[j]@ == auto;
        assert(tags[j] == auto);
        if !p.auto_resolved {
            if p.big_model_needed && j == 2 {
                assert(tags[j] == big);
            }
        }
    }
    if p.auto_resolved {
        assert(tile.tags@[2]@ == auto);
    }
    if has_tag(tile.tags@, big) {
        let j = choose|j: int| 0 <= j < tile.tags@.len() && tile.tags@[j]@ == big;
        assert(tags[j] == big);
        if !p.big_model_needed {
            if p.auto_resolved && j == 2 {
                assert(tags[j] == auto);
            }
        }
    }
    if p.big_model_needed {
        assert(tile.tags@[tags.len() - 1]@ == big);
    }
}

proof fn lemma_converted_prefix(tiles: Seq<Tile>, patterns: Seq<Pattern>, qualities: Seq<QualityText>, k: int)
    requires
        converted(tiles, patterns, qualities),
        0 <= k <= tiles.len(),
    ensures
        count_tagged(tiles.take(k), "auto_resolved"@) == count_auto_resolved(patterns.take(k)),
        count_tagged(tiles.take(k), "big_model"@) == count_big_model(patterns.take(k)),
        forall|n: Seq<char>| #[trigger] count_of_type(tiles.take(k), n) == count_of_kind(patterns.take(k), n),
    decreases k,
{
    if k > 0 {
        lemma_converted_prefix(tiles, patterns, qualities, k - 1);
        assert(tiles.take(k).drop_last() =~= tiles.take(k - 1));
        assert(patterns.take(k).drop_last() =~= patterns.take(k - 1));
        assert(is_tile_of(tiles[k - 1], patterns[k - 1], qualities[k - 1], k - 1));
        lemma_flag_tags(tiles[k - 1], patterns[k - 1], qualities[k - 1], k - 1);
        assert(tiles.take(k).last() == tiles[k - 1]);
        assert(patterns.take(k).last() == patterns[k - 1]);
        assert forall|n: Seq<char>| #[trigger] count_of_type(tiles.take(k), n) == count_of_kind(
            patterns.take(k),
            n,
        ) by {
            assert(count_of_type(tiles.take(k - 1), n) == count_of_kind(patterns.take(k - 1), n));
        }
    } else {
        assert(tiles.take(0) =~= Seq::<Tile>::empty());
        assert(patterns.take(0) =~= Seq::<Pattern>::empty());
    }
}

/// The counts over the tiles converted from patterns are counts over the
/// patterns: one tile each, as many tagged `auto_resolved` as patterns
/// marked so, as many tagged `big_model` as patterns needing the expensive
/// model, and under each tile type as many as patterns of that kind.
pub proof fn law_stats_of_converted(
    s: TileStats,
    tiles: Seq<Tile>,
    patterns: Seq<Pattern>,
    qualities: Seq<QualityText>,
)
    requires
        converted(tiles, patterns, qualities),
        stats_of(s, tiles),
    ensures
        s.total == patterns.len(),
        s.auto_resolved == count_auto_resolved(patterns),
        s.big_model == count_big_model(patterns),
        forall|i: int|
            0 <= i < s.by_type@.len() ==> #[trigger] s.by_type@[i].1 == count_of_kind(
                patterns,
                s.by_type@[i].0@,
            ),
        forall|n: Seq<char>|
            #[trigger] count_of_kind(patterns, n) > 0 ==> exists|i: int|
                0 <= i < s.by_type@.len() && s.by_type@[i].0@ == n,
{
    lemma_converted_prefix(tiles, patterns, qualities, tiles.len() as int);
    assert(tiles.take(tiles.len() as int) =~= tiles);
    assert(patterns.take(patterns.len() as int) =~= patterns);
    assert forall|n: Seq<char>| #[trigger] count_of_kind(patterns, n) > 0 implies exists|i: int|
        0 <= i < s.by_type@.len() && s.by_type@[i].0@ == n by {
        assert(count_of_type(tiles, n) > 0);
        if !has_type(tiles, n) {
            lemma_count_absent(tiles, n);
        }
        let i = choose|i: int| 0 <= i < s.by_type@.len() && #[trigger] s.by_type@[i].0@ == n;
    }
}

impl TileStats {
    /// The number of tiles of type `tile_type`, if any tile has it.
    pub fn type_count(&self, tile_type: &str) -> (c: Option<usize>)
        ensures
            match c {
                Some(n) => exists|i: int|
                    0 <= i < self.by_type@.len() && self.by_type@[i].0@ == tile_type@
                        && self.by_type@[i].1 == n,
                None => forall|i: int|
                    0 <= i < self.by_type@.len() ==> self.by_type@[i].0@ != tile_type@,
            },
    {
        let wanted = String::from_str(tile_type);
        let mut i: usize = 0;
        while i < self.by_type.len()
            invariant
                i <= self.by_type.len(),
                wanted@ == tile_type@,
                forall|j: int| 0 <= j < i ==> self.by_type@[j].0@ != tile_type@,
            decreases self.by_type.len() - i,
        {
            if self.by_type[i].0 == wanted {
                return Some(self.by_type[i].1);
            }
            i += 1;
        }
        None
    }
}

proof fn lemma_count_bounds(tiles: Seq<Tile>, tag: Seq<char>, tile_type: Seq<char>)
    ensures
        count_tagged(tiles, tag) <= tiles.len(),
        count_of_type(tiles, tile_type) <= tiles.len(),
    decreases tiles.len(),
{
    if tiles.len() > 0 {
        lemma_count_bounds(tiles.drop_last(), tag, tile_type);
    }
}

/// Turns patterns into tiles and summarises tiles.
pub struct TileConverter;

impl TileConverter {
    /// Whether `tags` holds a tag reading `tag`.
    fn carries(tags: &Vec<String>, tag: &String) -> (b: bool)
        ensures
            b == has_tag(tags@, tag@),
    {
        let mut i: usize = 0;
        while i < tags.len()
            invariant
                i <= tags.len(),
                forall|j: int| 0 <= j < i ==> tags@[j]@ != tag@,
            decreases tags.len() - i,
        {
            if tags[i] == *tag {
                return true;
            }
            i += 1;
        }
        false
    }

    /// The tags of a tile made from a pattern of kind `pattern_type`:
    /// `type:` and the kind's tile type, `quality:` and `quality` (the
    /// quality written with one decimal), then `auto_resolved` and
    /// `big_model` where the pattern has those flags.
    pub fn tile_tags(pattern_type: PatternType, quality: &str, auto_resolved: bool, big_model_needed: bool) -> (tags: Vec<String>)
        ensures
            tags@.len() == spec_tile_tags(pattern_type, quality@, auto_resolved, big_model_needed).len(),
            forall|i: int| 0 <= i < tags@.len() ==> #[trigger] tags@[i]@ == spec_tile_tags(
                pattern_type,
                quality@,
                auto_resolved,
                big_model_needed,
            )[i],
    {
        let mut tags: Vec<String> = Vec::new();
        tags.push(String::from_str("type:").concat(pattern_type.tile_type()));
        tags.push(String::from_str("quality:").concat(quality));
        if auto_resolved {
            tags.push(String::from_str("auto_resolved"));
        }
        if big_model_needed {
            tags.push(String::from_str("big_model"));
        }
        tags
    }

    /// The tiles made from `patterns`, one for each, in order. Tile `i` has
    /// id `tile-i`, the pattern's kind as its type, the pattern's id as its
    /// source, the pattern's quality as quality and weight, the content of
    /// [`spec_tile_content`] and the tags of [`spec_tile_tags`];
    /// `qualities[i]` is pattern `i`'s quality written out.
    pub fn convert(patterns: &[Pattern], qualities: &[QualityText]) -> (tiles: Vec<Tile>)
        requires
            qualities@.len() == patterns@.len(),
        ensures
            converted(tiles@, patterns@, qualities@),
    {
        let mut tiles: Vec<Tile> = Vec::new();
        let mut i: usize = 0;
        while i < patterns.len()
            invariant
                i <= patterns.len(),
                qualities@.len() == patterns@.len(),
                tiles.len() == i,
                forall|j: int|
                    0 <= j < i ==> is_tile_of(#[trigger] tiles@[j], patterns@[j], qualities@[j], j),
            decreases patterns.len() - i,
        {
            let p = &patterns[i];
            let q = &qualities[i];
            let kind_name = p.pattern_type.tile_type();
            let content = Self::tile_content(
                p.pattern_type,
                p.trigger.as_str(),
                p.response.as_str(),
                p.outcome.as_str(),
                q.two_decimals.as_str(),
                p.duration_ticks,
            );
            let tags = Self::tile_tags(
                p.pattern_type,
                q.one_decimal.as_str(),
                p.auto_resolved,
                p.big_model_needed,
            );
            let id = String::from_str("tile-").concat(decimal(i as u64).as_str());
            let tile = Tile::new(id.as_str(), content.as_str(), kind_name, p.id.as_str(), p.quality).with_tags(tags);
            tiles.push(tile);
            i += 1;
        }
        tiles
    }

    /// A tile's content: `[type] trigger → response → outcome (quality: q,
    /// duration: d ticks)`, `quality` written with two decimals.
    pub fn tile_content(
        pattern_type: PatternType,
        trigger: &str,
        response: &str,
        outcome: &str,
        quality: &str,
        duration_ticks: u32,
    ) -> (s: String)
        ensures
            s@ == spec_tile_content(pattern_type, trigger@, response@, outcome@, quality@, duration_ticks),
    {
        String::from_str("[").concat(pattern_type.tile_type()).concat("] ").concat(trigger).concat(
            " \u{2192} ",
        ).concat(response).concat(" \u{2192} ").concat(outcome).concat(" (quality: ").concat(
            quality,
        ).concat(", duration: ").concat(decimal(duration_ticks as u64).as_str()).concat(" ticks)")
    }

    /// Counts over `tiles`: how many there are, how many are tagged
    /// `auto_resolved` and `big_model`, and how many have each tile type.
    pub fn stats(tiles: &[Tile]) -> (s: TileStats)
        ensures
            stats_of(s, tiles@),
    {
        let auto_tag = String::from_str("auto_resolved");
        let big_tag = String::from_str("big_model");
        let mut auto_resolved: usize = 0;
        let mut big_model: usize = 0;
        let mut by_type: Vec<(String, usize)> = Vec::new();
        let mut i: usize = 0;
        while i < tiles.len()
            invariant
                i <= tiles.len(),
                auto_tag@ == "auto_resolved"@,
                big_tag@ == "big_model"@,
                auto_resolved == count_tagged(tiles@.take(i as int), "auto_resolved"@),
                big_model == count_tagged(tiles@.take(i as int), "big_model"@),
                counts_types(by_type@, tiles@.take(i as int)),
            decreases tiles.len() - i,
        {
            let ghost before = tiles@.take(i as int);
            let ghost after = tiles@.take(i + 1);
            proof {
                assert(after.drop_last() =~= before);
                lemma_count_bounds(before, "auto_resolved"@, Seq::empty());
                lemma_count_bounds(before, "big_model"@, Seq::empty());
            }
            let tile = &tiles[i];
            if Self::carries(&tile.tags, &auto_tag) {
                auto_resolved = auto_resolved + 1;
            }
            if Self::carries(&tile.tags, &big_tag) {
                big_model = big_model + 1;
            }
            Self::count_type(&mut by_type, &tile.tile_type, Ghost(before), Ghost(after));
            i += 1;
        }
        proof {
            assert(tiles@.take(tiles@.len() as int) =~= tiles@);
        }
        TileStats { total: tiles.len(), auto_resolved, big_model, by_type }
    }

    /// Count one more tile, the last of `after`, of type `tile_type`.
    fn count_type(
        by_type: &mut Vec<(String, usize)>,
        tile_type: &String,
        Ghost(before): Ghost<Seq<Tile>>,
        Ghost(after): Ghost<Seq<Tile>>,
    )
        requires
            after.len() == before.len() + 1,
            after.drop_last() == before,
            after.last().tile_type == *tile_type,
            after.len() <= usize::MAX,
            counts_types(old(by_type)@, before),
        ensures
            counts_types(final(by_type)@, after),
    {
        let ghost prev = by_type@;
        let mut k: usize = 0;
        while k < by_type.len()
            invariant
                k <= by_type.len(),
                by_type@ == prev,
                forall|j: int| 0 <= j < k ==> by_type@[j].0@ != tile_type@,
                counts_types(prev, before),
                after.len() == before.len() + 1,
                after.drop_last() == before,
                after.last().tile_type == *tile_type,
                after.len() <= usize::MAX,
            decreases by_type.len() - k,
        {
            if by_type[k].0 == *tile_type {
                let count = by_type[k].1;
                proof {
                    lemma_count_bounds(before, Seq::empty(), tile_type@);
                }
                let name = by_type[k].0.clone();
                by_type.set(k, (name, count + 1));
                proof {
                    lemma_count_one_more(prev, by_type@, before, after, tile_type@, k as int);
                }
                return ;
            }
            k += 1;
        }
        by_type.push((tile_type.clone(), 1));
        proof {
            assert(!has_type(before, tile_type@));
            lemma_count_absent(before, tile_type@);
            lemma_count_one_more(prev, by_type@, before, after, tile_type@, k as int);
        }
    }
}

/// Counting one more tile, of type `t`: `next` is `prev` with `t`'s entry,
/// at `k`, raised to the new count, or with that entry appended at `k`.
proof fn lemma_count_one_more(
    prev: Seq<(String, usize)>,
    next: Seq<(String, usize)>,
    before: Seq<Tile>,
    after: Seq<Tile>,
    t: Seq<char>,
    k: int,
)
    requires
        counts_types(prev, before),
        after.len() == before.len() + 1,
        after.drop_last() == before,
        after.last().tile_type@ == t,
        0 <= k < next.len(),
        next[k].0@ == t,
        next[k].1 == count_of_type(after, t),
        (k < prev.len() && next.len() == prev.len() && prev[k].0@ == t) || (k == prev.len() && next.len() == prev.len()
            + 1 && forall|i: int| 0 <= i < prev.len() ==> prev[i].0@ != t),
        forall|i: int| 0 <= i < prev.len() && i != k ==> next[i] == prev[i],
    ensures
        counts_types(next, after),
{
    assert forall|u: Seq<char>| #[trigger] has_type(before, u) implies has_type(after, u) by {
        let j = choose|j: int| 0 <= j < before.len() && before[j].tile_type@ == u;
        assert(after[j] == before[j]);
    }
    assert(after[after.len() - 1].tile_type@ == t);
    assert forall|i: int| 0 <= i < next.len() implies #[trigger] next[i].1 == count_of_type(
        after,
        next[i].0@,
    ) by {
        if i != k {
            assert(next[i] == prev[i]);
            if k < prev.len() {
                assert(prev[i].0@ != prev[k].0@);
            }
            assert(prev[i].0@ != t);
        }
    }
    assert forall|i: int| 0 <= i < next.len() implies has_type(after, #[trigger] next[i].0@) by {
        if i != k {
            assert(next[i] == prev[i]);
            assert(has_type(before, prev[i].0@));
        }
    }
    assert forall|u: Seq<char>| has_type(after, u) implies exists|i: int|
        0 <= i < next.len() && #[trigger] next[i].0@ == u by {
        if has_type(before, u) {
            let i = choose|i: int| 0 <= i < prev.len() && #[trigger] prev[i].0@ == u;
            if i != k {
                assert(next[i] == prev[i]);
            }
            assert(next[i].0@ == u);
        } else {
            let j = choose|j: int| 0 <= j < after.len() && after[j].tile_type@ == u;
            if j < before.len() {
                assert(after[j] == before[j]);
            }
            assert(next[k].0@ == u);
        }
    }
    assert forall|i: int, j: int| 0 <= i < j < next.len() implies next[i].0@ != next[j].0@ by {
        if i != k && j != k {
            assert(next[i] == prev[i]);
            assert(next[j] == prev[j]);
        } else if i == k {
            assert(next[j] == prev[j]);
        } else {
            assert(next[i] == prev[i]);
        }
    }
}

proof fn lemma_count_absent(tiles: Seq<Tile>, tile_type: Seq<char>)
    requires
        !has_type(tiles, tile_type),
    ensures
        count_of_type(tiles, tile_type) == 0,
    decreases tiles.len(),
{
    if tiles.len() > 0 {
        assert(!has_type(tiles.drop_last(), tile_type)) by {
            if has_type(tiles.drop_last(), tile_type) {
                let j = choose|j: int|
                    0 <= j < tiles.drop_last().len() && tiles.drop_last()[j].tile_type@ == tile_type;
                assert(tiles[j] == tiles.drop_last()[j]);
            }
        }
        assert(tiles[tiles.len() - 1] == tiles.last());
        lemma_count_absent(tiles.drop_last(), tile_type);
    }
}

/// The sum of the counts in `by_type`.
pub open spec fn total_counted(by_type: Seq<(String, usize)>) -> nat
    decreases by_type.len(),
{
    if by_type.len() == 0 {
        0
    } else {
        total_counted(by_type.drop_last()) + by_type.last().1 as nat
    }
}

/// `tiles` without those of type `tile_type`.
pub open spec fn without_type(tiles: Seq<Tile>, tile_type: Seq<char>) -> Seq<Tile>
    decreases tiles.len(),
{
    if tiles.len() == 0 {
        tiles
    } else {
        let prev = without_type(tiles.drop_last(), tile_type);
        if tiles.last().tile_type@ == tile_type {
            prev
        } else {
            prev.push(tiles.last())
        }
    }
}

proof fn lemma_without_type(tiles: Seq<Tile>, t: Seq<char>)
    ensures
        without_type(tiles, t).len() + count_of_type(tiles, t) == tiles.len(),
        forall|u: Seq<char>|
            u != t ==> #[trigger] count_of_type(without_type(tiles, t), u) == count_of_type(
                tiles,
                u,
            ),
        forall|u: Seq<char>|
            #[trigger] has_type(without_type(tiles, t), u) <==> (has_type(tiles, u) && u != t),
    decreases tiles.len(),
{
    if tiles.len() > 0 {
        let init = tiles.drop_last();
        lemma_without_type(init, t);
        let w = without_type(tiles, t);
        let wi = without_type(init, t);
        if tiles.last().tile_type@ != t {
            assert(w.drop_last() =~= wi);
            assert(w.last() == tiles.last());
        }
        assert forall|u: Seq<char>| u != t implies #[trigger] count_of_type(w, u) == count_of_type(
            tiles,
            u,
        ) by {
            assert(count_of_type(wi, u) == count_of_type(init, u));
        }
        assert forall|u: Seq<char>|
            has_type(w, u) <==> (has_type(tiles, u) && u != t) by {
            if has_type(w, u) {
                let j = choose|j: int| 0 <= j < w.len() && w[j].tile_type@ == u;
                if j < wi.len() {
                    assert(w[j] == wi[j]);
                    assert(has_type(wi, u));
                    assert(has_type(init, u) && u != t);
                    let i = choose|i: int| 0 <= i < init.len() && init[i].tile_type@ == u;
                    assert(tiles[i] == init[i]);
                    assert(has_type(tiles, u));
                } else {
                    assert(w[j] == tiles.last());
                    assert(tiles[tiles.len() - 1] == tiles.last());
                }
            }
            if has_type(tiles, u) && u != t {
                let i = choose|i: int| 0 <= i < tiles.len() && tiles[i].tile_type@ == u;
                if i < init.len() {
                    assert(init[i] == tiles[i]);
                    assert(has_type(init, u));
                    assert(has_type(wi, u));
                    let j = choose|j: int| 0 <= j < wi.len() && wi[j].tile_type@ == u;
                    if tiles.last().tile_type@ != t {
                        assert(w[j] == wi[j]);
                    } else {
                        assert(w == wi);
                    }
                } else {
                    assert(tiles[i] == tiles.last());
                    assert(w[w.len() - 1] == tiles.last());
                }
            }
        }
    }
}

/// Tiles none of which has a type are no tiles at all.
proof fn lemma_no_types(tiles: Seq<Tile>)
    requires
        forall|u: Seq<char>| !has_type(tiles, u),
    ensures
        tiles.len() == 0,
{
    if tiles.len() > 0 {
        assert(has_type(tiles, tiles[0].tile_type@));
    }
}

/// The per-type counts of [`TileConverter::stats`] add up to the number of
/// tiles: every tile is counted under exactly one type.
pub proof fn law_type_counts_cover_all_tiles(by_type: Seq<(String, usize)>, tiles: Seq<Tile>)
    requires
        counts_types(by_type, tiles),
    ensures
        total_counted(by_type) == tiles.len(),
    decreases by_type.len(),
{
    if by_type.len() == 0 {
        assert forall|u: Seq<char>| !has_type(tiles, u) by {
            if has_type(tiles, u) {
                let i = choose|i: int| 0 <= i < by_type.len() && #[trigger] by_type[i].0@ == u;
            }
        }
        lemma_no_types(tiles);
    } else {
        let n = by_type.len() - 1;
        let t = by_type[n].0@;
        let rest = by_type.drop_last();
        let others = without_type(tiles, t);
        lemma_without_type(tiles, t);
        assert forall|i: int| 0 <= i < rest.len() implies #[trigger] rest[i].1 == count_of_type(
            others,
            rest[i].0@,
        ) by {
            assert(rest[i] == by_type[i]);
            assert(by_type[i].0@ != by_type[n].0@);
            assert(by_type[i].1 == count_of_type(tiles, by_type[i].0@));
        }
        assert forall|i: int| 0 <= i < rest.len() implies has_type(others, #[trigger] rest[i].0@) by {
            assert(rest[i] == by_type[i]);
            assert(by_type[i].0@ != by_type[n].0@);
            assert(has_type(tiles, by_type[i].0@));
        }
        assert forall|u: Seq<char>| has_type(others, u) implies exists|i: int|
            0 <= i < rest.len() && #[trigger] rest[i].0@ == u by {
            assert(has_type(tiles, u) && u != t);
            let i = choose|i: int| 0 <= i < by_type.len() && #[trigger] by_type[i].0@ == u;
            assert(i != n);
            assert(rest[i] == by_type[i]);
        }
        assert forall|i: int, j: int| 0 <= i < j < rest.len() implies rest[i].0@ != rest[j].0@ by {
            assert(rest[i] == by_type[i]);
            assert(rest[j] == by_type[j]);
        }
        law_type_counts_cover_all_tiles(rest, others);
        assert(by_type[n].1 == count_of_type(tiles, t));
    }
}

} // verus!
