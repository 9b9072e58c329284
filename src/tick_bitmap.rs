use vstd::prelude::*;
use crate::full_math::U256;

verus! {

/// The liquidity referencing one initialized tick boundary.
#[derive(Debug, Clone, Copy, PartialEq, Eq, Structural)]
pub struct TickInfo {
    pub index: i32,
    /// Total liquidity referencing this boundary.
    pub l_gross: u128,
    /// Change of active liquidity when the price crosses upward.
    pub l_net: i128,
}

/// Sparse bitmap of initialized ticks: word position to 256-bit mask.
#[verifier::external_body]
pub struct TickBitmap {
    words: hashbrown::HashMap<i16, U256>,
}

/// Initialized ticks by index.
#[verifier::external_body]
pub struct TickTable {
    ticks: hashbrown::HashMap<i32, TickInfo>,
}

/// The words that a bitmap holds.
pub uninterp spec fn bitmap_words(m: TickBitmap) -> Map<i16, U256>;

/// The entries that a tick table holds.
pub uninterp spec fn table_entries(t: TickTable) -> Map<i32, TickInfo>;

/// Relies on `hashbrown::HashMap::new`: an empty map.
#[verifier::external_body]
fn new_bitmap() -> (r: TickBitmap)
    ensures
        bitmap_words(r) == no_words(),
{
    TickBitmap { words: hashbrown::HashMap::new() }
}

/// Relies on `hashbrown::HashMap::insert`: the key now maps to the value.
#[verifier::external_body]
fn bitmap_insert(m: &mut TickBitmap, k: i16, v: U256)
    ensures
        bitmap_words(*final(m)) == bitmap_words(*old(m)).insert(k, v),
{
    m.words.insert(k, v);
}

/// Relies on `hashbrown::HashMap::get`: the value under the key, if any.
#[verifier::external_body]
fn bitmap_get(m: &TickBitmap, k: i16) -> (r: Option<U256>)
    ensures
        bitmap_words(*m).contains_key(k) ==> r == Some(bitmap_words(*m)[k]),
        !bitmap_words(*m).contains_key(k) ==> r is None,
{
    m.words.get(&k).copied()
}

/// Relies on `hashbrown::HashMap::new`: an empty map.
#[verifier::external_body]
fn new_table() -> (r: TickTable)
    ensures
        table_entries(r) == no_entries(),
{
    TickTable { ticks: hashbrown::HashMap::new() }
}

/// Relies on `hashbrown::HashMap::insert`: the key now maps to the value.
#[verifier::external_body]
fn table_insert(t: &mut TickTable, k: i32, v: TickInfo)
    ensures
        table_entries(*final(t)) == table_entries(*old(t)).insert(k, v),
{
    t.ticks.insert(k, v);
}

/// Relies on `hashbrown::HashMap::get`: the entry under the key, if any.
#[verifier::external_body]
fn table_get(t: &TickTable, k: i32) -> (r: Option<TickInfo>)
    ensures
        table_entries(*t).contains_key(k) ==> r == Some(table_entries(*t)[k]),
        !table_entries(*t).contains_key(k) ==> r is None,
{
    t.ticks.get(&k).copied()
}

pub open spec fn no_words() -> Map<i16, U256> {
    Map::empty()
}

pub open spec fn no_entries() -> Map<i32, TickInfo> {
    Map::empty()
}

/// The map that a list of `(position, word)` pairs builds, later pairs winning.
pub open spec fn words_of(s: Seq<(i16, U256)>) -> Map<i16, U256>
    decreases s.len(),
{
    if s.len() == 0 {
        no_words()
    } else {
        words_of(s.drop_last()).insert(s.last().0, s.last().1)
    }
}

/// The map that a list of ticks builds by index, later entries winning.
pub open spec fn entries_of(s: Seq<TickInfo>) -> Map<i32, TickInfo>
    decreases s.len(),
{
    if s.len() == 0 {
        no_entries()
    } else {
        entries_of(s.drop_last()).insert(s.last().index, s.last())
    }
}

impl TickBitmap {
    /// A bitmap holding the given words.
    pub fn from_words(words: &Vec<(i16, U256)>) -> (r: TickBitmap)
        ensures
            bitmap_words(r) == words_of(words@),
    {
        let mut m = new_bitmap();
        let mut i: usize = 0;
        while i < words.len()
            invariant
                i <= words.len(),
                bitmap_words(m) == words_of(words@.take(i as int)),
            decreases words.len() - i,
        {
            let (k, v) = words[i];
            bitmap_insert(&mut m, k, v);
            assert(words@.take(i + 1).drop_last() == words@.take(i as int));
            i = i + 1;
        }
        assert(words@.take(words.len() as int) == words@);
        m
    }

    /// The word at a position; a missing word has no bit set.
    pub fn word(&self, pos: i16) -> (r: U256)
        ensures
            r == word_at(bitmap_words(*self), pos as int),
    {
        match bitmap_get(self, pos) {
            Some(w) => w,
            None => U256::zero(),
        }
    }
}

impl TickTable {
    /// A table holding the given ticks, keyed by their index.
    pub fn from_ticks(ticks: &Vec<TickInfo>) -> (r: TickTable)
        ensures
            table_entries(r) == entries_of(ticks@),
    {
        let mut t = new_table();
        let mut i: usize = 0;
        while i < ticks.len()
            invariant
                i <= ticks.len(),
                table_entries(t) == entries_of(ticks@.take(i as int)),
            decreases ticks.len() - i,
        {
            let info = ticks[i];
            table_insert(&mut t, info.index, info);
            assert(ticks@.take(i + 1).drop_last() == ticks@.take(i as int));
            i = i + 1;
        }
        assert(ticks@.take(ticks.len() as int) == ticks@);
        t
    }

    /// The entry of an initialized tick, if the table has one.
    pub fn get(&self, index: i32) -> (r: Option<TickInfo>)
        ensures
            table_entries(*self).contains_key(index) ==> r == Some(table_entries(*self)[index]),
            !table_entries(*self).contains_key(index) ==> r is None,
    {
        table_get(self, index)
    }
}

/// The word at position `pos`, or the empty word.
pub open spec fn word_at(m: Map<i16, U256>, pos: int) -> U256 {
    if m.contains_key(pos as i16) { m[pos as i16] } else { U256 { hi: 0, lo: 0 } }
}

/// Bit `i` (0 ..= 255) of a word.
pub open spec fn word_bit(w: U256, i: int) -> bool {
    if i < 128 {
        (w.lo >> (i as u128)) & 1u128 == 1u128
    } else {
        (w.hi >> ((i - 128) as u128)) & 1u128 == 1u128
    }
}

fn bit_at(w: &U256, i: u32) -> (r: bool)
    requires
        i < 256,
    ensures
        r == word_bit(*w, i as int),
{
    if i < 128 {
        (w.lo >> (i as u128)) & 1u128 == 1u128
    } else {
        (w.hi >> ((i - 128) as u128)) & 1u128 == 1u128
    }
}

/// The highest set bit of `w` at or below `b`, or -1 when there is none.
pub open spec fn highest_at_or_below(w: U256, b: int) -> int
    decreases b + 1,
{
    if b < 0 {
        -1
    } else if word_bit(w, b) {
        b
    } else {
        highest_at_or_below(w, b - 1)
    }
}

/// The lowest set bit of `w` at or above `b`, or 256 when there is none.
pub open spec fn lowest_at_or_above(w: U256, b: int) -> int
    decreases 256 - b,
{
    if b > 255 {
        256
    } else if word_bit(w, b) {
        b
    } else {
        lowest_at_or_above(w, b + 1)
    }
}

/// The next tick, in units of `spacing`, that the one-word search settles
/// on: the nearest initialized one in the word, or the word's edge.
pub open spec fn next_in_word(words: Map<i16, U256>, tick: int, spacing: int, lte: bool) -> (int, bool) {
    let c = if lte { tick / spacing } else { tick / spacing + 1 };
    let pos = c / 256;
    let b = c % 256;
    let w = word_at(words, pos);
    if lte {
        let h = highest_at_or_below(w, b);
        if h >= 0 { ((pos * 256 + h) * spacing, true) } else { (pos * 256 * spacing, false) }
    } else {
        let l = lowest_at_or_above(w, b);
        if l <= 255 { ((pos * 256 + l) * spacing, true) } else { ((pos * 256 + 255) * spacing, false) }
    }
}

/// Floor division of `x` by a positive `d`, for `x >= -offset * d`.
fn floor_div(x: i64, d: i64, offset: i64) -> (r: i64)
    requires
        d > 0,
        0 <= offset <= 1_000_000,
        d <= i32::MAX,
        -offset * d <= x <= i32::MAX,
    ensures
        r == x as int / d as int,
{
    proof {
        assert(0 <= offset * d <= 1_000_000 * i32::MAX) by (nonlinear_arith)
            requires 0 <= offset <= 1_000_000, 0 < d <= i32::MAX;
    }
    assert(x + offset * d >= 0) by (nonlinear_arith) requires -offset * d <= x;
    let shifted: u64 = (x + offset * d) as u64;
    assert(shifted as int == x + offset * d);
    let q: u64 = shifted / (d as u64);
    assert(q as int == shifted as int / d as int);
    proof {
        let xi = x as int;
        let di = d as int;
        vstd::arithmetic::div_mod::lemma_fundamental_div_mod(xi, di);
        let q0 = xi / di;
        let r0 = xi % di;
        assert(xi + offset * di == (q0 + offset) * di + r0) by (nonlinear_arith)
            requires xi == di * q0 + r0;
        vstd::arithmetic::div_mod::lemma_fundamental_div_mod_converse(xi + offset * di, di, q0 + offset, r0);
        vstd::arithmetic::div_mod::lemma_div_is_ordered_by_denominator(shifted as int, 1, di);
        vstd::arithmetic::div_mod::lemma_div_basics(shifted as int);
    }
    q as i64 - offset
}

/// Searches the word holding `tick`'s compressed position for the nearest
/// initialized tick: at or below `tick` when `lte`, strictly above it
/// otherwise. When the rest of the word has none, returns the word's edge
/// with `false`.
pub fn next_initialized_tick_within_one_word(bitmap: &TickBitmap, tick: i32, spacing: i32, lte: bool) -> (r: (i64, bool))
    requires
        spacing > 0,
        -887273 <= tick <= 887272,
    ensures
        (r.0 as int, r.1) == next_in_word(bitmap_words(*bitmap), tick as int, spacing as int, lte),
{
    let c0 = floor_div(tick as i64, spacing as i64, 887273);
    proof {
        let (t, sp) = (tick as int, spacing as int);
        vstd::arithmetic::div_mod::lemma_fundamental_div_mod(t, sp);
        assert(-887273 <= c0 <= 887272) by (nonlinear_arith)
            requires
                t == sp * (c0 as int) + t % sp,
                0 <= t % sp < sp,
                sp >= 1,
                -887273 <= t <= 887272,
        ;
    }
    let c: i64 = if lte { c0 } else { c0 + 1 };
    let pos = floor_div(c, 256, 4000);
    let b: i64 = c - pos * 256;
    proof {
        vstd::arithmetic::div_mod::lemma_fundamental_div_mod(c as int, 256);
        assert(-4000 <= pos < 4000) by (nonlinear_arith)
            requires
                c == 256 * pos + (c as int) % 256,
                0 <= (c as int) % 256 < 256,
                -887273 <= c <= 887273,
        ;
        assert(-1_100_000 * spacing <= (pos * 256 + 256) * spacing <= 1_100_000 * spacing) by (nonlinear_arith)
            requires -4000 <= pos < 4000, spacing > 0;
        assert(-1_100_000 * spacing <= (pos * 256 - 1) * spacing <= 1_100_000 * spacing) by (nonlinear_arith)
            requires -4000 <= pos < 4000, spacing > 0;
    }
    let w = bitmap.word(pos as i16);
    if lte {
        let mut i: i64 = b;
        while i >= 0 && !bit_at(&w, i as u32)
            invariant
                -1 <= i <= b <= 255,
                highest_at_or_below(w, i as int) == highest_at_or_below(w, b as int),
            decreases i + 1,
        {
            i = i - 1;
        }
        if i >= 0 {
            assert(-1_100_000 * spacing <= (pos * 256 + i) * spacing <= 1_100_000 * spacing) by (nonlinear_arith)
                requires -4000 <= pos < 4000, spacing > 0, 0 <= i <= 255;
            ((pos * 256 + i) * spacing as i64, true)
        } else {
            assert(-1_100_000 * spacing <= (pos * 256) * spacing <= 1_100_000 * spacing) by (nonlinear_arith)
                requires -4000 <= pos < 4000, spacing > 0;
            (pos * 256 * spacing as i64, false)
        }
    } else {
        let mut i: i64 = b;
        while i <= 255 && !bit_at(&w, i as u32)
            invariant
                0 <= b <= i <= 256,
                lowest_at_or_above(w, i as int) == lowest_at_or_above(w, b as int),
            decreases 256 - i,
        {
            i = i + 1;
        }
        if i <= 255 {
            assert(-1_100_000 * spacing <= (pos * 256 + i) * spacing <= 1_100_000 * spacing) by (nonlinear_arith)
                requires -4000 <= pos < 4000, spacing > 0, 0 <= i <= 255;
            ((pos * 256 + i) * spacing as i64, true)
        } else {
            assert(-1_100_000 * spacing <= (pos * 256 + 255) * spacing <= 1_100_000 * spacing) by (nonlinear_arith)
                requires -4000 <= pos < 4000, spacing > 0;
            ((pos * 256 + 255) * spacing as i64, false)
        }
    }
}

proof fn lemma_highest_at_most(w: U256, b: int)
    ensures
        -1 <= highest_at_or_below(w, b) <= b || (b < 0 && highest_at_or_below(w, b) == -1),
    decreases b + 1,
{
    if b >= 0 && !word_bit(w, b) {
        lemma_highest_at_most(w, b - 1);
    }
}

proof fn lemma_lowest_at_least(w: U256, b: int)
    ensures
        b <= lowest_at_or_above(w, b) <= 256 || (b > 255 && lowest_at_or_above(w, b) == 256),
    decreases 256 - b,
{
    if b <= 255 && !word_bit(w, b) {
        lemma_lowest_at_least(w, b + 1);
    }
}

/// The search never returns a tick on the wrong side: at or below `tick`
/// when searching down, strictly above it when searching up.
pub proof fn lemma_next_in_word_side(words: Map<i16, U256>, tick: int, spacing: int, lte: bool)
    requires
        spacing > 0,
    ensures
        lte ==> next_in_word(words, tick, spacing, lte).0 <= tick,
        !lte ==> next_in_word(words, tick, spacing, lte).0 > tick,
{
    let c0 = tick / spacing;
    vstd::arithmetic::div_mod::lemma_fundamental_div_mod(tick, spacing);
    assert(c0 * spacing <= tick < (c0 + 1) * spacing) by (nonlinear_arith)
        requires
            tick == spacing * c0 + tick % spacing,
            0 <= tick % spacing < spacing,
    ;
    let c = if lte { c0 } else { c0 + 1 };
    let pos = c / 256;
    let b = c % 256;
    vstd::arithmetic::div_mod::lemma_fundamental_div_mod(c, 256);
    let w = word_at(words, pos);
    if lte {
        let h = highest_at_or_below(w, b);
        lemma_highest_at_most(w, b);
        let k = if h >= 0 { pos * 256 + h } else { pos * 256 };
        assert(k <= c);
        assert(k * spacing <= c * spacing) by (nonlinear_arith) requires k <= c, spacing > 0;
    } else {
        let l = lowest_at_or_above(w, b);
        lemma_lowest_at_least(w, b);
        let k = if l <= 255 { pos * 256 + l } else { pos * 256 + 255 };
        assert(k >= c);
        assert(k * spacing >= c * spacing) by (nonlinear_arith) requires k >= c, spacing > 0;
    }
}

} // verus!
