//! The nine-step ramp of block glyphs that draws one percentage.

use crate::reading::{
    lemma_truncated_reaches, lemma_truncation_is_monotonic, quanta_per_unit, Reading,
};
use vstd::prelude::*;

verus! {

/// Percentage points covered by each step of the ramp.
pub const STEP: i32 = 11;

/// The highest step.
pub const FULL: u8 = 8;

/// The ramp, from blank to the full block.
pub open spec fn ramp() -> Seq<char> {
    seq![' ', '▁', '▂', '▃', '▄', '▅', '▆', '▇', '█']
}

/// How far a whole percentage fills the ramp: nothing below 11, one more
/// eighth for every 11 points, all of it from 88 up.
pub open spec fn fill_level(whole: int) -> nat {
    if whole < STEP {
        0
    } else if whole >= STEP * FULL {
        FULL as nat
    } else {
        (whole / (STEP as int)) as nat
    }
}

/// The glyph for a whole percentage, by its brackets.
pub open spec fn block_for(whole: int) -> char {
    if 11 <= whole <= 21 {
        '▁'
    } else if 22 <= whole <= 32 {
        '▂'
    } else if 33 <= whole <= 43 {
        '▃'
    } else if 44 <= whole <= 54 {
        '▄'
    } else if 55 <= whole <= 65 {
        '▅'
    } else if 66 <= whole <= 76 {
        '▆'
    } else if 77 <= whole <= 87 {
        '▇'
    } else if 88 <= whole {
        '█'
    } else {
        ' '
    }
}

/// The brackets are the steps of the ramp.
pub proof fn lemma_block_is_ramp_step(whole: int)
    ensures
        fill_level(whole) <= FULL,
        block_for(whole) == ramp()[fill_level(whole) as int],
{
}

pub fn whole_block(whole: i32) -> (glyph: char)
    ensures
        glyph == block_for(whole as int),
{
    if whole < 11 {
        ' '
    } else if whole <= 21 {
        '▁'
    } else if whole <= 32 {
        '▂'
    } else if whole <= 43 {
        '▃'
    } else if whole <= 54 {
        '▄'
    } else if whole <= 65 {
        '▅'
    } else if whole <= 76 {
        '▆'
    } else if whole <= 87 {
        '▇'
    } else {
        '█'
    }
}

/// The glyph that draws a reading: that of its truncated value.
pub open spec fn block_of(percent: Reading) -> char {
    block_for(percent.truncated())
}

/// Converts a percentage into its approximate vertical block.
pub fn percent_block(percent: Reading) -> (glyph: char)
    ensures
        glyph == block_of(percent),
{
    whole_block(percent.truncate())
}

/// One glyph for each reading, in their order.
pub open spec fn histogram_text(per_core: Seq<Reading>) -> Seq<char> {
    Seq::new(per_core.len(), |i: int| block_of(per_core[i]))
}

/// Appends the histogram of `per_core`.
pub fn push_histogram(text: &mut String, per_core: &Vec<Reading>)
    ensures
        final(text)@ == old(text)@ + histogram_text(per_core@),
{
    let mut drawn: usize = 0;
    while drawn < per_core.len()
        invariant
            drawn <= per_core.len(),
            text@ == old(text)@ + histogram_text(per_core@.take(drawn as int)),
        decreases per_core.len() - drawn,
    {
        text.push(percent_block(per_core[drawn]));
        drawn = drawn + 1;
        assert(histogram_text(per_core@.take(drawn as int)) == histogram_text(
            per_core@.take(drawn - 1),
        ).push(block_of(per_core[drawn - 1])));
    }
    assert(per_core@.take(drawn as int) == per_core@);
}

/// The histogram segment.
pub fn histogram(per_core: &Vec<Reading>) -> (segment: String)
    ensures
        segment@ == histogram_text(per_core@),
{
    let mut segment = String::new();
    push_histogram(&mut segment, per_core);
    segment
}

/// The step of the ramp that a glyph stands on; 0 for the blank and for
/// any character that is not on the ramp.
pub open spec fn fill_of(glyph: char) -> nat {
    if glyph == '▁' {
        1
    } else if glyph == '▂' {
        2
    } else if glyph == '▃' {
        3
    } else if glyph == '▄' {
        4
    } else if glyph == '▅' {
        5
    } else if glyph == '▆' {
        6
    } else if glyph == '▇' {
        7
    } else if glyph == '█' {
        8
    } else {
        0
    }
}

/// Every reading is drawn by one of the nine glyphs of the ramp, the one
/// on the step that its truncated value fills.
pub proof fn lemma_block_is_on_the_ramp(percent: Reading)
    ensures
        ramp().contains(block_of(percent)),
        fill_of(block_of(percent)) == fill_level(percent.truncated()),
{
    let level = fill_level(percent.truncated()) as int;
    lemma_block_is_ramp_step(percent.truncated());
    assert(ramp()[level] == block_of(percent));
}

/// The brackets in terms of the value itself: a reading is drawn on step
/// `step` or higher exactly when it is a number of at least `11 * step`
/// percent.
pub proof fn lemma_fill_by_value(percent: Reading, step: nat)
    requires
        1 <= step <= FULL,
    ensures
        fill_level(percent.truncated()) >= step <==> !percent.nan() && percent.quanta() >= (STEP
            * step) * quanta_per_unit(),
{
    lemma_truncated_reaches(percent, STEP * step);
}

/// Whatever is below eleven percent is drawn blank, negative values and
/// what is not a number with it; nothing else is.
pub proof fn lemma_blank_below_eleven(percent: Reading)
    ensures
        block_of(percent) == ' ' <==> percent.nan() || percent.quanta() < 11 * quanta_per_unit(),
{
    lemma_truncated_reaches(percent, 11);
}

/// A whole percentage that is not smaller fills the ramp no less.
pub proof fn lemma_fill_level_is_monotonic(low: int, high: int)
    requires
        low <= high,
    ensures
        fill_level(low) <= fill_level(high),
{
}

/// The glyph never loses fill as the reading grows.
pub proof fn lemma_fill_is_monotonic(low: Reading, high: Reading)
    requires
        low.at_most(high),
    ensures
        fill_of(block_of(low)) <= fill_of(block_of(high)),
{
    lemma_truncation_is_monotonic(low, high);
    lemma_fill_level_is_monotonic(low.truncated(), high.truncated());
    lemma_block_is_on_the_ramp(low);
    lemma_block_is_on_the_ramp(high);
}

} // verus!
