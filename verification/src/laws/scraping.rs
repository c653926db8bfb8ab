//! Lines written as text give the registry what they give it directly, and
//! a scrape tells the state of the registry and leaves it alone.

use vstd::prelude::*;
use crate::codec::{MetricLineView, lemma_round_trip, line_valid, serialized};
use crate::encoder::exposition;
use crate::listener::{applied_all, line_outcome, observations_of};
use crate::registry::{FamilyView, populated};

verus! {

/// The registry after the lines of text, each taken in its turn.
pub open spec fn fed(r: Seq<FamilyView>, texts: Seq<Seq<u8>>) -> Seq<FamilyView>
    decreases texts.len(),
{
    if texts.len() == 0 {
        r
    } else {
        line_outcome(fed(r, texts.drop_last()), texts.last()).0
    }
}

/// The registry after the observations of the lines, each line taken in its
/// turn, and left out where it asks to count down.
pub open spec fn taken(r: Seq<FamilyView>, lines: Seq<MetricLineView>) -> Seq<FamilyView>
    decreases lines.len(),
{
    if lines.len() == 0 {
        r
    } else {
        let before = taken(r, lines.drop_last());
        match observations_of(lines.last()) {
            Some(os) => applied_all(before, os),
            None => before,
        }
    }
}

/// Lines that are written as text and read back by the listener give the
/// registry what the lines themselves give it.
pub proof fn lemma_round_trip_totals(r: Seq<FamilyView>, lines: Seq<MetricLineView>)
    requires
        forall|i: int| 0 <= i < lines.len() ==> line_valid(#[trigger] lines[i]),
    ensures
        fed(r, lines.map_values(|l: MetricLineView| serialized(l))) == taken(r, lines),
    decreases lines.len(),
{
    let texts = lines.map_values(|l: MetricLineView| serialized(l));
    if lines.len() > 0 {
        let earlier = lines.drop_last();
        assert(texts.drop_last() =~= earlier.map_values(|l: MetricLineView| serialized(l)));
        assert forall|i: int| 0 <= i < earlier.len() implies line_valid(#[trigger] earlier[i]) by {
            assert(earlier[i] == lines[i]);
        }
        lemma_round_trip_totals(r, earlier);
        assert(line_valid(lines[lines.len() - 1]));
        lemma_round_trip(lines.last());
    }
}

/// What a scrape returns is told by the state of the registry alone, and a
/// scrape leaves that state as it is: two scrapes with nothing applied
/// between them return the same text.
pub proof fn lemma_scrape_is_stable(r: Seq<FamilyView>, first: Seq<u8>, second: Seq<u8>)
    requires
        first == exposition(populated(r)),
        second == exposition(populated(r)),
    ensures
        first == second,
{
}

} // verus!
