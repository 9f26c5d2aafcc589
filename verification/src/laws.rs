//! What holds of every match and of every binding: how many captures there
//! are, that fragments and captures together give the matched text back,
//! which templates are refused, that the outcome depends on the line and the
//! template alone, and what becomes of captures and slots that have no partner.

use vstd::prelude::*;
use crate::bind::{bind_result, conversion, parse_result, some_conversion_fails, SlotType, ValueModel};
use crate::error::MatchError;
use crate::matcher::{
    captures, gaps, in_order, is_blank, lemma_positions_in_order, locate, match_result,
    outcome_texts, place, split_result, well_formed,
};
use crate::search::{first_occurrence, lemma_first_occurrence, occurs_at};
use crate::template::{
    fragments, fragments_from, lemma_fragment_count, lemma_fragments_nonempty, lemma_marker_at,
    lemma_markers_apart, marker, marker_count,
};
use crate::text::texts;

verus! {

/// Two placeholder markers with nothing between them.
pub open spec fn double_marker() -> Seq<char> {
    seq!['{', '}', '{', '}']
}

/// `template` holds two markers with nothing between them.
pub open spec fn has_double_marker(template: Seq<char>) -> bool {
    exists|at: int| occurs_at(template, double_marker(), at)
}

/// The fragments from index `i` on, each followed by the capture of the
/// same index where there is one: fragments and captures in template order.
pub open spec fn interleave_from(frags: Seq<Seq<char>>, caps: Seq<Seq<char>>, i: int) -> Seq<char>
    decreases frags.len() - i,
{
    if i < 0 || i >= frags.len() {
        Seq::empty()
    } else if i < caps.len() {
        frags[i] + caps[i] + interleave_from(frags, caps, i + 1)
    } else {
        frags[i] + interleave_from(frags, caps, i + 1)
    }
}

/// The fragments of a template and the captures of a match, one after the
/// other in template order.
pub open spec fn interleave(frags: Seq<Seq<char>>, caps: Seq<Seq<char>>) -> Seq<char> {
    interleave_from(frags, caps, 0)
}

/// Where in `input` the matched text begins: at the first fragment, or at
/// the start of `input` for an empty template.
pub open spec fn match_start(input: Seq<char>, frags: Seq<Seq<char>>) -> int {
    if frags.len() == 0 || is_blank(frags) {
        0
    } else {
        locate(input, frags, 0, 0)->0[0]
    }
}

/// Where in `input` the matched text ends: at the end of the last fragment.
pub open spec fn match_end(input: Seq<char>, frags: Seq<Seq<char>>) -> int {
    if frags.len() == 0 {
        0
    } else {
        locate(input, frags, 0, 0)->0.last() + frags.last().len()
    }
}

/// The match takes in the whole of `input`: nothing precedes the first
/// fragment and nothing follows the last.
pub open spec fn spans_input(input: Seq<char>, frags: Seq<Seq<char>>) -> bool {
    match_start(input, frags) == 0 && match_end(input, frags) == input.len()
}

/// A matching line yields as many captures as the template has placeholder
/// markers; the empty template, which has none, yields the line as its one capture.
pub proof fn lemma_capture_count(input: Seq<char>, template: Seq<char>)
    requires
        split_result(input, template) is Ok,
    ensures
        split_result(input, template)->Ok_0.len() == (if template.len() == 0 {
            1
        } else {
            marker_count(template)
        }),
{
    let frags = fragments(template);
    lemma_fragment_count(template);
    lemma_positions_in_order(input, frags);
    lemma_first_occurrence(template, marker(), 0);
    if template.len() == 0 {
        assert(is_blank(frags));
    } else {
        assert(!is_blank(frags)) by {
            match first_occurrence(template, marker(), 0) {
                Some(at) => {
                    lemma_fragments_nonempty(template, at + 2);
                },
                None => {
                    assert(frags[0].len() == template.len());
                },
            }
        }
    }
}

/// The matched part of the line is the fragments and the captures in
/// template order: what lies between the start of the first fragment and the
/// end of the last is given back exactly.
pub proof fn lemma_matched_text(input: Seq<char>, frags: Seq<Seq<char>>)
    requires
        match_result(input, frags) is Ok,
    ensures
        0 <= match_start(input, frags) <= match_end(input, frags) <= input.len(),
        input.subrange(match_start(input, frags), match_end(input, frags)) == interleave(
            frags,
            match_result(input, frags)->Ok_0,
        ),
{
    let positions = locate(input, frags, 0, 0)->0;
    let caps = captures(input, frags, positions);
    lemma_positions_in_order(input, frags);
    if frags.len() == 0 {
        assert(input.subrange(0, 0) =~= interleave(frags, caps));
    } else if is_blank(frags) {
        assert(interleave_from(frags, caps, 1) =~= Seq::<char>::empty());
        assert(interleave(frags, caps) =~= input);
        assert(input.subrange(0, input.len() as int) =~= input);
    } else {
        lemma_matched_text_from(input, frags, positions, 0);
    }
}

/// From fragment `k` to the end of the last fragment, the line reads as the
/// fragments and the gaps between them, in order.
proof fn lemma_matched_text_from(
    input: Seq<char>,
    frags: Seq<Seq<char>>,
    positions: Seq<int>,
    k: int,
)
    requires
        in_order(input, frags, positions),
        0 <= k < frags.len(),
    ensures
        positions[k] + frags[k].len() <= positions.last() + frags.last().len() <= input.len(),
        input.subrange(positions[k], positions.last() + frags.last().len()) == interleave_from(
            frags,
            gaps(input, frags, positions),
            k,
        ),
    decreases frags.len() - k,
{
    let caps = gaps(input, frags, positions);
    let end = positions.last() + frags.last().len();
    let here = input.subrange(positions[k], positions[k] + frags[k].len());
    assert(occurs_at(input, frags[k], positions[k]));
    assert(occurs_at(input, frags.last(), positions[frags.len() - 1]));
    if k == frags.len() - 1 {
        assert(interleave_from(frags, caps, k + 1) =~= Seq::<char>::empty());
        assert(interleave_from(frags, caps, k) =~= frags[k]);
    } else {
        lemma_matched_text_from(input, frags, positions, k + 1);
        assert(positions[k] + frags[k].len() <= positions[k + 1]);
        assert(caps[k] == input.subrange(positions[k] + frags[k].len(), positions[k + 1]));
        assert(input.subrange(positions[k], end) =~= here + caps[k] + input.subrange(
            positions[k + 1],
            end,
        ));
    }
}

/// Writing the fragments of the template and the captures one after the
/// other, in template order, gives the line back, for every matching line
/// that the match takes in whole.
pub proof fn lemma_round_trip(input: Seq<char>, template: Seq<char>)
    requires
        split_result(input, template) is Ok,
        spans_input(input, fragments(template)),
    ensures
        interleave(fragments(template), split_result(input, template)->Ok_0) == input,
{
    lemma_matched_text(input, fragments(template));
    assert(input.subrange(0, input.len() as int) =~= input);
}

/// A template that begins and ends with a placeholder marker takes in the
/// whole of every line that it matches.
pub proof fn lemma_open_ended_spans_input(input: Seq<char>, frags: Seq<Seq<char>>)
    requires
        match_result(input, frags) is Ok,
        frags.len() >= 1,
        frags.first().len() == 0,
        frags.last().len() == 0,
    ensures
        spans_input(input, frags),
{
    lemma_positions_in_order(input, frags);
    if !is_blank(frags) {
        assert(occurs_at(input, frags[0], 0)) by {
            assert(input.subrange(0, 0) =~= frags[0]);
        }
        assert(first_occurrence(input, frags[0], 0) == Some(0int));
        lemma_last_place(input, frags, 0, 0);
    }
}

/// An empty last fragment is placed at the end of the line.
proof fn lemma_last_place(input: Seq<char>, frags: Seq<Seq<char>>, i: int, cursor: int)
    requires
        0 <= i < frags.len(),
        frags.last().len() == 0,
        locate(input, frags, i, cursor) is Some,
    ensures
        locate(input, frags, i, cursor)->0.len() == frags.len() - i,
        locate(input, frags, i, cursor)->0.last() == input.len(),
    decreases frags.len() - i,
{
    if i + 1 < frags.len() {
        let at = first_occurrence(input, frags[i], cursor)->0;
        lemma_last_place(input, frags, i + 1, at + frags[i].len());
    } else {
        let at = place(input, frags, i, cursor)->0;
        assert(locate(input, frags, i + 1, at + frags[i].len()) == Some(Seq::<int>::empty()));
    }
}

/// Two markers with nothing between them stand at `at` exactly where a
/// marker stands at `at` and another directly behind it.
pub proof fn lemma_double_marker_at(template: Seq<char>, at: int)
    ensures
        occurs_at(template, double_marker(), at) <==> (occurs_at(template, marker(), at)
            && occurs_at(template, marker(), at + 2)),
{
    lemma_marker_at(template, at);
    lemma_marker_at(template, at + 2);
    if 0 <= at && at + 4 <= template.len() {
        let window = template.subrange(at, at + 4);
        assert(window[0] == template[at]);
        assert(window[1] == template[at + 1]);
        assert(window[2] == template[at + 2]);
        assert(window[3] == template[at + 3]);
        if occurs_at(template, marker(), at) && occurs_at(template, marker(), at + 2) {
            assert(window =~= double_marker());
        }
    }
}

/// Where two markers stand at `at` with nothing between them, the fragment
/// between them is empty, and it is neither the first nor the last.
proof fn lemma_empty_fragment_between(template: Seq<char>, from: int, at: int) -> (i: int)
    requires
        0 <= from <= at,
        occurs_at(template, marker(), at),
        occurs_at(template, marker(), at + 2),
    ensures
        0 < i < fragments_from(template, from).len() - 1,
        fragments_from(template, from)[i].len() == 0,
    decreases template.len() - from,
{
    lemma_first_occurrence(template, marker(), from);
    let first = first_occurrence(template, marker(), from)->0;
    if first == at {
        let behind = fragments_from(template, at + 2);
        assert(first_occurrence(template, marker(), at + 2) == Some(at + 2));
        lemma_fragments_nonempty(template, at + 4);
        assert(behind[0] == template.subrange(at + 2, at + 2));
        assert(fragments_from(template, from)[1] == behind[0]);
        1
    } else {
        lemma_markers_apart(template, first);
        let inner = lemma_empty_fragment_between(template, first + 2, at);
        assert(fragments_from(template, from)[inner + 1] == fragments_from(template, first + 2)[inner]);
        inner + 1
    }
}

/// Fragment `i` is a piece of the template; a marker stands directly behind
/// it unless it is the last fragment, and directly before it unless it is
/// the first.
proof fn lemma_fragment_bounds(template: Seq<char>, from: int, i: int) -> (start: int)
    requires
        0 <= from <= template.len(),
        0 <= i < fragments_from(template, from).len(),
    ensures
        from <= start <= template.len(),
        i == 0 ==> start == from,
        i > 0 ==> from <= start - 2 && occurs_at(template, marker(), start - 2),
        i < fragments_from(template, from).len() - 1 ==> occurs_at(
            template,
            marker(),
            start + fragments_from(template, from)[i].len(),
        ),
    decreases template.len() - from,
{
    lemma_first_occurrence(template, marker(), from);
    if i == 0 {
        from
    } else {
        let at = first_occurrence(template, marker(), from)->0;
        assert(fragments_from(template, from)[i] == fragments_from(template, at + 2)[i - 1]);
        lemma_fragment_bounds(template, at + 2, i - 1)
    }
}

/// The fragments of a template are in order, none but the first and the
/// last empty, exactly where the template holds no two markers with nothing
/// between them.
pub proof fn lemma_well_formed_iff_no_double_marker(template: Seq<char>)
    ensures
        well_formed(fragments(template)) <==> !has_double_marker(template),
{
    let frags = fragments(template);
    if has_double_marker(template) {
        let at = choose|at: int| occurs_at(template, double_marker(), at);
        lemma_double_marker_at(template, at);
        let i = lemma_empty_fragment_between(template, 0, at);
        assert(frags[i].len() == 0);
    }
    if !well_formed(frags) {
        let i = choose|i: int| 0 < i < frags.len() - 1 && (#[trigger] frags[i]).len() == 0;
        let start = lemma_fragment_bounds(template, 0, i);
        lemma_double_marker_at(template, start - 2);
        assert(occurs_at(template, double_marker(), start - 2));
    }
}

/// A template that holds two markers with nothing between them is refused
/// as an invalid pattern, whatever the line holds; no other template is.
pub proof fn lemma_double_marker_rejected(input: Seq<char>, template: Seq<char>)
    ensures
        has_double_marker(template) <==> split_result(input, template) == Err::<
            Seq<Seq<char>>,
            MatchError,
        >(MatchError::InvalidPattern),
{
    lemma_well_formed_iff_no_double_marker(template);
}

/// The outcome of a match is a function of the line and the template: two
/// matches of the same line against the same template yield the same
/// captures, or fail alike.
pub proof fn lemma_same_input_same_outcome(
    input: &str,
    template: &str,
    first: Result<Vec<&str>, MatchError>,
    second: Result<Vec<&str>, MatchError>,
)
    requires
        outcome_texts(first) == split_result(input@, template@),
        outcome_texts(second) == split_result(input@, template@),
    ensures
        outcome_texts(first) == outcome_texts(second),
        first is Ok ==> texts(first->Ok_0@) == texts(second->Ok_0@),
        first is Err ==> second == first,
{
}

/// Captures beyond the last slot play no part in binding.
pub proof fn lemma_surplus_captures_dropped(caps: Seq<Seq<char>>, slots: Seq<SlotType>)
    requires
        slots.len() <= caps.len(),
    ensures
        bind_result(caps, slots) == bind_result(caps.take(slots.len() as int), slots),
{
    let kept = caps.take(slots.len() as int);
    let count = slots.len() as int;
    if some_conversion_fails(caps, slots, count) {
        let i = choose|i: int| 0 <= i < count && (#[trigger] conversion(slots[i], caps[i])) is None;
        assert(conversion(slots[i], kept[i]) is None);
    }
    if some_conversion_fails(kept, slots, count) {
        let i = choose|i: int| 0 <= i < count && (#[trigger] conversion(slots[i], kept[i])) is None;
        assert(conversion(slots[i], caps[i]) is None);
    }
    assert(Seq::new(slots.len(), |i: int| conversion(slots[i], caps[i])->0) =~= Seq::new(
        slots.len(),
        |i: int| conversion(slots[i], kept[i])->0,
    ));
}

/// Asking for more slots than the template has placeholder markers fails
/// with `TooManyVariables` on every line that matches.
pub proof fn lemma_too_many_slots(input: Seq<char>, template: Seq<char>, slots: Seq<SlotType>)
    requires
        split_result(input, template) is Ok,
        template.len() > 0,
        slots.len() > marker_count(template),
    ensures
        parse_result(input, template, slots) == Err::<Seq<ValueModel>, MatchError>(
            MatchError::TooManyVariables,
        ),
{
    lemma_capture_count(input, template);
}

} // verus!
