//! The positional matcher: the fragments of a template are located in a
//! line, one after the other, and what lies between them is captured.

use vstd::prelude::*;
use crate::error::MatchError;
use crate::search::{find_from, first_occurrence, lemma_first_occurrence, occurs_at};
use crate::template::{fragments, segment};
use crate::text::{chars_of, texts};

verus! {

/// No fragment but the first and the last is empty: the template has no two
/// placeholder markers with nothing between them.
pub open spec fn well_formed(frags: Seq<Seq<char>>) -> bool {
    forall|i: int| 0 < i < frags.len() - 1 ==> (#[trigger] frags[i]).len() > 0
}

/// The fragments are a lone empty fragment: the template is empty.
pub open spec fn is_blank(frags: Seq<Seq<char>>) -> bool {
    frags.len() == 1 && frags[0].len() == 0
}

/// Where fragment `i` is placed when the cursor stands at `cursor`: an empty
/// last fragment at the end of the input, any other fragment at its first
/// occurrence at or after the cursor.
pub open spec fn place(input: Seq<char>, frags: Seq<Seq<char>>, i: int, cursor: int) -> Option<int> {
    if i + 1 == frags.len() && frags[i].len() == 0 {
        Some(input.len() as int)
    } else {
        first_occurrence(input, frags[i], cursor)
    }
}

/// `done` followed by what `rest` holds, if it holds anything.
pub open spec fn extend(done: Seq<int>, rest: Option<Seq<int>>) -> Option<Seq<int>> {
    match rest {
        None => None,
        Some(more) => Some(done + more),
    }
}

/// The positions of the fragments from index `i` on, each placed after the
/// end of the one before it, the first of them at or after `cursor`.
/// `None` where one of them has no place.
pub open spec fn locate(input: Seq<char>, frags: Seq<Seq<char>>, i: int, cursor: int) -> Option<
    Seq<int>,
>
    decreases frags.len() - i,
{
    if i < 0 || i >= frags.len() {
        Some(Seq::empty())
    } else {
        match place(input, frags, i, cursor) {
            None => None,
            Some(at) => extend(seq![at], locate(input, frags, i + 1, at + frags[i].len())),
        }
    }
}

/// What lies in `input` between each fragment and the next, given the
/// positions of the fragments.
pub open spec fn gaps(input: Seq<char>, frags: Seq<Seq<char>>, positions: Seq<int>) -> Seq<
    Seq<char>,
> {
    Seq::new(
        if positions.len() == 0 {
            0nat
        } else {
            (positions.len() - 1) as nat
        },
        |j: int| input.subrange(positions[j] + frags[j].len(), positions[j + 1]),
    )
}

/// The captures that the fragments at `positions` leave: the whole input
/// for an empty template, else the gaps between the fragments.
pub open spec fn captures(input: Seq<char>, frags: Seq<Seq<char>>, positions: Seq<int>) -> Seq<
    Seq<char>,
> {
    if is_blank(frags) {
        seq![input]
    } else {
        gaps(input, frags, positions)
    }
}

/// The outcome of matching `input` against the fragments `frags`.
pub open spec fn match_result(input: Seq<char>, frags: Seq<Seq<char>>) -> Result<
    Seq<Seq<char>>,
    MatchError,
> {
    if !well_formed(frags) {
        Err(MatchError::InvalidPattern)
    } else {
        match locate(input, frags, 0, 0) {
            None => Err(MatchError::FragmentNotFound),
            Some(positions) => Ok(captures(input, frags, positions)),
        }
    }
}

/// The outcome of matching `input` against `template`.
pub open spec fn split_result(input: Seq<char>, template: Seq<char>) -> Result<
    Seq<Seq<char>>,
    MatchError,
> {
    match_result(input, fragments(template))
}

/// An outcome with each capture taken as its text.
pub open spec fn outcome_texts(outcome: Result<Vec<&str>, MatchError>) -> Result<
    Seq<Seq<char>>,
    MatchError,
> {
    match outcome {
        Ok(found) => Ok(texts(found@)),
        Err(e) => Err(e),
    }
}

/// Whether no fragment but the first and the last is empty.
pub fn check_fragments(frags: &Vec<&str>) -> (ok: bool)
    ensures
        ok == well_formed(texts(frags@)),
{
    let count: usize = frags.len();
    if count <= 2 {
        return true;
    }
    let last: usize = count - 1;
    let mut i: usize = 1;
    while i < last
        invariant
            1 <= i <= last,
            last == frags@.len() - 1,
            forall|k: int| 0 < k < i ==> (#[trigger] texts(frags@)[k]).len() > 0,
        decreases last - i,
    {
        if frags[i].is_empty() {
            assert(texts(frags@)[i as int].len() == 0);
            return false;
        }
        i += 1;
    }
    true
}

/// Matches `input` against the fragments `frags` of a template.
///
/// The fragments are located in `input` from left to right, each at its first
/// occurrence after the end of the one before it; an empty last fragment
/// stands at the end of `input`. The captures are the pieces of `input`
/// between the fragments, as slices of `input`; what precedes the first
/// fragment is not captured. For a lone empty fragment the whole of `input`
/// is the one capture.
///
/// The match fails with `InvalidPattern` where a fragment other than the
/// first and the last is empty, whatever `input` holds, and with
/// `FragmentNotFound` where the fragments are in order but one of them does
/// not occur in what is left of `input`.
pub fn match_fragments<'a>(input: &'a str, frags: &Vec<&str>) -> (outcome: Result<
    Vec<&'a str>,
    MatchError,
>)
    ensures
        outcome_texts(outcome) == match_result(input@, texts(frags@)),
{
    if !check_fragments(frags) {
        return Err(MatchError::InvalidPattern);
    }
    let ghost literals = texts(frags@);
    let count: usize = frags.len();
    let mut found: Vec<&'a str> = Vec::new();
    if count == 1 && frags[0].is_empty() {
        found.push(input);
        proof {
            assert(is_blank(literals));
            assert(locate(input@, literals, 1, input@.len() as int) == Some(Seq::<int>::empty()));
            assert(locate(input@, literals, 0, 0) is Some);
            assert(texts(found@) =~= seq![input@]);
        }
        return Ok(found);
    }
    let chars = chars_of(input);
    let size: usize = chars.len();
    let mut cursor: usize = 0;
    let ghost mut positions: Seq<int> = Seq::empty();
    let mut i: usize = 0;
    proof {
        assert(extend(positions, locate(input@, literals, 0, 0)) == locate(input@, literals, 0, 0))
            by {
            lemma_extend_empty(locate(input@, literals, 0, 0));
        }
        assert(texts(found@) =~= gaps(input@, literals, positions));
    }
    while i < count
        invariant
            chars@ == input@,
            size == chars@.len(),
            count == frags@.len(),
            literals == texts(frags@),
            well_formed(literals),
            !is_blank(literals),
            i <= count,
            cursor <= size,
            positions.len() == i,
            i == 0 ==> cursor == 0,
            i > 0 ==> cursor == positions[i - 1] + literals[i - 1].len(),
            locate(input@, literals, 0, 0) == extend(
                positions,
                locate(input@, literals, i as int, cursor as int),
            ),
            texts(found@) == gaps(input@, literals, positions),
        decreases count - i,
    {
        let frag: &str = frags[i];
        let ghost before = found@;
        let ghost seen = positions;
        let at: usize;
        if frag.is_empty() && i + 1 == count {
            at = size;
            found.push(input.substring_char(cursor, size));
            cursor = size;
        } else {
            let literal = chars_of(frag);
            proof {
                lemma_first_occurrence(input@, literal@, cursor as int);
            }
            match find_from(chars.as_slice(), literal.as_slice(), cursor) {
                None => {
                    proof {
                        assert(literal@ == literals[i as int]);
                        assert(place(input@, literals, i as int, cursor as int) is None);
                        assert(locate(input@, literals, i as int, cursor as int) is None);
                    }
                    return Err(MatchError::FragmentNotFound);
                },
                Some(place) => {
                    at = place;
                    if i > 0 {
                        found.push(input.substring_char(cursor, at));
                    }
                    cursor = at + literal.len();
                },
            }
        }
        proof {
            positions = seen.push(at as int);
            lemma_extend_push(seen, at as int, locate(input@, literals, i + 1, cursor as int));
            if i > 0 {
                assert(texts(found@) =~= texts(before).push(found@.last()@));
            }
            assert(texts(found@) =~= gaps(input@, literals, positions));
        }
        i += 1;
    }
    Ok(found)
}

/// Matches `input` against `template`, in which each `{}` marks a capture.
///
/// The template is cut into its literal fragments at the markers, and the
/// fragments are matched against `input` as `match_fragments` does. A
/// matching line yields one capture for each marker of the template, in the
/// order of the markers; the empty template yields the whole of `input` as
/// its one capture.
pub fn split_line<'a>(input: &'a str, template: &str) -> (outcome: Result<
    Vec<&'a str>,
    MatchError,
>)
    ensures
        outcome_texts(outcome) == split_result(input@, template@),
{
    let frags = segment(template);
    match_fragments(input, &frags)
}

/// The fragments stand in `input` at `positions`, one for each, and none
/// begins before the end of the one before it.
pub open spec fn in_order(input: Seq<char>, frags: Seq<Seq<char>>, positions: Seq<int>) -> bool {
    &&& positions.len() == frags.len()
    &&& forall|k: int|
        0 <= k < frags.len() ==> occurs_at(input, frags[k], #[trigger] positions[k])
    &&& forall|k: int|
        0 <= k < frags.len() - 1 ==> positions[k] + frags[k].len() <= #[trigger] positions[k + 1]
}

/// The positions that `locate` finds from fragment `i` on are places at
/// which those fragments stand in `input`, none before `cursor`, and each
/// fragment ends before the next begins.
pub proof fn lemma_locate_from(input: Seq<char>, frags: Seq<Seq<char>>, i: int, cursor: int)
    requires
        0 <= i <= frags.len(),
        0 <= cursor <= input.len(),
        locate(input, frags, i, cursor) is Some,
    ensures
        ({
            let positions = locate(input, frags, i, cursor)->0;
            &&& positions.len() == frags.len() - i
            &&& positions.len() > 0 ==> cursor <= positions[0]
            &&& forall|j: int|
                0 <= j < positions.len() ==> occurs_at(input, frags[i + j], #[trigger] positions[j])
            &&& forall|j: int|
                0 <= j < positions.len() - 1 ==> positions[j] + frags[i + j].len()
                    <= #[trigger] positions[j + 1]
        }),
    decreases frags.len() - i,
{
    if i < frags.len() {
        lemma_first_occurrence(input, frags[i], cursor);
        let at = place(input, frags, i, cursor)->0;
        assert(occurs_at(input, frags[i], at)) by {
            if i + 1 == frags.len() && frags[i].len() == 0 {
                assert(input.subrange(at, at) =~= frags[i]);
            }
        }
        let next = at + frags[i].len();
        lemma_locate_from(input, frags, i + 1, next);
        let rest = locate(input, frags, i + 1, next)->0;
        let positions = locate(input, frags, i, cursor)->0;
        assert(positions == seq![at] + rest);
        assert forall|j: int| 0 <= j < positions.len() implies occurs_at(
            input,
            frags[i + j],
            #[trigger] positions[j],
        ) by {
            if j > 0 {
                assert(positions[j] == rest[j - 1]);
            }
        }
        assert forall|j: int| 0 <= j < positions.len() - 1 implies positions[j] + frags[i
            + j].len() <= #[trigger] positions[j + 1] by {
            assert(positions[j + 1] == rest[j]);
            if j > 0 {
                assert(positions[j] == rest[j - 1]);
                assert(rest[j - 1] + frags[i + 1 + (j - 1)].len() <= rest[(j - 1) + 1]);
            }
        }
    }
}

/// The positions of a match are places at which the fragments stand in
/// the input, from left to right and without overlap: the cursor only advances.
pub proof fn lemma_positions_in_order(input: Seq<char>, frags: Seq<Seq<char>>)
    requires
        locate(input, frags, 0, 0) is Some,
    ensures
        in_order(input, frags, locate(input, frags, 0, 0)->0),
{
    lemma_locate_from(input, frags, 0, 0);
}

/// Nothing followed by `rest` is `rest`.
proof fn lemma_extend_empty(rest: Option<Seq<int>>)
    ensures
        extend(Seq::empty(), rest) == rest,
{
    if let Some(more) = rest {
        assert(Seq::<int>::empty() + more =~= more);
    }
}

/// Taking one more position into `done` is the same as putting it in front of `rest`.
proof fn lemma_extend_push(done: Seq<int>, at: int, rest: Option<Seq<int>>)
    ensures
        extend(done, extend(seq![at], rest)) == extend(done.push(at), rest),
{
    if let Some(more) = rest {
        assert(done + (seq![at] + more) =~= done.push(at) + more);
    }
}

} // verus!
