//! The template segmenter: a template is cut at every placeholder marker
//! into the literal fragments that a line has to hold.

use vstd::prelude::*;
use crate::search::{find_from, first_occurrence, lemma_first_occurrence, occurs_at};
use crate::text::{chars_of, texts};

verus! {

/// The placeholder marker: an opening brace directly followed by a closing one.
pub open spec fn marker() -> Seq<char> {
    seq!['{', '}']
}

/// The fragments of `template` from position `from` on: the pieces between
/// one marker and the next, the last one running to the end of the template.
pub open spec fn fragments_from(template: Seq<char>, from: int) -> Seq<Seq<char>>
    decreases template.len() - from,
{
    match first_occurrence(template, marker(), from) {
        Some(at) => {
            proof {
                lemma_first_occurrence(template, marker(), from);
            }
            seq![template.subrange(from, at)] + fragments_from(template, at + 2)
        },
        None => seq![template.subrange(from, template.len() as int)],
    }
}

/// The literal fragments of `template`, in order. A template without a
/// marker is one fragment; a marker at either end leaves an empty fragment there.
pub open spec fn fragments(template: Seq<char>) -> Seq<Seq<char>> {
    fragments_from(template, 0)
}

/// The number of positions before `upto` at which a marker stands in `template`.
pub open spec fn markers_before(template: Seq<char>, upto: int) -> nat
    decreases upto,
{
    if upto <= 0 {
        0
    } else if occurs_at(template, marker(), upto - 1) {
        markers_before(template, upto - 1) + 1
    } else {
        markers_before(template, upto - 1)
    }
}

/// The number of placeholder markers in `template`.
pub open spec fn marker_count(template: Seq<char>) -> nat {
    markers_before(template, template.len() as int)
}

/// `parts` written one after the other with `separator` between each two.
pub open spec fn join(parts: Seq<Seq<char>>, separator: Seq<char>) -> Seq<char>
    decreases parts.len(),
{
    if parts.len() == 0 {
        Seq::empty()
    } else if parts.len() == 1 {
        parts[0]
    } else {
        parts[0] + separator + join(parts.drop_first(), separator)
    }
}

/// The marker as characters.
fn marker_chars() -> (mark: Vec<char>)
    ensures
        mark@ == marker(),
{
    let mut mark: Vec<char> = Vec::new();
    mark.push('{');
    mark.push('}');
    assert(mark@ =~= marker());
    mark
}

/// Cuts `template` at every placeholder marker and returns the literal
/// fragments between the markers, in order, as slices of `template`.
pub fn segment<'a>(template: &'a str) -> (parts: Vec<&'a str>)
    ensures
        texts(parts@) == fragments(template@),
{
    let chars = chars_of(template);
    let size: usize = chars.len();
    let mark = marker_chars();
    let mut parts: Vec<&'a str> = Vec::new();
    let mut from: usize = 0;
    loop
        invariant
            chars@ == template@,
            mark@ == marker(),
            from <= chars@.len() == size,
            fragments(template@) == texts(parts@) + fragments_from(template@, from as int),
        decreases chars@.len() - from,
    {
        let ghost before = parts@;
        proof {
            lemma_first_occurrence(template@, marker(), from as int);
        }
        match find_from(chars.as_slice(), mark.as_slice(), from) {
            Some(at) => {
                parts.push(template.substring_char(from, at));
                assert(texts(parts@) =~= texts(before) + seq![template@.subrange(from as int, at as int)]);
                from = at + 2;
            },
            None => {
                parts.push(template.substring_char(from, size));
                assert(texts(parts@) =~= texts(before) + seq![
                    template@.subrange(from as int, template@.len() as int),
                ]);
                return parts;
            },
        }
    }
}

/// A marker stands at `at` exactly where an opening brace at `at` is
/// directly followed by a closing one.
pub proof fn lemma_marker_at(template: Seq<char>, at: int)
    ensures
        occurs_at(template, marker(), at) <==> (0 <= at && at + 2 <= template.len() && template[at]
            == '{' && template[at + 1] == '}'),
{
    if 0 <= at && at + 2 <= template.len() {
        let window = template.subrange(at, at + 2);
        assert(window[0] == template[at]);
        assert(window[1] == template[at + 1]);
        if template[at] == '{' && template[at + 1] == '}' {
            assert(window =~= marker());
        }
    }
}

/// Two markers never overlap: directly behind the start of a marker no marker starts.
pub proof fn lemma_markers_apart(template: Seq<char>, at: int)
    requires
        occurs_at(template, marker(), at),
    ensures
        !occurs_at(template, marker(), at + 1),
{
    lemma_marker_at(template, at);
    lemma_marker_at(template, at + 1);
}

/// Where no marker stands between `low` and `high`, as many markers stand
/// before `high` as before `low`.
pub proof fn lemma_markers_before_gap(template: Seq<char>, low: int, high: int)
    requires
        low <= high,
        forall|q: int| low <= q < high ==> !occurs_at(template, marker(), q),
    ensures
        markers_before(template, high) == markers_before(template, low),
    decreases high - low,
{
    if low < high {
        lemma_markers_before_gap(template, low, high - 1);
    }
}

/// A template has at least one fragment.
pub proof fn lemma_fragments_nonempty(template: Seq<char>, from: int)
    ensures
        fragments_from(template, from).len() >= 1,
{
}

/// A template has one fragment more than it has markers.
pub proof fn lemma_fragment_count(template: Seq<char>)
    ensures
        fragments(template).len() == marker_count(template) + 1,
{
    lemma_fragment_count_from(template, 0);
}

/// From any position on, there is one fragment more than there are markers left.
pub proof fn lemma_fragment_count_from(template: Seq<char>, from: int)
    requires
        0 <= from <= template.len(),
    ensures
        fragments_from(template, from).len() + markers_before(template, from) == marker_count(
            template,
        ) + 1,
    decreases template.len() - from,
{
    lemma_first_occurrence(template, marker(), from);
    match first_occurrence(template, marker(), from) {
        Some(at) => {
            lemma_markers_before_gap(template, from, at);
            lemma_markers_apart(template, at);
            assert(markers_before(template, at + 1) == markers_before(template, at) + 1);
            assert(markers_before(template, at + 2) == markers_before(template, at + 1));
            lemma_fragment_count_from(template, at + 2);
        },
        None => {
            lemma_markers_before_gap(template, from, template.len() as int);
        },
    }
}

/// Joining the fragments of a template with the marker gives the template back.
pub proof fn lemma_fragments_rejoin(template: Seq<char>)
    ensures
        join(fragments(template), marker()) == template,
{
    lemma_fragments_rejoin_from(template, 0);
    assert(template.subrange(0, template.len() as int) =~= template);
}

/// Joining the fragments from `from` on with the marker gives the rest of the template.
pub proof fn lemma_fragments_rejoin_from(template: Seq<char>, from: int)
    requires
        0 <= from <= template.len(),
    ensures
        join(fragments_from(template, from), marker()) == template.subrange(
            from,
            template.len() as int,
        ),
    decreases template.len() - from,
{
    lemma_first_occurrence(template, marker(), from);
    match first_occurrence(template, marker(), from) {
        Some(at) => {
            let head = template.subrange(from, at);
            let tail = fragments_from(template, at + 2);
            lemma_fragments_rejoin_from(template, at + 2);
            lemma_fragments_nonempty(template, at + 2);
            assert((seq![head] + tail).drop_first() =~= tail);
            assert(head + marker() + template.subrange(at + 2, template.len() as int)
                =~= template.subrange(from, template.len() as int)) by {
                assert(template.subrange(at, at + 2) == marker());
                assert(template.subrange(from, template.len() as int) =~= head + template.subrange(
                    at,
                    at + 2,
                ) + template.subrange(at + 2, template.len() as int));
            }
        },
        None => {},
    }
}

/// No fragment of a template holds a marker.
pub proof fn lemma_fragments_marker_free(template: Seq<char>, i: int, q: int)
    requires
        0 <= i < fragments(template).len(),
    ensures
        !occurs_at(fragments(template)[i], marker(), q),
{
    lemma_fragments_marker_free_from(template, 0, i, q);
}

/// No fragment from `from` on holds a marker.
pub proof fn lemma_fragments_marker_free_from(template: Seq<char>, from: int, i: int, q: int)
    requires
        0 <= from <= template.len(),
        0 <= i < fragments_from(template, from).len(),
    ensures
        !occurs_at(fragments_from(template, from)[i], marker(), q),
    decreases template.len() - from,
{
    lemma_first_occurrence(template, marker(), from);
    let end = match first_occurrence(template, marker(), from) {
        Some(at) => at,
        None => template.len() as int,
    };
    if i == 0 {
        let piece = template.subrange(from, end);
        assert(fragments_from(template, from)[0] == piece);
        lemma_marker_at(piece, q);
        lemma_marker_at(template, from + q);
        lemma_marker_at(template, end);
    } else {
        let at = first_occurrence(template, marker(), from)->0;
        assert(fragments_from(template, from)[i] == fragments_from(template, at + 2)[i - 1]);
        lemma_fragments_marker_free_from(template, at + 2, i - 1, q);
    }
}

} // verus!
