//! What holds of the two searches for every query and every text.

use vstd::prelude::*;
use vstd::utf8::is_ascii_chars;
use crate::fold::{ascii_lowercase, folded};
use crate::lines::{after_first_line, first_line_of, lines_of, trim_return};
use crate::pattern::{occurs_at, occurs_in};
use crate::search::{holds, holds_folded, matching_lines, matching_lines_folded, texts};

verus! {

/// The positions in `items` of the items that pass `keep`, in rising order.
pub open spec fn kept_positions<A>(items: Seq<A>, keep: spec_fn(A) -> bool) -> Seq<int>
    decreases items.len(),
{
    if items.len() == 0 {
        Seq::empty()
    } else {
        let before = kept_positions(items.drop_last(), keep);
        if keep(items.last()) {
            before.push(items.len() - 1)
        } else {
            before
        }
    }
}

/// `found` holds exactly the items of `items` that pass `keep`: each item of
/// `found` is the item of `items` at the position listed for it and passes
/// `keep`, the positions rise, and no position of a passing item is missing.
pub open spec fn selects<A>(
    found: Seq<A>,
    items: Seq<A>,
    keep: spec_fn(A) -> bool,
    positions: Seq<int>,
) -> bool {
    &&& positions.len() == found.len()
    &&& forall|i: int|
        0 <= i < found.len() ==> 0 <= #[trigger] positions[i] < items.len() && found[i]
            == items[positions[i]] && keep(found[i])
    &&& forall|i: int, j: int|
        0 <= i < j < found.len() ==> #[trigger] positions[i] < #[trigger] positions[j]
    &&& forall|k: int|
        0 <= k < items.len() && keep(#[trigger] items[k]) ==> exists|i: int|
            0 <= i < found.len() && #[trigger] positions[i] == k
}

/// A filtered sequence holds exactly the passing items, in their order.
pub proof fn lemma_filter_selects<A>(items: Seq<A>, keep: spec_fn(A) -> bool)
    ensures
        selects(items.filter(keep), items, keep, kept_positions(items, keep)),
    decreases items.len(),
{
    reveal(Seq::filter);
    if items.len() > 0 {
        let front = items.drop_last();
        let found = items.filter(keep);
        let positions = kept_positions(items, keep);
        lemma_filter_selects(front, keep);
        let front_found = front.filter(keep);
        let front_positions = kept_positions(front, keep);
        assert forall|k: int| 0 <= k < items.len() && keep(#[trigger] items[k]) implies (exists|i: int|
            0 <= i < found.len() && #[trigger] positions[i] == k) by {
            if k < items.len() - 1 {
                assert(front[k] == items[k]);
                let i = choose|i: int|
                    0 <= i < front_found.len() && #[trigger] front_positions[i] == k;
                assert(positions[i] == k);
            } else {
                assert(positions[found.len() - 1] == k);
            }
        }
        assert forall|i: int| 0 <= i < found.len() implies 0 <= #[trigger] positions[i]
            < items.len() && found[i] == items[positions[i]] && keep(found[i]) by {
            if i < front_found.len() {
                assert(front[front_positions[i]] == items[front_positions[i]]);
            }
        }
    }
}

/// Two tests that agree on every item keep the same items.
proof fn lemma_filter_agree<A>(items: Seq<A>, first: spec_fn(A) -> bool, second: spec_fn(A) -> bool)
    requires
        forall|i: int| 0 <= i < items.len() ==> first(#[trigger] items[i]) == second(items[i]),
    ensures
        items.filter(first) == items.filter(second),
    decreases items.len(),
{
    reveal(Seq::filter);
    if items.len() > 0 {
        let front = items.drop_last();
        assert forall|i: int| 0 <= i < front.len() implies first(#[trigger] front[i]) == second(
            front[i],
        ) by {
            assert(front[i] == items[i]);
        }
        lemma_filter_agree(front, first, second);
        assert(items.last() == items[items.len() - 1]);
    }
}

/// A test that every item passes keeps them all.
proof fn lemma_filter_all<A>(items: Seq<A>, keep: spec_fn(A) -> bool)
    requires
        forall|i: int| 0 <= i < items.len() ==> keep(#[trigger] items[i]),
    ensures
        items.filter(keep) == items,
    decreases items.len(),
{
    reveal(Seq::filter);
    if items.len() > 0 {
        let front = items.drop_last();
        assert forall|i: int| 0 <= i < front.len() implies keep(#[trigger] front[i]) by {
            assert(front[i] == items[i]);
        }
        lemma_filter_all(front, keep);
        assert(items.last() == items[items.len() - 1]);
        assert(front.push(items.last()) =~= items);
    }
}

/// Where the narrow test implies the wide one, filtering by the narrow test is
/// filtering by the wide one and then by the narrow one.
proof fn lemma_filter_refines<A>(items: Seq<A>, narrow: spec_fn(A) -> bool, wide: spec_fn(A) -> bool)
    requires
        forall|i: int| 0 <= i < items.len() && narrow(#[trigger] items[i]) ==> wide(items[i]),
    ensures
        items.filter(narrow) == items.filter(wide).filter(narrow),
        items.filter(narrow).len() <= items.filter(wide).len(),
    decreases items.len(),
{
    reveal(Seq::filter);
    if items.len() > 0 {
        let front = items.drop_last();
        let last = items.last();
        assert forall|i: int| 0 <= i < front.len() && narrow(#[trigger] front[i]) implies wide(
            front[i],
        ) by {
            assert(front[i] == items[i]);
        }
        lemma_filter_refines(front, narrow, wide);
        assert(last == items[items.len() - 1]);
        if wide(last) {
            let kept = front.filter(wide);
            assert(kept.push(last).drop_last() =~= kept);
        }
    }
}

/// The empty text occurs in every text.
pub proof fn lemma_empty_occurs(line: Seq<char>)
    ensures
        occurs_in(Seq::<char>::empty(), line),
{
    assert(line.subrange(0, 0) =~= Seq::<char>::empty());
    assert(occurs_at(Seq::<char>::empty(), line, 0));
}

/// Every line of an ASCII text is ASCII.
proof fn lemma_lines_of_ascii(text: Seq<char>)
    requires
        is_ascii_chars(text),
    ensures
        forall|i: int| 0 <= i < lines_of(text).len() ==> is_ascii_chars(#[trigger] lines_of(text)[i]),
    decreases text.len(),
{
    if text.len() > 0 {
        let first = first_line_of(text);
        let rest = after_first_line(text);
        assert(is_ascii_chars(first) && is_ascii_chars(rest)) by {
            let end = crate::lines::line_end(text) as int;
            if end < text.len() {
                let head = text.take(end);
                assert forall|i: int| 0 <= i < head.len() implies '\0' <= #[trigger] head[i]
                    <= '\u{7f}' by {
                    assert(head[i] == text[i]);
                }
                assert forall|i: int| 0 <= i < trim_return(head).len() implies '\0'
                    <= #[trigger] trim_return(head)[i] <= '\u{7f}' by {
                    assert(trim_return(head)[i] == head[i]);
                }
                assert forall|i: int| 0 <= i < rest.len() implies '\0' <= #[trigger] rest[i]
                    <= '\u{7f}' by {
                    assert(rest[i] == text[i + end + 1]);
                }
            }
        }
        lemma_lines_of_ascii(rest);
        let lines = lines_of(text);
        assert forall|i: int| 0 <= i < lines.len() implies is_ascii_chars(#[trigger] lines[i]) by {
            if i > 0 {
                assert(lines[i] == lines_of(rest)[i - 1]);
            }
        }
    }
}

/// Where folding a line is folding what stands before an occurrence of the
/// query, the query, and what stands after it, each by itself, the folded line
/// contains the folded query.
pub proof fn lemma_folding_keeps_occurrence(query: Seq<char>, line: Seq<char>, at: int)
    requires
        occurs_at(query, line, at),
        folded(line) == folded(line.take(at)) + folded(query) + folded(
            line.skip(at + query.len()),
        ),
    ensures
        occurs_in(folded(query), folded(line)),
{
    let start = folded(line.take(at)).len() as int;
    assert(folded(line).subrange(start, start + folded(query).len()) =~= folded(query));
    assert(occurs_at(folded(query), folded(line), start));
}

/// An ASCII line that contains an ASCII query contains it when case is ignored.
pub proof fn lemma_ascii_occurrence_folds(query: Seq<char>, line: Seq<char>)
    requires
        is_ascii_chars(query),
        is_ascii_chars(line),
        occurs_in(query, line),
    ensures
        occurs_in(folded(query), folded(line)),
{
    let at = choose|at: int| occurs_at(query, line, at);
    let before = line.take(at);
    let after = line.skip(at + query.len());
    assert(is_ascii_chars(before)) by {
        assert forall|i: int| 0 <= i < before.len() implies '\0' <= #[trigger] before[i]
            <= '\u{7f}' by {
            assert(before[i] == line[i]);
        }
    }
    assert(is_ascii_chars(after)) by {
        assert forall|i: int| 0 <= i < after.len() implies '\0' <= #[trigger] after[i]
            <= '\u{7f}' by {
            assert(after[i] == line[i + at + query.len()]);
        }
    }
    assert(ascii_lowercase(line) =~= ascii_lowercase(before) + ascii_lowercase(query)
        + ascii_lowercase(after)) by {
        assert(line =~= before + query + after);
    }
    lemma_folding_keeps_occurrence(query, line, at);
}

/// A search finds exactly the lines of the text that contain the query: every
/// line found is a line of the text and contains the query, every line of the
/// text that contains the query is found, as often as it stands there, and the
/// lines found stand in the order of the text.
pub proof fn lemma_search_finds_exactly(query: Seq<char>, contents: Seq<char>)
    ensures
        selects(
            matching_lines(query, contents),
            lines_of(contents),
            holds(query),
            kept_positions(lines_of(contents), holds(query)),
        ),
        forall|i: int|
            0 <= i < matching_lines(query, contents).len() ==> occurs_in(
                query,
                #[trigger] matching_lines(query, contents)[i],
            ),
{
    lemma_filter_selects(lines_of(contents), holds(query));
}

/// A search that ignores case finds exactly the lines of the text whose folded
/// form contains the folded query, each as it is written, as often as it
/// stands in the text and in the order of the text.
pub proof fn lemma_search_case_insensitive_finds_exactly(query: Seq<char>, contents: Seq<char>)
    ensures
        selects(
            matching_lines_folded(query, contents),
            lines_of(contents),
            holds_folded(query),
            kept_positions(lines_of(contents), holds_folded(query)),
        ),
        forall|i: int|
            0 <= i < matching_lines_folded(query, contents).len() ==> occurs_in(
                folded(query),
                folded(#[trigger] matching_lines_folded(query, contents)[i]),
            ),
{
    lemma_filter_selects(lines_of(contents), holds_folded(query));
}

/// Every line of `contents` that contains `query` still contains it after
/// both are folded.
pub open spec fn folding_keeps_matches(query: Seq<char>, contents: Seq<char>) -> bool {
    forall|i: int|
        0 <= i < lines_of(contents).len() && occurs_in(query, #[trigger] lines_of(contents)[i])
            ==> occurs_in(folded(query), folded(lines_of(contents)[i]))
}

/// Ignoring case only adds lines, wherever folding keeps the matches: what
/// the exact search finds is what the search that ignores case finds, less the
/// lines that do not contain the query as it is written.
///
/// Folding does not keep every match. The lowercase form of a text depends on
/// more than one character at a time, so a query can be part of a line while
/// the folded query is no part of the folded line.
pub proof fn lemma_ignoring_case_finds_more(query: Seq<char>, contents: Seq<char>)
    requires
        folding_keeps_matches(query, contents),
    ensures
        matching_lines(query, contents) == matching_lines_folded(query, contents).filter(
            holds(query),
        ),
        matching_lines(query, contents).len() <= matching_lines_folded(query, contents).len(),
{
    let lines = lines_of(contents);
    assert forall|i: int| 0 <= i < lines.len() && holds(query)(#[trigger] lines[i]) implies
        holds_folded(query)(lines[i]) by {}
    lemma_filter_refines(lines, holds(query), holds_folded(query));
}

/// In ASCII text folding keeps the matches, so there ignoring case only adds
/// lines.
pub proof fn lemma_ignoring_case_finds_more_in_ascii(query: Seq<char>, contents: Seq<char>)
    requires
        is_ascii_chars(query),
        is_ascii_chars(contents),
    ensures
        folding_keeps_matches(query, contents),
        matching_lines(query, contents) == matching_lines_folded(query, contents).filter(
            holds(query),
        ),
        matching_lines(query, contents).len() <= matching_lines_folded(query, contents).len(),
{
    let lines = lines_of(contents);
    lemma_lines_of_ascii(contents);
    assert forall|i: int| 0 <= i < lines.len() && occurs_in(query, #[trigger] lines[i]) implies
        occurs_in(folded(query), folded(lines[i])) by {
        lemma_ascii_occurrence_folds(query, lines[i]);
    }
    lemma_ignoring_case_finds_more(query, contents);
}

/// Two queries with the same folded form find the same lines when case is
/// ignored.
pub proof fn lemma_case_of_query_is_ignored(first: Seq<char>, second: Seq<char>, contents: Seq<char>)
    requires
        folded(first) == folded(second),
    ensures
        matching_lines_folded(first, contents) == matching_lines_folded(second, contents),
{
    lemma_filter_agree(lines_of(contents), holds_folded(first), holds_folded(second));
}

/// A search is a function of its inputs: two results for the same query and
/// the same text hold the same lines, one by one.
pub proof fn lemma_search_repeats(
    first: Seq<&str>,
    second: Seq<&str>,
    query: Seq<char>,
    contents: Seq<char>,
)
    requires
        texts(first) == matching_lines(query, contents),
        texts(second) == matching_lines(query, contents),
    ensures
        first.len() == second.len(),
        forall|i: int| 0 <= i < first.len() ==> first[i]@ == second[i]@,
{
    assert(texts(first).len() == first.len() && texts(second).len() == second.len());
    assert forall|i: int| 0 <= i < first.len() implies first[i]@ == second[i]@ by {
        assert(texts(first)[i] == texts(second)[i]);
    }
}

/// A search that ignores case is a function of its inputs as well.
pub proof fn lemma_search_case_insensitive_repeats(
    first: Seq<&str>,
    second: Seq<&str>,
    query: Seq<char>,
    contents: Seq<char>,
)
    requires
        texts(first) == matching_lines_folded(query, contents),
        texts(second) == matching_lines_folded(query, contents),
    ensures
        first.len() == second.len(),
        forall|i: int| 0 <= i < first.len() ==> first[i]@ == second[i]@,
{
    assert(texts(first).len() == first.len() && texts(second).len() == second.len());
    assert forall|i: int| 0 <= i < first.len() implies first[i]@ == second[i]@ by {
        assert(texts(first)[i] == texts(second)[i]);
    }
}

/// An empty text has no lines, so no search finds anything in it.
pub proof fn lemma_nothing_in_empty_text(query: Seq<char>)
    ensures
        lines_of(Seq::<char>::empty()).len() == 0,
        matching_lines(query, Seq::<char>::empty()).len() == 0,
        matching_lines_folded(query, Seq::<char>::empty()).len() == 0,
{
}

/// The empty query is found in every line, whether case counts or not.
pub proof fn lemma_empty_query_finds_all(contents: Seq<char>)
    ensures
        matching_lines(Seq::<char>::empty(), contents) == lines_of(contents),
        matching_lines_folded(Seq::<char>::empty(), contents) == lines_of(contents),
{
    let lines = lines_of(contents);
    let nothing = Seq::<char>::empty();
    assert(folded(nothing) =~= nothing);
    assert forall|i: int| 0 <= i < lines.len() implies holds(nothing)(#[trigger] lines[i])
        && holds_folded(nothing)(lines[i]) by {
        lemma_empty_occurs(lines[i]);
        lemma_empty_occurs(folded(lines[i]));
    }
    lemma_filter_all(lines, holds(nothing));
    lemma_filter_all(lines, holds_folded(nothing));
}

} // verus!
