//! The two searches: the lines of a text that contain a query, with and
//! without regard to letter case.

use vstd::prelude::*;
use vstd::string::*;
use vstd::utf8::*;
use crate::encoding::lemma_occurs_in_encoded;
use crate::fold::{fold_case, folded};
use crate::lines::{after_first_line, first_line_of, lines_of, split_first_line};
use crate::pattern::{bytes_contain, contains, occurs_in};

verus! {

/// The test that a line passes when it contains `query`.
pub open spec fn holds(query: Seq<char>) -> spec_fn(Seq<char>) -> bool {
    |line: Seq<char>| occurs_in(query, line)
}

/// The test that a line passes when its folded form contains the folded form
/// of `query`.
pub open spec fn holds_folded(query: Seq<char>) -> spec_fn(Seq<char>) -> bool {
    |line: Seq<char>| occurs_in(folded(query), folded(line))
}

/// The lines of `contents` that contain `query`, in the order of `contents`.
pub open spec fn matching_lines(query: Seq<char>, contents: Seq<char>) -> Seq<Seq<char>> {
    lines_of(contents).filter(holds(query))
}

/// The lines of `contents` that contain `query` when letter case is ignored,
/// in the order of `contents`.
pub open spec fn matching_lines_folded(query: Seq<char>, contents: Seq<char>) -> Seq<Seq<char>> {
    lines_of(contents).filter(holds_folded(query))
}

/// The characters of each string of `slices`.
pub open spec fn texts(slices: Seq<&str>) -> Seq<Seq<char>> {
    Seq::new(slices.len(), |i: int| slices[i]@)
}

/// Filtering the lines of a text filters its first line and then the rest.
proof fn lemma_filter_first_line(text: Seq<char>, keep: spec_fn(Seq<char>) -> bool)
    requires
        text.len() > 0,
    ensures
        lines_of(text).filter(keep) == (if keep(first_line_of(text)) {
            seq![first_line_of(text)]
        } else {
            Seq::empty()
        }) + lines_of(after_first_line(text)).filter(keep),
{
    let first = seq![first_line_of(text)];
    let rest = lines_of(after_first_line(text));
    Seq::filter_distributes_over_add(first, rest, keep);
    reveal_with_fuel(Seq::filter, 2);
    assert(first.drop_last() =~= Seq::<Seq<char>>::empty());
    assert(first.last() == first_line_of(text));
    assert(Seq::<Seq<char>>::empty().push(first_line_of(text)) =~= first);
    assert(first.filter(keep) =~= if keep(first_line_of(text)) {
        first
    } else {
        Seq::empty()
    });
}

/// The lines of `contents` that contain `query`, character for character, in
/// the order in which they stand in `contents`. Each is a slice of `contents`.
pub fn search<'a>(query: &str, contents: &'a str) -> (results: Vec<&'a str>)
    ensures
        texts(results@) == matching_lines(query@, contents@),
{
    let mut results: Vec<&'a str> = Vec::new();
    let mut rest: &'a str = contents;
    loop
        invariant
            matching_lines(query@, contents@) == texts(results@) + matching_lines(query@, rest@),
        ensures
            texts(results@) == matching_lines(query@, contents@),
        decreases rest@.len(),
    {
        match split_first_line(rest) {
            None => {
                break ;
            },
            Some((line, next)) => {
                proof {
                    lemma_filter_first_line(rest@, holds(query@));
                }
                let ghost before = texts(results@);
                if contains(line, query) {
                    results.push(line);
                    assert(texts(results@) =~= before + seq![line@]);
                }
                assert(matching_lines(query@, contents@) =~= texts(results@) + matching_lines(
                    query@,
                    next@,
                ));
                rest = next;
            },
        }
    }
    results
}

/// The lines of `contents` whose folded form contains the folded form of
/// `query`, in the order in which they stand in `contents`. Each is a slice of
/// `contents`, with its letters as they are written there.
pub fn search_case_insensitive<'a>(query: &str, contents: &'a str) -> (results: Vec<&'a str>)
    ensures
        texts(results@) == matching_lines_folded(query@, contents@),
{
    let folded_query = fold_case(query);
    let mut results: Vec<&'a str> = Vec::new();
    let mut rest: &'a str = contents;
    loop
        invariant
            folded_query@ == encode_utf8(folded(query@)),
            matching_lines_folded(query@, contents@) == texts(results@) + matching_lines_folded(
                query@,
                rest@,
            ),
        ensures
            texts(results@) == matching_lines_folded(query@, contents@),
        decreases rest@.len(),
    {
        match split_first_line(rest) {
            None => {
                break ;
            },
            Some((line, next)) => {
                proof {
                    lemma_filter_first_line(rest@, holds_folded(query@));
                    lemma_occurs_in_encoded(folded(query@), folded(line@));
                }
                let ghost before = texts(results@);
                let folded_line = fold_case(line);
                if bytes_contain(folded_line.as_slice(), folded_query.as_slice()) {
                    results.push(line);
                    assert(texts(results@) =~= before + seq![line@]);
                }
                assert(matching_lines_folded(query@, contents@) =~= texts(results@)
                    + matching_lines_folded(query@, next@));
                rest = next;
            },
        }
    }
    results
}

} // verus!
