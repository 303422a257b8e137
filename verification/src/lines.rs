//! Text as lines, and the lines turned round.

use vstd::prelude::*;
use crate::scan::{first_index, lemma_first_index, lemma_first_index_found, to_chars};

verus! {

/// Where the first line of a text ends: at its first line feed, or at the end of the text.
pub open spec fn line_end(text: Seq<char>) -> int {
    first_index(text, |c: char| c == '\n')
}

/// The first line of a text that holds one: what stands before the first line feed, without
/// the carriage return that may stand directly before that line feed.
pub open spec fn first_line(text: Seq<char>) -> Seq<char> {
    let end = line_end(text);
    if 0 < end < text.len() && text[end - 1] == '\r' {
        text.take(end - 1)
    } else {
        text.take(end)
    }
}

/// The lines of a text. A line ends at a line feed, or at a carriage return directly followed
/// by one, or with the text; the line does not hold what ends it. A text that ends with a
/// line ending has no empty line behind it.
pub open spec fn text_lines(text: Seq<char>) -> Seq<Seq<char>>
    decreases text.len(),
    via text_lines_decreases
{
    if text.len() == 0 {
        Seq::empty()
    } else if line_end(text) < text.len() {
        seq![first_line(text)] + text_lines(text.skip(line_end(text) + 1))
    } else {
        seq![first_line(text)]
    }
}

#[via_fn]
proof fn text_lines_decreases(text: Seq<char>) {
    lemma_first_index_found(text, |c: char| c == '\n');
}

/// The lines put out last to first, each ended by a line feed.
pub open spec fn lines_backwards(lines: Seq<Seq<char>>) -> Seq<char>
    decreases lines.len(),
{
    if lines.len() == 0 {
        Seq::empty()
    } else {
        lines.last().push('\n') + lines_backwards(lines.drop_last())
    }
}

/// The places of the lines of `chars`: for each line where it starts and where it stops.
spec fn lines_at(chars: Seq<char>, places: Seq<(usize, usize)>) -> Seq<Seq<char>> {
    Seq::new(places.len(), |i: int| chars.subrange(places[i].0 as int, places[i].1 as int))
}

/// Finds the lines of `chars`.
fn find_lines(chars: &Vec<char>) -> (places: Vec<(usize, usize)>)
    ensures
        forall|i: int|
            0 <= i < places@.len() ==> (#[trigger] places@[i]).0 <= places@[i].1 <= chars@.len(),
        lines_at(chars@, places@) == text_lines(chars@),
{
    let mut places: Vec<(usize, usize)> = Vec::new();
    let len = chars.len();
    let mut start: usize = 0;
    assert(chars@.skip(0) =~= chars@);
    assert(lines_at(chars@, places@) =~= Seq::<Seq<char>>::empty());
    while start < len
        invariant
            start <= len,
            len == chars@.len(),
            forall|i: int|
                0 <= i < places@.len() ==> (#[trigger] places@[i]).0 <= places@[i].1
                    <= chars@.len(),
            text_lines(chars@) == lines_at(chars@, places@) + text_lines(chars@.skip(start as int)),
        decreases len - start,
    {
        let ghost rest = chars@.skip(start as int);
        let ghost done = lines_at(chars@, places@);
        let mut end = start;
        while end < len && chars[end] != '\n'
            invariant
                start <= end <= len,
                len == chars@.len(),
                forall|j: int| start <= j < end ==> chars@[j] != '\n',
            decreases len - end,
        {
            end += 1;
        }
        proof {
            assert forall|j: int| 0 <= j < end - start implies !(|c: char| c == '\n')(
                #[trigger] rest[j],
            ) by {
                assert(rest[j] == chars@[start + j]);
            }
            lemma_first_index(rest, |c: char| c == '\n', end - start);
        }
        let stop = if end < len && end > start && chars[end - 1] == '\r' {
            end - 1
        } else {
            end
        };
        places.push((start, stop));
        proof {
            assert(first_line(rest) =~= chars@.subrange(start as int, stop as int));
            assert(lines_at(chars@, places@) =~= done + seq![first_line(rest)]);
            if end < len {
                assert(rest.skip(end - start + 1) =~= chars@.skip(end + 1));
            } else {
                assert(chars@.skip(len as int) =~= Seq::<char>::empty());
            }
        }
        start = if end < len {
            end + 1
        } else {
            len
        };
    }
    assert(chars@.skip(len as int) =~= Seq::<char>::empty());
    assert(lines_at(chars@, places@) + Seq::<Seq<char>>::empty() =~= lines_at(chars@, places@));
    places
}

/// Puts the lines of a text in the opposite order. Each line of the result ends with a line
/// feed, whatever ended it in the text.
pub fn reverse_lines(text: &str) -> (turned: String)
    ensures
        turned@ == lines_backwards(text_lines(text@)),
{
    let chars = to_chars(text);
    let places = find_lines(&chars);
    let ghost lines = text_lines(text@);
    let mut turned = String::new();
    let mut left = places.len();
    assert(lines.take(left as int) =~= lines);
    while left > 0
        invariant
            left <= places@.len(),
            chars@ == text@,
            lines == text_lines(text@),
            lines == lines_at(chars@, places@),
            forall|i: int|
                0 <= i < places@.len() ==> (#[trigger] places@[i]).0 <= places@[i].1
                    <= chars@.len(),
            turned@ + lines_backwards(lines.take(left as int)) == lines_backwards(lines),
        decreases left,
    {
        let ghost before = turned@;
        let (start, stop) = places[left - 1];
        let mut at = start;
        while at < stop
            invariant
                start <= at <= stop <= chars@.len(),
                turned@ == before + chars@.subrange(start as int, at as int),
            decreases stop - at,
        {
            turned.push(chars[at]);
            at += 1;
            assert(turned@ =~= before + chars@.subrange(start as int, at as int));
        }
        turned.push('\n');
        proof {
            let upto = lines.take(left as int);
            assert(upto.last() == chars@.subrange(start as int, stop as int));
            assert(upto.drop_last() =~= lines.take(left - 1));
            assert(turned@ =~= before + upto.last().push('\n'));
            assert(turned@ + lines_backwards(lines.take(left - 1)) =~= before + lines_backwards(
                upto,
            ));
        }
        left -= 1;
    }
    assert(lines.take(0) =~= Seq::<Seq<char>>::empty());
    assert(turned@ =~= turned@ + Seq::<char>::empty());
    turned
}

} // verus!
