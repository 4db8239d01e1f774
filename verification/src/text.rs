//! Text as sequences of characters: comparing, replacing and splitting.

use vstd::prelude::*;
use vstd::std_specs::iter::IteratorSpec;
use vstd::string::*;

verus! {

/// `String::push` of the standard library: the character is appended to the
/// end and nothing else changes.
pub assume_specification[ String::push ](text: &mut String, c: char)
    ensures
        final(text)@ == old(text)@.push(c),
;

/// Whether `text` begins with `prefix`.
pub open spec fn starts_with(text: Seq<char>, prefix: Seq<char>) -> bool {
    prefix.len() <= text.len() && text.subrange(0, prefix.len() as int) == prefix
}

/// `text` with every occurrence of `from` replaced by `to`. Occurrences are
/// found from the left and do not overlap; what was put in is not searched
/// again. The empty text occurs before every character and at the end.
pub open spec fn replaced(text: Seq<char>, from: Seq<char>, to: Seq<char>) -> Seq<char>
    decreases text.len(),
{
    if text.len() == 0 {
        if from.len() == 0 {
            to
        } else {
            text
        }
    } else if from.len() == 0 {
        to + seq![text[0]] + replaced(text.skip(1), from, to)
    } else if starts_with(text, from) {
        to + replaced(text.skip(from.len() as int), from, to)
    } else {
        seq![text[0]] + replaced(text.skip(1), from, to)
    }
}

/// The pieces of `text` between occurrences of `separator`, in order. There
/// is always one piece more than there are separators, so the empty text has
/// one empty piece.
pub open spec fn pieces(text: Seq<char>, separator: char) -> Seq<Seq<char>>
    decreases text.len(),
{
    if text.len() == 0 {
        seq![Seq::<char>::empty()]
    } else {
        let rest = pieces(text.drop_last(), separator);
        if text.last() == separator {
            rest.push(Seq::<char>::empty())
        } else {
            rest.drop_last().push(rest.last().push(text.last()))
        }
    }
}

/// The characters of `text`, one by one.
pub fn chars_of(text: &str) -> (chars: Vec<char>)
    ensures
        chars@ == text@,
{
    broadcast use vstd::string::group_string_axioms;

    let mut chars: Vec<char> = Vec::new();
    let source = text.chars();
    assert(source.remaining() == text@);
    for c in it: source
        invariant
            it.seq() == text@,
            chars@ == text@.subrange(0, it.index()),
    {
        chars.push(c);
    }
    assert(chars@ == text@);
    chars
}

/// The text made of `chars[from..to]`.
pub fn text_of(chars: &Vec<char>, from: usize, to: usize) -> (text: String)
    requires
        from <= to <= chars.len(),
    ensures
        text@ == chars@.subrange(from as int, to as int),
{
    let mut text = String::new();
    let mut i: usize = from;
    while i < to
        invariant
            from <= i <= to <= chars.len(),
            text@ == chars@.subrange(from as int, i as int),
        decreases to - i,
    {
        text.push(chars[i]);
        i += 1;
    }
    text
}

/// Whether the two texts hold the same characters.
pub fn same_text(a: &str, b: &str) -> (same: bool)
    ensures
        same == (a@ == b@),
{
    let left = chars_of(a);
    let right = chars_of(b);
    if left.len() != right.len() {
        return false;
    }
    let mut i: usize = 0;
    while i < left.len()
        invariant
            left.len() == right.len(),
            i <= left.len(),
            left@ == a@,
            right@ == b@,
            left@.subrange(0, i as int) == right@.subrange(0, i as int),
        decreases left.len() - i,
    {
        if left[i] != right[i] {
            assert(a@[i as int] != b@[i as int]);
            return false;
        }
        assert(left@.subrange(0, i + 1) == left@.subrange(0, i as int).push(left@[i as int]));
        assert(right@.subrange(0, i + 1) == right@.subrange(0, i as int).push(right@[i as int]));
        i += 1;
    }
    assert(left@ == left@.subrange(0, left.len() as int));
    assert(right@ == right@.subrange(0, right.len() as int));
    true
}

/// Whether `pattern` stands in `text` at position `at`.
fn found_at(text: &Vec<char>, at: usize, pattern: &Vec<char>) -> (found: bool)
    requires
        at <= text.len(),
    ensures
        found == starts_with(text@.skip(at as int), pattern@),
{
    if pattern.len() > text.len() - at {
        return false;
    }
    let ghost tail = text@.skip(at as int);
    let mut j: usize = 0;
    while j < pattern.len()
        invariant
            at <= text.len(),
            pattern.len() <= text.len() - at,
            j <= pattern.len(),
            tail == text@.skip(at as int),
            tail.subrange(0, j as int) == pattern@.subrange(0, j as int),
        decreases pattern.len() - j,
    {
        if text[at + j] != pattern[j] {
            assert(tail.subrange(0, pattern.len() as int)[j as int] != pattern@[j as int]);
            return false;
        }
        assert(tail.subrange(0, j + 1) == tail.subrange(0, j as int).push(tail[j as int]));
        assert(pattern@.subrange(0, j + 1) == pattern@.subrange(0, j as int).push(
            pattern@[j as int],
        ));
        j += 1;
    }
    assert(pattern@ == pattern@.subrange(0, pattern.len() as int));
    true
}

/// `text` with every occurrence of `from` replaced by `to`.
pub fn replace_all(text: &str, from: &str, to: &str) -> (out: String)
    ensures
        out@ == replaced(text@, from@, to@),
{
    let source = chars_of(text);
    let pattern = chars_of(from);
    let mut out = String::new();
    let mut i: usize = 0;
    assert(source@.skip(0) == source@);
    while i < source.len()
        invariant
            i <= source.len(),
            source@ == text@,
            pattern@ == from@,
            out@ + replaced(source@.skip(i as int), from@, to@) == replaced(text@, from@, to@),
        decreases source.len() - i,
    {
        let ghost tail = source@.skip(i as int);
        let ghost before = out@;
        assert(tail.skip(1) == source@.skip(i + 1));
        if pattern.len() == 0 {
            out.append(to);
            out.push(source[i]);
            assert(out@ + replaced(source@.skip(i + 1), from@, to@) == before + (to@
                + seq![tail[0]] + replaced(tail.skip(1), from@, to@)));
            i += 1;
        } else if found_at(&source, i, &pattern) {
            assert(tail.skip(pattern@.len() as int) == source@.skip(i + pattern@.len()));
            out.append(to);
            assert(out@ + replaced(source@.skip(i + pattern@.len()), from@, to@) == before + (to@
                + replaced(tail.skip(pattern@.len() as int), from@, to@)));
            i += pattern.len();
        } else {
            out.push(source[i]);
            assert(out@ + replaced(source@.skip(i + 1), from@, to@) == before + (seq![tail[0]]
                + replaced(tail.skip(1), from@, to@)));
            i += 1;
        }
    }
    if pattern.len() == 0 {
        out.append(to);
    } else {
        assert(out@ + Seq::<char>::empty() == out@);
    }
    out
}

/// The pieces of `text` between occurrences of `separator`.
pub fn split_on(text: &str, separator: char) -> (parts: Vec<String>)
    ensures
        parts.deep_view() == pieces(text@, separator),
{
    let source = chars_of(text);
    let mut parts: Vec<String> = Vec::new();
    let mut start: usize = 0;
    let mut i: usize = 0;
    assert(source@.subrange(0, 0) == Seq::<char>::empty());
    while i < source.len()
        invariant
            start <= i <= source.len(),
            source@ == text@,
            parts.deep_view().push(source@.subrange(start as int, i as int)) == pieces(
                source@.subrange(0, i as int),
                separator,
            ),
        decreases source.len() - i,
    {
        let ghost seen = source@.subrange(0, i + 1);
        assert(seen.drop_last() == source@.subrange(0, i as int));
        assert(seen.last() == source@[i as int]);
        let ghost open_piece = source@.subrange(start as int, i as int);
        let ghost done = parts.deep_view();
        assert(done.push(open_piece).drop_last() == done);
        if source[i] == separator {
            let piece = text_of(&source, start, i);
            parts.push(piece);
            assert(parts.deep_view() == done.push(open_piece));
            start = i + 1;
            assert(source@.subrange(start as int, i + 1) == Seq::<char>::empty());
        } else {
            assert(source@.subrange(start as int, i + 1) == open_piece.push(source@[i as int]));
        }
        i += 1;
    }
    assert(source@.subrange(0, i as int) == source@);
    let ghost done = parts.deep_view();
    let last = text_of(&source, start, i);
    parts.push(last);
    assert(parts.deep_view() == done.push(source@.subrange(start as int, i as int)));
    parts
}

/// Whether `first` stands at position `at` of `text` with `second` directly
/// behind it.
pub open spec fn pair_at(text: Seq<char>, at: int, first: char, second: char) -> bool {
    0 <= at < text.len() - 1 && text[at] == first && text[at + 1] == second
}

/// Whether `first` stands somewhere in `text` with `second` directly behind
/// it.
pub open spec fn has_pair(text: Seq<char>, first: char, second: char) -> bool {
    exists|at: int| pair_at(text, at, first, second)
}

/// Where a pair of characters does not occur, replacing it changes nothing.
pub proof fn lemma_nothing_to_replace(text: Seq<char>, first: char, second: char, to: Seq<char>)
    requires
        !has_pair(text, first, second),
    ensures
        replaced(text, seq![first, second], to) == text,
    decreases text.len(),
{
    let from = seq![first, second];
    if text.len() > 0 {
        if starts_with(text, from) {
            assert(text.subrange(0, 2)[0] == first);
            assert(text.subrange(0, 2)[1] == second);
            assert(pair_at(text, 0, first, second));
        }
        let rest = text.skip(1);
        assert forall|at: int| !pair_at(rest, at, first, second) by {
            if pair_at(rest, at, first, second) {
                assert(pair_at(text, at + 1, first, second));
            }
        }
        lemma_nothing_to_replace(rest, first, second, to);
        assert(seq![text[0]] + rest == text);
    }
}

/// `text` with every `first` that has `second` behind it replaced, together
/// with that `second`, by the one character `to`.
pub open spec fn pair_replaced(text: Seq<char>, first: char, second: char, to: char) -> Seq<char> {
    replaced(text, seq![first, second], seq![to])
}

/// What can stand behind `first` once every `first` with `second` behind it
/// was replaced by the one character `to`, which is not `first` itself:
/// either `to`, or a character other than `second` that stood behind a
/// `first` before.
pub proof fn lemma_pairs_after_replacing(text: Seq<char>, first: char, second: char, to: char)
    requires
        to != first,
    ensures
        text.len() == 0 ==> pair_replaced(text, first, second, to).len() == 0,
        text.len() > 0 ==> pair_replaced(text, first, second, to).len() > 0 && (pair_replaced(
            text,
            first,
            second,
            to,
        )[0] == to || pair_replaced(text, first, second, to)[0] == text[0]),
        forall|at: int, behind: char|
            #[trigger] pair_at(pair_replaced(text, first, second, to), at, first, behind)
                ==> behind == to || (behind != second && has_pair(text, first, behind)),
    decreases text.len(),
{
    let from = seq![first, second];
    let out = pair_replaced(text, first, second, to);
    if text.len() == 0 {
    } else if starts_with(text, from) {
        let rest = text.skip(2);
        lemma_pairs_after_replacing(rest, first, second, to);
        let inner = pair_replaced(rest, first, second, to);
        assert(out == seq![to] + inner);
        assert forall|at: int, behind: char| #[trigger]
            pair_at(out, at, first, behind) implies behind == to || (behind != second && has_pair(
            text,
            first,
            behind,
        )) by {
            assert(at >= 1);
            assert(pair_at(inner, at - 1, first, behind));
            if has_pair(rest, first, behind) {
                let i = choose|i: int| pair_at(rest, i, first, behind);
                assert(pair_at(text, i + 2, first, behind));
            }
        }
    } else {
        let rest = text.skip(1);
        lemma_pairs_after_replacing(rest, first, second, to);
        let inner = pair_replaced(rest, first, second, to);
        assert(out == seq![text[0]] + inner);
        assert forall|at: int, behind: char| #[trigger]
            pair_at(out, at, first, behind) implies behind == to || (behind != second && has_pair(
            text,
            first,
            behind,
        )) by {
            if at == 0 {
                assert(inner[0] == behind);
                assert(rest.len() > 0);
                if behind != to {
                    assert(rest[0] == behind);
                    assert(text[1] == behind);
                    if behind == second {
                        assert(text.subrange(0, 2) == from);
                    }
                    assert(pair_at(text, 0, first, behind));
                }
            } else {
                assert(pair_at(inner, at - 1, first, behind));
                if has_pair(rest, first, behind) {
                    let i = choose|i: int| pair_at(rest, i, first, behind);
                    assert(pair_at(text, i + 1, first, behind));
                }
            }
        }
    }
}

} // verus!
