//! Character-level text handling: conversion between strings and character
//! vectors, splitting a report into lines, and substring search.

use vstd::prelude::*;

verus! {

/// `String::push` appends one character to the end of the string.
pub assume_specification[ String::push ](s: &mut String, c: char)
    ensures
        final(s)@ == old(s)@.push(c),
;

/// Whether `text` holds no line feed.
pub open spec fn no_line_feed(text: Seq<char>) -> bool {
    forall|i: int| 0 <= i < text.len() ==> text[i] != '\n'
}

/// Position of the first line feed of `text`, or its length when it has none.
pub open spec fn line_end(text: Seq<char>) -> nat
    decreases text.len(),
{
    if text.len() == 0 || text[0] == '\n' {
        0
    } else {
        1 + line_end(text.drop_first())
    }
}

/// `line` without one trailing carriage return, if it ends in one.
pub open spec fn without_carriage_return(line: Seq<char>) -> Seq<char> {
    if line.len() > 0 && line.last() == '\r' {
        line.drop_last()
    } else {
        line
    }
}

/// The lines of `text`.
///
/// A line ends at a line feed, or at a carriage return directly followed by a
/// line feed; the terminator is not part of the line. The last line needs no
/// terminator, and a terminator at the very end of the text opens no further
/// line. A carriage return that is not followed by a line feed stays in its
/// line.
pub open spec fn lines_of(text: Seq<char>) -> Seq<Seq<char>>
    decreases text.len(),
{
    let end = line_end(text);
    if text.len() == 0 {
        Seq::empty()
    } else if end >= text.len() {
        seq![text]
    } else {
        seq![without_carriage_return(text.take(end as int))] + lines_of(text.skip(end as int + 1))
    }
}

/// Whether `needle` stands in `text` at position `at`.
pub open spec fn occurs_at(text: Seq<char>, needle: Seq<char>, at: int) -> bool {
    &&& 0 <= at
    &&& at + needle.len() <= text.len()
    &&& text.subrange(at, at + needle.len()) == needle
}

/// Whether `needle` stands somewhere in `text`. The empty needle stands in
/// every text.
pub open spec fn contains(text: Seq<char>, needle: Seq<char>) -> bool {
    exists|at: int| occurs_at(text, needle, at)
}

/// The characters of `s`, in order.
pub fn chars_of(s: &str) -> (chars: Vec<char>)
    ensures
        chars@ == s@,
{
    let mut chars: Vec<char> = Vec::new();
    for c in it: s.chars()
        invariant
            it.seq() == s@,
            chars@ == s@.take(it.index()),
    {
        chars.push(c);
    }
    chars
}

/// The string made of `chars`, in order.
pub fn string_of(chars: &Vec<char>) -> (s: String)
    ensures
        s@ == chars@,
{
    let mut s = String::new();
    let mut i: usize = 0;
    while i < chars.len()
        invariant
            i <= chars.len(),
            s@ == chars@.take(i as int),
        decreases chars.len() - i,
    {
        s.push(chars[i]);
        i += 1;
    }
    s
}

/// Splits `text` into its lines, as [`lines_of`] defines them.
pub fn split_lines(text: &str) -> (lines: Vec<String>)
    ensures
        lines.deep_view() == lines_of(text@),
{
    let mut lines: Vec<String> = Vec::new();
    let mut current: Vec<char> = Vec::new();
    proof {
        assert(lines.deep_view() =~= Seq::<Seq<char>>::empty());
        assert(current@ + text@.skip(0) =~= text@);
        assert(lines.deep_view() + lines_of(text@) =~= lines_of(text@));
    }
    for c in it: text.chars()
        invariant
            it.seq() == text@,
            no_line_feed(current@),
            lines_of(text@) == lines.deep_view() + lines_of(current@ + text@.skip(it.index())),
    {
        let ghost before = lines.deep_view();
        let ghost rest = text@.skip(it.index());
        let ghost after = text@.skip(it.index() + 1);
        assert(rest =~= seq![c] + after);
        if c == '\n' {
            proof {
                lemma_lines_of_terminated(current@, after);
                assert(current@ + rest =~= current@ + seq!['\n'] + after);
            }
            let n = current.len();
            if n > 0 && current[n - 1] == '\r' {
                current.pop();
            }
            let line = string_of(&current);
            lines.push(line);
            current = Vec::new();
            proof {
                assert(lines.deep_view() =~= before.push(line@));
                assert(Seq::<char>::empty() + after =~= after);
                assert(before + (seq![line@] + lines_of(after)) =~= before.push(line@) + lines_of(
                    after,
                ));
            }
        } else {
            let ghost line_before = current@;
            current.push(c);
            assert(current@ + after =~= line_before + rest);
        }
    }
    proof {
        assert(text@.skip(text@.len() as int) =~= Seq::<char>::empty());
        assert(current@ + Seq::<char>::empty() =~= current@);
        lemma_lines_of_single(current@);
    }
    if current.len() > 0 {
        let ghost before = lines.deep_view();
        let line = string_of(&current);
        lines.push(line);
        assert(lines.deep_view() =~= before.push(line@));
        assert(before + seq![line@] =~= before.push(line@));
    } else {
        assert(lines.deep_view() + Seq::<Seq<char>>::empty() =~= lines.deep_view());
    }
    lines
}

/// Tests whether `needle` stands in `text` at position `at`.
fn matches_at(text: &Vec<char>, needle: &Vec<char>, at: usize) -> (found: bool)
    requires
        at + needle.len() <= text.len(),
    ensures
        found == occurs_at(text@, needle@, at as int),
{
    let mut k: usize = 0;
    while k < needle.len()
        invariant
            k <= needle.len(),
            at + needle.len() <= text.len(),
            forall|j: int| 0 <= j < k ==> text@[at + j] == needle@[j],
        decreases needle.len() - k,
    {
        if text[at + k] != needle[k] {
            assert(text@.subrange(at as int, at + needle.len())[k as int] == text@[at + k]);
            return false;
        }
        k += 1;
    }
    assert(text@.subrange(at as int, at + needle.len()) =~= needle@);
    true
}

/// Tests whether `needle` stands somewhere in `text`.
pub fn contains_str(text: &str, needle: &str) -> (found: bool)
    ensures
        found == contains(text@, needle@),
{
    let hay = chars_of(text);
    let pat = chars_of(needle);
    if pat.len() > hay.len() {
        return false;
    }
    let last = hay.len() - pat.len();
    let mut at: usize = 0;
    loop
        invariant
            hay@ == text@,
            pat@ == needle@,
            last == hay.len() - pat.len(),
            at <= last,
            forall|j: int| 0 <= j < at ==> !occurs_at(hay@, pat@, j),
        decreases last - at,
    {
        if matches_at(&hay, &pat, at) {
            assert(occurs_at(text@, needle@, at as int));
            return true;
        }
        if at == last {
            return false;
        }
        at += 1;
    }
}

/// `line_end` is the place of the first line feed: no line feed stands before
/// it, and one stands at it unless it is the end of the text.
pub proof fn lemma_line_end_is_first(text: Seq<char>)
    ensures
        line_end(text) <= text.len(),
        no_line_feed(text.take(line_end(text) as int)),
        line_end(text) < text.len() ==> text[line_end(text) as int] == '\n',
    decreases text.len(),
{
    if text.len() > 0 && text[0] != '\n' {
        let rest = text.drop_first();
        lemma_line_end_is_first(rest);
        let end = line_end(text) as int;
        assert forall|i: int| 0 <= i < end implies text.take(end)[i] != '\n' by {
            if i > 0 {
                assert(text[i] == rest.take(end - 1)[i - 1]);
            }
        }
        if end < text.len() {
            assert(text[end] == rest[end - 1]);
        }
    }
}

/// No line holds a line feed.
pub proof fn lines_hold_no_line_feed(text: Seq<char>)
    ensures
        forall|n: int| 0 <= n < lines_of(text).len() ==> no_line_feed(#[trigger] lines_of(text)[n]),
    decreases text.len(),
{
    let end = line_end(text);
    lemma_line_end_is_first(text);
    if text.len() == 0 {
    } else if end >= text.len() {
        assert(text.take(end as int) =~= text);
    } else {
        let first = without_carriage_return(text.take(end as int));
        let rest = text.skip(end as int + 1);
        lines_hold_no_line_feed(rest);
        assert forall|i: int| 0 <= i < first.len() implies first[i] != '\n' by {
            assert(first[i] == text.take(end as int)[i]);
        }
        assert forall|n: int| 0 <= n < lines_of(text).len() implies no_line_feed(
            #[trigger] lines_of(text)[n],
        ) by {
            if n > 0 {
                assert(lines_of(text)[n] == lines_of(rest)[n - 1]);
            }
        }
    }
}

/// The first line feed of a text that begins with a part free of line feeds
/// is the first line feed of what follows that part.
pub proof fn lemma_line_end_after_prefix(head: Seq<char>, tail: Seq<char>)
    requires
        no_line_feed(head),
    ensures
        line_end(head + tail) == head.len() + line_end(tail),
    decreases head.len(),
{
    if head.len() == 0 {
        assert(head + tail =~= tail);
    } else {
        let whole = head + tail;
        assert(whole[0] == head[0]);
        assert(whole.drop_first() =~= head.drop_first() + tail);
        lemma_line_end_after_prefix(head.drop_first(), tail);
    }
}

/// A text without line feeds is a single line, or no line when it is empty.
pub proof fn lemma_lines_of_single(text: Seq<char>)
    requires
        no_line_feed(text),
    ensures
        lines_of(text) == if text.len() == 0 {
            Seq::<Seq<char>>::empty()
        } else {
            seq![text]
        },
{
    lemma_line_end_after_prefix(text, Seq::empty());
    assert(text + Seq::<char>::empty() =~= text);
}

/// The lines of a text whose first line feed comes right after `head`.
pub proof fn lemma_lines_of_terminated(head: Seq<char>, tail: Seq<char>)
    requires
        no_line_feed(head),
    ensures
        lines_of(head + seq!['\n'] + tail) == seq![without_carriage_return(head)] + lines_of(tail),
{
    let rest = seq!['\n'] + tail;
    let whole = head + seq!['\n'] + tail;
    assert(whole =~= head + rest);
    lemma_line_end_after_prefix(head, rest);
    assert(line_end(rest) == 0);
    assert(whole.take(head.len() as int) =~= head);
    assert(whole.skip(head.len() as int + 1) =~= tail);
}

} // verus!
