//! The lines of a text.
use vstd::prelude::*;

use crate::shell_text;
use crate::shell_text::end_of_line;
use crate::strings;
use crate::strings::{chars_of, cut_string, CharClass};

verus! {

/// A line without its line feed, and without a carriage return before that.
pub open spec fn bare_line(line: Seq<char>) -> Seq<char> {
    if line.len() > 0 && line.last() == '\n' {
        let rest = line.drop_last();
        if rest.len() > 0 && rest.last() == '\r' {
            rest.drop_last()
        } else {
            rest
        }
    } else {
        line
    }
}

/// The lines of a text from `from` on, without their ends. A line feed at the
/// end of the text starts no further line.
pub open spec fn lines_from(text: Seq<char>, from: int) -> Seq<Seq<char>>
    decreases text.len() - from,
{
    if from < 0 || from >= text.len() {
        Seq::empty()
    } else {
        proof {
            strings::lemma_find_class_bounds(text, CharClass::Only('\n'), from);
        }
        let end = shell_text::line_end(text, from);
        seq![bare_line(text.subrange(from, end))] + lines_from(text, end)
    }
}

pub open spec fn text_lines(text: Seq<char>) -> Seq<Seq<char>> {
    lines_from(text, 0)
}

/// The line from `from` up to `end`, without its end.
pub fn bare_line_of(chars: &[char], from: usize, end: usize) -> (line: String)
    requires
        from <= end <= chars.len(),
    ensures
        line@ == bare_line(chars@.subrange(from as int, end as int)),
{
    let mut to: usize = end;
    if to > from && chars[to - 1] == '\n' {
        to -= 1;
        if to > from && chars[to - 1] == '\r' {
            to -= 1;
        }
    }
    let line = cut_string(chars, from, to);
    assert(line@ =~= bare_line(chars@.subrange(from as int, end as int)));
    line
}

/// The lines of a text.
pub fn lines_of(text: &str) -> (lines: Vec<String>)
    ensures
        strings::texts(lines@) == text_lines(text@),
{
    let chars = chars_of(text);
    let mut lines: Vec<String> = Vec::new();
    let mut at: usize = 0;
    assert(strings::texts(lines@) + lines_from(text@, 0) =~= lines_from(text@, 0));
    while at < chars.len()
        invariant
            chars@ == text@,
            at <= chars.len(),
            strings::texts(lines@) + lines_from(text@, at as int) == text_lines(text@),
        decreases chars.len() - at,
    {
        let ghost before = lines@;
        let end = end_of_line(&chars, at);
        let line = bare_line_of(&chars, at, end);
        lines.push(line);
        assert(strings::texts(lines@) =~= strings::texts(before).push(line@));
        assert(strings::texts(lines@) + lines_from(text@, end as int) =~= strings::texts(before) + (
        seq![line@] + lines_from(text@, end as int)));
        at = end;
    }
    assert(strings::texts(lines@) + lines_from(text@, at as int) =~= strings::texts(lines@));
    lines
}

proof fn lemma_find_behind(a: Seq<char>, b: Seq<char>, class: CharClass, from: int)
    requires
        0 <= from <= b.len(),
    ensures
        strings::find_class(a + b, class, a.len() + from) == a.len() + strings::find_class(
            b,
            class,
            from,
        ),
    decreases b.len() - from,
{
    if from < b.len() {
        assert((a + b)[a.len() + from] == b[from]);
        lemma_find_behind(a, b, class, from + 1);
    }
}

proof fn lemma_find_in_front(a: Seq<char>, b: Seq<char>, class: CharClass, from: int)
    requires
        0 <= from < a.len(),
        strings::in_class(class, a.last()),
    ensures
        strings::find_class(a + b, class, from) == strings::find_class(a, class, from),
        from <= strings::find_class(a, class, from) < a.len(),
    decreases a.len() - from,
{
    assert((a + b)[from] == a[from]);
    if !strings::in_class(class, a[from]) {
        lemma_find_in_front(a, b, class, from + 1);
    }
}

proof fn lemma_lines_behind(a: Seq<char>, b: Seq<char>, from: int)
    requires
        0 <= from <= b.len(),
    ensures
        lines_from(a + b, a.len() + from) == lines_from(b, from),
    decreases b.len() - from,
{
    if from < b.len() {
        lemma_find_behind(a, b, CharClass::Only('\n'), from);
        strings::lemma_find_class_bounds(b, CharClass::Only('\n'), from);
        let end = shell_text::line_end(b, from);
        assert(shell_text::line_end(a + b, a.len() + from) == a.len() + end);
        assert((a + b).subrange(a.len() + from, a.len() + end) =~= b.subrange(from, end));
        lemma_lines_behind(a, b, end);
    }
}

proof fn lemma_lines_split_from(a: Seq<char>, b: Seq<char>, from: int)
    requires
        0 <= from <= a.len(),
        a.len() > 0,
        a.last() == '\n',
    ensures
        lines_from(a + b, from) == lines_from(a, from) + lines_from(b, 0),
    decreases a.len() - from,
{
    if from < a.len() {
        lemma_find_in_front(a, b, CharClass::Only('\n'), from);
        let end = shell_text::line_end(a, from);
        assert(shell_text::line_end(a + b, from) == end);
        assert((a + b).subrange(from, end) =~= a.subrange(from, end));
        lemma_lines_split_from(a, b, end);
        assert(lines_from(a + b, from) =~= lines_from(a, from) + lines_from(b, 0));
    } else {
        lemma_lines_behind(a, b, 0);
        assert(lines_from(a, from) + lines_from(b, 0) =~= lines_from(b, 0));
    }
}

/// The lines of texts laid end to end, where the first of them ends its last line.
pub proof fn lines_of_joined_texts(a: Seq<char>, b: Seq<char>)
    requires
        a.len() == 0 || a.last() == '\n',
    ensures
        text_lines(a + b) == text_lines(a) + text_lines(b),
{
    if a.len() == 0 {
        assert(a + b =~= b);
        assert(text_lines(a) + text_lines(b) =~= text_lines(b));
    } else {
        lemma_lines_split_from(a, b, 0);
    }
}

proof fn lemma_no_line_feed(text: Seq<char>, from: int)
    requires
        0 <= from <= text.len(),
        forall|i: int| 0 <= i < text.len() ==> #[trigger] text[i] != '\n',
    ensures
        strings::find_class(text, CharClass::Only('\n'), from) == text.len(),
        strings::find_class(text.push('\n'), CharClass::Only('\n'), from) == text.len(),
    decreases text.len() - from,
{
    if from < text.len() {
        assert(text.push('\n')[from] == text[from]);
        lemma_no_line_feed(text, from + 1);
    } else {
        assert(text.push('\n')[from] == '\n');
    }
}

/// A line with its line feed is one line.
pub proof fn line_of_ended_text(line: Seq<char>)
    requires
        forall|i: int| 0 <= i < line.len() ==> #[trigger] line[i] != '\n',
        line.len() > 0 ==> line.last() != '\r',
    ensures
        text_lines(line.push('\n')) == seq![line],
{
    let text = line.push('\n');
    lemma_no_line_feed(line, 0);
    assert(shell_text::line_end(text, 0) == text.len());
    assert(text.subrange(0, text.len() as int) =~= text);
    assert(text.drop_last() =~= line);
    assert(lines_from(text, text.len() as int) =~= Seq::empty());
    assert(text_lines(text) =~= seq![line]);
}

proof fn lemma_lines_of_ended_from(text: Seq<char>, from: int)
    requires
        0 <= from <= text.len(),
        text.len() > 0,
        text.last() != '\n',
        text.last() != '\r',
    ensures
        from < text.len() ==> lines_from(text.push('\n'), from) == lines_from(text, from),
    decreases text.len() - from,
{
    if from < text.len() {
        let more = text.push('\n');
        let class = CharClass::Only('\n');
        strings::lemma_find_class_bounds(text, class, from);
        lemma_find_pushed(text, from);
        let end = strings::find_class(text, class, from);
        if end < text.len() {
            assert(more.subrange(from, end + 1) =~= text.subrange(from, end + 1));
            lemma_find_is_in_class(text, class, from);
            assert(end + 1 < text.len());
            lemma_lines_of_ended_from(text, end + 1);
        } else {
            let line = text.subrange(from, text.len() as int);
            assert(more.subrange(from, more.len() as int) =~= line.push('\n'));
            assert(line.push('\n').drop_last() =~= line);
            assert(line.last() == text.last());
            assert(lines_from(more, more.len() as int) =~= Seq::empty());
            assert(lines_from(text, text.len() as int) =~= Seq::empty());
        }
    }
}

proof fn lemma_find_pushed(text: Seq<char>, from: int)
    requires
        0 <= from <= text.len(),
    ensures
        strings::find_class(text.push('\n'), CharClass::Only('\n'), from) == strings::find_class(
            text,
            CharClass::Only('\n'),
            from,
        ),
    decreases text.len() - from,
{
    if from < text.len() {
        assert(text.push('\n')[from] == text[from]);
        lemma_find_pushed(text, from + 1);
    } else {
        assert(text.push('\n')[from] == '\n');
    }
}

proof fn lemma_find_is_in_class(text: Seq<char>, class: CharClass, from: int)
    requires
        0 <= from <= text.len(),
    ensures
        strings::find_class(text, class, from) < text.len() ==> strings::in_class(
            class,
            text[strings::find_class(text, class, from)],
        ),
    decreases text.len() - from,
{
    if from < text.len() {
        lemma_find_is_in_class(text, class, from + 1);
    }
}

/// Ending the last line of a text changes none of its lines.
pub proof fn lines_of_ended_text(text: Seq<char>)
    requires
        text.len() > 0,
        text.last() != '\n',
        text.last() != '\r',
    ensures
        text_lines(text.push('\n')) == text_lines(text),
{
    lemma_lines_of_ended_from(text, 0);
}

proof fn lemma_join_front(first: Seq<char>, rest: Seq<Seq<char>>, separator: Seq<char>)
    requires
        rest.len() > 0,
    ensures
        strings::join_texts(seq![first] + rest, separator) == first + separator
            + strings::join_texts(rest, separator),
    decreases rest.len(),
{
    let all = seq![first] + rest;
    assert(all.drop_last() =~= seq![first] + rest.drop_last());
    assert(all.last() == rest.last());
    if rest.len() == 1 {
        assert(all.drop_last() =~= seq![first]);
        assert(strings::join_texts(seq![first], separator) =~= first);
        assert(strings::join_texts(rest, separator) =~= rest[0]);
        assert(strings::join_texts(all, separator) =~= first + separator + rest[0]);
    } else {
        lemma_join_front(first, rest.drop_last(), separator);
        assert(strings::join_texts(all, separator) =~= first + separator + strings::join_texts(
            rest,
            separator,
        ));
    }
}

proof fn lemma_joined_lines_from(text: Seq<char>, from: int)
    requires
        0 <= from < text.len(),
        text.last() == '\n',
        forall|i: int| 0 <= i < text.len() ==> #[trigger] text[i] != '\r',
    ensures
        lines_from(text, from).len() > 0,
        strings::join_texts(lines_from(text, from), seq!['\n']).push('\n') == text.skip(from),
    decreases text.len() - from,
{
    let class = CharClass::Only('\n');
    let none = Seq::<char>::empty();
    lemma_find_in_front(text, none, class, from);
    lemma_find_is_in_class(text, class, from);
    let feed = strings::find_class(text, class, from);
    let end = shell_text::line_end(text, from);
    let line = text.subrange(from, end);
    let bare = bare_line(line);
    assert(line.drop_last() =~= text.subrange(from, feed));
    if feed > from {
        assert(line.drop_last().last() == text[feed - 1]);
    }
    assert(bare =~= text.subrange(from, feed));
    if end < text.len() {
        lemma_joined_lines_from(text, end);
        lemma_join_front(bare, lines_from(text, end), seq!['\n']);
        assert(text.skip(from) =~= bare + seq!['\n'] + text.skip(end));
        assert(strings::join_texts(lines_from(text, from), seq!['\n']).push('\n') =~= text.skip(
            from,
        ));
    } else {
        assert(lines_from(text, end) =~= Seq::empty());
        assert(lines_from(text, from) =~= seq![bare]);
        assert(strings::join_texts(seq![bare], seq!['\n']) =~= bare);
        assert(bare.push('\n') =~= text.skip(from));
    }
}

/// A text without carriage returns that ends its last line is its lines, each of
/// them ended.
pub proof fn lines_make_up_the_text(text: Seq<char>)
    requires
        text.len() > 0,
        text.last() == '\n',
        forall|i: int| 0 <= i < text.len() ==> #[trigger] text[i] != '\r',
    ensures
        strings::join_texts(text_lines(text), seq!['\n']).push('\n') == text,
        text_lines(text).len() > 0,
{
    lemma_joined_lines_from(text, 0);
    assert(text.skip(0) =~= text);
}

proof fn lemma_lines_with_return_from(text: Seq<char>, from: int)
    requires
        0 <= from < text.len(),
        text.last() == '\r',
    ensures
        ({
            let bare = lines_from(text, from);
            let ended = lines_from(text.push('\n'), from);
            &&& bare.len() > 0
            &&& ended.len() == bare.len()
            &&& bare.last().len() > 0
            &&& bare.last().last() == '\r'
            &&& ended == bare.drop_last().push(bare.last().drop_last())
        }),
    decreases text.len() - from,
{
    let more = text.push('\n');
    let class = CharClass::Only('\n');
    strings::lemma_find_class_bounds(text, class, from);
    lemma_find_pushed(text, from);
    let end = strings::find_class(text, class, from);
    let bare = lines_from(text, from);
    let ended = lines_from(more, from);
    if end < text.len() {
        assert(end + 1 < text.len()) by {
            assert(text[end] == '\n');
        }
        assert(more.subrange(from, end + 1) =~= text.subrange(from, end + 1));
        lemma_lines_with_return_from(text, end + 1);
        let rest = lines_from(text, end + 1);
        assert(bare.last() == rest.last());
        assert(ended =~= bare.drop_last().push(bare.last().drop_last()));
    } else {
        let line = text.subrange(from, text.len() as int);
        assert(line.last() == '\r');
        assert(more.subrange(from, more.len() as int) =~= line.push('\n'));
        assert(line.push('\n').drop_last() =~= line);
        assert(lines_from(more, more.len() as int) =~= Seq::empty());
        assert(lines_from(text, text.len() as int) =~= Seq::empty());
        assert(bare =~= seq![line]);
        assert(ended =~= seq![line.drop_last()]);
        assert(ended =~= bare.drop_last().push(bare.last().drop_last()));
    }
}

/// Ending the last line of a text that ends in a carriage return takes that away
/// from the line.
pub proof fn lines_of_text_with_return(text: Seq<char>)
    requires
        text.len() > 0,
        text.last() == '\r',
    ensures
        ({
            let bare = text_lines(text);
            &&& bare.len() > 0
            &&& bare.last().len() > 0
            &&& bare.last().last() == '\r'
            &&& text_lines(text.push('\n')) == bare.drop_last().push(bare.last().drop_last())
        }),
{
    lemma_lines_with_return_from(text, 0);
}

} // verus!
