//! The bounded record of a child's output: what is kept of a stream, and what is
//! shown of what was kept.
//!
//! Tools put their verdict at the end, so both the head and the tail of a stream
//! are kept and shown.
use vstd::prelude::*;

use crate::lines;
use crate::lines::lines_of;
use crate::numbers;
use crate::numbers::{count_text, cut_off, smaller};
use crate::output;
use crate::output::clamp_text_with_status;
use crate::strings;
use crate::strings::{chars_of, join, push_text, string_of, CharClass};

verus! {

/// Bytes as text, with every part that is no UTF-8 replaced.
pub uninterp spec fn lossy(bytes: Seq<u8>) -> Seq<char>;

/// `String::from_utf8_lossy`: depends on the bytes alone, and is their text where
/// they are UTF-8.
#[verifier::external_body]
pub(crate) fn lossy_text(bytes: &[u8]) -> (text: String)
    ensures
        text@ == lossy(bytes@),
        vstd::utf8::valid_utf8(bytes@) ==> vstd::utf8::encode_utf8(text@) == bytes@,
{
    String::from_utf8_lossy(bytes).into_owned()
}

/// What was kept of a stream: its head, its tail, and where the tail starts.
#[derive(Debug)]
pub struct RawCapturedStream {
    pub head: Vec<u8>,
    pub tail: Vec<u8>,
    /// The offset in the stream at which `tail` begins.
    pub tail_start: usize,
    pub total_bytes: usize,
    pub total_lines: usize,
}

/// The model of what was kept of a stream.
#[verifier::ext_equal]
pub struct Kept {
    pub head: Seq<u8>,
    pub tail: Seq<u8>,
    pub tail_start: nat,
    pub total_bytes: nat,
    pub total_lines: nat,
}

impl View for RawCapturedStream {
    type V = Kept;

    open spec fn view(&self) -> Kept {
        Kept {
            head: self.head@,
            tail: self.tail@,
            tail_start: self.tail_start as nat,
            total_bytes: self.total_bytes as nat,
            total_lines: self.total_lines as nat,
        }
    }
}

/// The share of the budget that the head of a stream has: the larger half.
pub open spec fn head_budget(max: nat) -> nat {
    (max - max / 2) as nat
}

/// How many line feeds there are.
pub open spec fn line_feeds(bytes: Seq<u8>) -> nat
    decreases bytes.len(),
{
    if bytes.len() == 0 {
        0
    } else {
        line_feeds(bytes.drop_last()) + if bytes.last() == 0x0a {
            1nat
        } else {
            0
        }
    }
}

/// How many lines there are; the last one need not end in a line feed.
pub open spec fn line_count(bytes: Seq<u8>) -> nat {
    line_feeds(bytes) + if bytes.len() > 0 && bytes.last() != 0x0a {
        1nat
    } else {
        0
    }
}

/// What is kept of a stream under a budget of `max` bytes.
pub open spec fn kept_of(bytes: Seq<u8>, max: nat) -> Kept {
    let head = numbers::least(bytes.len(), head_budget(max));
    let rest = (bytes.len() - head) as nat;
    let tail = numbers::least(rest, max / 2);
    Kept {
        head: bytes.take(head as int),
        tail: bytes.skip(bytes.len() - tail),
        tail_start: if rest > 0 {
            (bytes.len() - tail) as nat
        } else {
            0
        },
        total_bytes: bytes.len(),
        total_lines: line_count(bytes),
    }
}

/// No more bytes of a stream are kept than the budget allows; a stream within the
/// budget is kept whole, and of a larger one the budget is used in full, from its
/// start and to its end.
pub proof fn retention_is_bounded(bytes: Seq<u8>, max: nat)
    ensures
        ({
            let kept = kept_of(bytes, max);
            &&& kept.head.len() + kept.tail.len() == numbers::least(bytes.len(), max)
            &&& bytes.len() <= max ==> kept.head + kept.tail == bytes
            &&& kept.head == bytes.take(kept.head.len() as int)
            &&& kept.tail == bytes.skip(bytes.len() - kept.tail.len())
        }),
{
    let kept = kept_of(bytes, max);
    if bytes.len() <= max {
        assert(kept.head + kept.tail =~= bytes);
    }
}

/// A stream as it is read, chunk by chunk.
pub struct StreamReader {
    pub max_bytes: usize,
    pub head: Vec<u8>,
    pub tail: Vec<u8>,
    pub total_bytes: usize,
    pub line_feeds: usize,
    pub ends_line: bool,
    pub seen: Ghost<Seq<u8>>,
}

impl StreamReader {
    /// What the reader holds is what is kept of the bytes that it has seen.
    pub open spec fn well_formed(&self) -> bool {
        let kept = kept_of(self.seen@, self.max_bytes as nat);
        &&& self.head@ == kept.head
        &&& self.tail@ == kept.tail
        &&& self.total_bytes == self.seen@.len()
        &&& self.line_feeds == line_feeds(self.seen@)
        &&& self.ends_line == (self.seen@.len() > 0 && self.seen@.last() == 0x0a)
    }

    pub fn new(max_bytes: usize) -> (reader: StreamReader)
        ensures
            reader.well_formed(),
            reader.max_bytes == max_bytes,
            reader.seen@ == Seq::<u8>::empty(),
            reader.total_bytes == 0,
    {
        let reader = StreamReader {
            max_bytes,
            head: Vec::new(),
            tail: Vec::new(),
            total_bytes: 0,
            line_feeds: 0,
            ends_line: false,
            seen: Ghost(Seq::empty()),
        };
        assert(reader.head@ =~= kept_of(Seq::empty(), max_bytes as nat).head);
        assert(reader.tail@ =~= kept_of(Seq::empty(), max_bytes as nat).tail);
        reader
    }

    /// Takes in the next chunk of the stream.
    pub fn push(&mut self, chunk: &[u8])
        requires
            old(self).well_formed(),
            old(self).total_bytes + chunk@.len() <= usize::MAX,
        ensures
            final(self).well_formed(),
            final(self).max_bytes == old(self).max_bytes,
            final(self).seen@ == old(self).seen@ + chunk@,
    {
        let ghost before = self.seen@;
        let ghost max = self.max_bytes as nat;
        let head_share: usize = self.max_bytes - self.max_bytes / 2;
        let tail_share: usize = self.max_bytes / 2;
        let mut i: usize = 0;
        assert(before + chunk@.take(0) =~= before);
        while i < chunk.len()
            invariant
                i <= chunk.len(),
                max == self.max_bytes,
                before == old(self).seen@,
                self.max_bytes == old(self).max_bytes,
                before.len() + chunk@.len() <= usize::MAX,
                head_share == head_budget(max),
                tail_share == max / 2,
                self.well_formed_but_for_the_tail(),
                self.tail@.len() <= tail_share + i,
                self.seen@ == before + chunk@.take(i as int),
                self.tail@.len() >= kept_of(self.seen@, max).tail.len(),
                self.tail@.len() <= self.seen@.len() - self.head@.len(),
                tail_share == 0 ==> self.tail@.len() == 0,
                self.tail@ == self.seen@.skip(self.seen@.len() - self.tail@.len()),
            decreases chunk.len() - i,
        {
            let byte = chunk[i];
            let ghost seen = self.seen@;
            let ghost more = seen.push(byte);
            assert(more.drop_last() =~= seen);
            proof {
                lemma_line_feeds_bound(seen);
            }
            assert(before + chunk@.take(i + 1) =~= more);
            if self.head.len() < head_share {
                self.head.push(byte);
                assert(self.head@ =~= kept_of(more, max).head);
                assert(self.tail@ =~= more.skip(more.len() as int));
            } else {
                assert(kept_of(more, max).head =~= kept_of(seen, max).head);
                if tail_share > 0 {
                    let ghost tail = self.tail@;
                    self.tail.push(byte);
                    assert(self.tail@ =~= more.skip(more.len() - self.tail@.len()));
                } else {
                    assert(self.tail@ =~= Seq::empty());
                    assert(self.tail@ =~= more.skip(more.len() as int));
                }
            }
            if byte == 0x0a {
                self.line_feeds += 1;
                self.ends_line = true;
            } else {
                self.ends_line = false;
            }
            self.total_bytes += 1;
            self.seen = Ghost(more);
            i += 1;
        }
        assert(chunk@.take(i as int) =~= chunk@);
        if self.tail.len() > tail_share {
            let extra: usize = self.tail.len() - tail_share;
            let ghost long = self.tail@;
            let mut tail: Vec<u8> = Vec::new();
            let mut k: usize = extra;
            while k < self.tail.len()
                invariant
                    extra <= k <= self.tail.len(),
                    long == self.tail@,
                    tail@ == long.subrange(extra as int, k as int),
                decreases self.tail.len() - k,
            {
                tail.push(self.tail[k]);
                k += 1;
            }
            self.tail = tail;
            assert(self.tail@ =~= kept_of(self.seen@, max).tail);
        } else {
            assert(self.tail@ =~= kept_of(self.seen@, max).tail);
        }
    }

    spec fn well_formed_but_for_the_tail(&self) -> bool {
        let kept = kept_of(self.seen@, self.max_bytes as nat);
        &&& self.head@ == kept.head
        &&& self.total_bytes == self.seen@.len()
        &&& self.line_feeds == line_feeds(self.seen@)
        &&& self.ends_line == (self.seen@.len() > 0 && self.seen@.last() == 0x0a)
    }

    /// What was kept of the stream.
    pub fn finish(self) -> (raw: RawCapturedStream)
        requires
            self.well_formed(),
        ensures
            raw@ == kept_of(self.seen@, self.max_bytes as nat),
    {
        proof {
            lemma_line_feeds_bound(self.seen@);
        }
        let partial = self.total_bytes > 0 && !self.ends_line;
        let total_lines = if partial {
            self.line_feeds + 1
        } else {
            self.line_feeds
        };
        let tail_start = if self.total_bytes > self.head.len() {
            self.total_bytes - self.tail.len()
        } else {
            0
        };
        RawCapturedStream {
            head: self.head,
            tail: self.tail,
            tail_start,
            total_bytes: self.total_bytes,
            total_lines,
        }
    }
}

proof fn lemma_line_feeds_bound(bytes: Seq<u8>)
    ensures
        line_feeds(bytes) <= bytes.len(),
        bytes.len() > 0 && bytes.last() != 0x0a ==> line_feeds(bytes) < bytes.len(),
    decreases bytes.len(),
{
    if bytes.len() > 0 {
        lemma_line_feeds_bound(bytes.drop_last());
    }
}

/// What is kept of a stream that is at hand as a whole.
pub fn read_captured_stream(bytes: &[u8], max_bytes: usize) -> (raw: RawCapturedStream)
    ensures
        raw@ == kept_of(bytes@, max_bytes as nat),
{
    let mut reader = StreamReader::new(max_bytes);
    let total: usize = bytes.len();
    assert(total == bytes@.len());
    reader.push(bytes);
    assert(Seq::<u8>::empty() + bytes@ =~= bytes@);
    reader.finish()
}

impl Kept {
    /// Nothing is missing between the head and the tail.
    pub open spec fn is_whole(self) -> bool {
        self.tail.len() == 0 || self.tail_start == self.head.len()
    }

    /// How many bytes are missing between the head and the tail.
    pub open spec fn gap(self) -> nat {
        if self.tail_start > self.head.len() {
            (self.tail_start - self.head.len()) as nat
        } else {
            0
        }
    }

    /// Some bytes of the stream were not kept.
    pub open spec fn is_cut(self) -> bool {
        self.total_bytes > self.head.len() + self.tail.len()
    }

    /// The text that was kept, with a note where bytes are missing.
    pub open spec fn text(self) -> Seq<char> {
        if self.tail.len() == 0 {
            lossy(self.head)
        } else if self.is_whole() {
            lossy(self.head + self.tail)
        } else {
            lossy(self.head) + "\n[contextmink] ... omitted "@ + numbers::decimal(self.gap())
                + " byte(s) ...\n"@ + lossy(self.tail)
        }
    }

    /// What was kept is UTF-8: as one text where nothing is missing, else the head and
    /// the tail each for itself.
    pub open spec fn is_utf8(self) -> bool {
        if self.is_whole() {
            vstd::utf8::valid_utf8(self.head + self.tail)
        } else {
            vstd::utf8::valid_utf8(self.head) && vstd::utf8::valid_utf8(self.tail)
        }
    }

    /// The text of what was kept, where it is UTF-8.
    pub open spec fn decoded_text(self) -> Seq<char> {
        if self.is_whole() {
            vstd::utf8::decode_utf8(self.head + self.tail)
        } else {
            vstd::utf8::decode_utf8(self.head) + "\n[contextmink] ... omitted "@ + numbers::decimal(
                self.gap(),
            ) + " byte(s) ...\n"@ + vstd::utf8::decode_utf8(self.tail)
        }
    }
}

/// The lines of a text, without carriage returns at their ends.
pub open spec fn clean_lines(text: Seq<char>) -> Seq<Seq<char>> {
    lines::text_lines(text).map_values(
        |line: Seq<char>| strings::trim_end(line, CharClass::Only('\r')),
    )
}

fn clean_lines_of(text: &str) -> (clean: Vec<String>)
    ensures
        strings::texts(clean@) == clean_lines(text@),
{
    let all = lines_of(text);
    let ghost texts = strings::texts(all@);
    let ghost wanted = clean_lines(text@);
    let mut clean: Vec<String> = Vec::new();
    let mut i: usize = 0;
    assert(strings::texts(clean@) =~= wanted.take(0));
    while i < all.len()
        invariant
            i <= all.len(),
            texts == strings::texts(all@),
            texts == lines::text_lines(text@),
            wanted == clean_lines(text@),
            strings::texts(clean@) == wanted.take(i as int),
        decreases all.len() - i,
    {
        assert(texts[i as int] == all@[i as int]@);
        let chars = chars_of(all[i].as_str());
        let line = string_of(&strings::trim_end_of(&chars, CharClass::Only('\r')));
        push_text(&mut clean, line);
        assert(wanted.take(i + 1) =~= wanted.take(i as int).push(wanted[i as int]));
        i += 1;
    }
    assert(wanted.take(i as int) =~= wanted);
    clean
}

/// The lines of bytes, and whether the last one does not end in a line feed.
pub fn decode_lines(bytes: &[u8]) -> (decoded: (Vec<String>, bool))
    ensures
        strings::texts(decoded.0@) == clean_lines(lossy(bytes@)),
        decoded.1 == (lossy(bytes@).len() > 0 && lossy(bytes@).last() != '\n'),
        // No character of UTF-8 is lost.
        vstd::utf8::valid_utf8(bytes@) ==> {
            let text = vstd::utf8::decode_utf8(bytes@);
            &&& strings::texts(decoded.0@) == clean_lines(text)
            &&& decoded.1 == (text.len() > 0 && text.last() != '\n')
        },
{
    let text = lossy_text(bytes);
    proof {
        vstd::utf8::encode_utf8_decode_utf8(text@);
    }
    let chars = chars_of(text.as_str());
    let partial = chars.len() > 0 && chars[chars.len() - 1] != '\n';
    (clean_lines_of(text.as_str()), partial)
}

/// The text that was kept of a stream.
pub fn retained_stream_text(raw: &RawCapturedStream) -> (text: String)
    ensures
        text@ == raw@.text(),
        // No character of UTF-8 is lost.
        raw@.is_utf8() ==> text@ == raw@.decoded_text(),
{
    if raw.tail.len() == 0 {
        let text = lossy_text(&raw.head);
        proof {
            assert(raw.head@ + raw.tail@ =~= raw.head@);
            vstd::utf8::encode_utf8_decode_utf8(text@);
        }
        return text;
    }
    if raw.tail_start == raw.head.len() {
        let mut bytes: Vec<u8> = Vec::new();
        let mut i: usize = 0;
        while i < raw.head.len()
            invariant
                i <= raw.head.len(),
                bytes@ == raw.head@.take(i as int),
            decreases raw.head.len() - i,
        {
            bytes.push(raw.head[i]);
            assert(raw.head@.take(i + 1) =~= raw.head@.take(i as int).push(raw.head@[i as int]));
            i += 1;
        }
        assert(raw.head@.take(i as int) =~= raw.head@);
        let mut k: usize = 0;
        assert(raw.head@ + raw.tail@.take(0) =~= raw.head@);
        while k < raw.tail.len()
            invariant
                k <= raw.tail.len(),
                bytes@ == raw.head@ + raw.tail@.take(k as int),
            decreases raw.tail.len() - k,
        {
            bytes.push(raw.tail[k]);
            assert(raw.head@ + raw.tail@.take(k + 1) =~= (raw.head@ + raw.tail@.take(
                k as int,
            )).push(raw.tail@[k as int]));
            k += 1;
        }
        assert(raw.tail@.take(k as int) =~= raw.tail@);
        let text = lossy_text(&bytes);
        proof {
            vstd::utf8::encode_utf8_decode_utf8(text@);
        }
        return text;
    }
    let gap = if raw.tail_start > raw.head.len() {
        raw.tail_start - raw.head.len()
    } else {
        0
    };
    let head = lossy_text(&raw.head);
    let tail = lossy_text(&raw.tail);
    proof {
        vstd::utf8::encode_utf8_decode_utf8(head@);
        vstd::utf8::encode_utf8_decode_utf8(tail@);
    }
    head.concat("\n[contextmink] ... omitted ").concat(count_text(gap).as_str()).concat(
        " byte(s) ...\n",
    ).concat(tail.as_str())
}

/// The lines that are shown of a stream before they are cut to length, how many
/// of them come from its head and from its tail, and how many are left out.
pub struct Shown {
    pub parts: Seq<Seq<char>>,
    pub head: nat,
    pub tail: nat,
    pub omitted: nat,
}

pub open spec fn lines_note(omitted: nat) -> Seq<char> {
    "[contextmink] ... omitted "@ + numbers::decimal(omitted) + " line(s) ..."@
}

pub open spec fn bytes_note(omitted: nat) -> Seq<char> {
    "[contextmink] ... omitted "@ + numbers::decimal(omitted) + " byte(s) ..."@
}

/// What is shown of the kept lines under a budget of `max` lines, which is split
/// between their head and their tail.
pub open spec fn shown_of(kept: Kept, head: Seq<Seq<char>>, tail: Seq<Seq<char>>, max: nat) -> Shown {
    if tail.len() == 0 && head.len() <= max {
        let omitted = if kept.is_cut() {
            numbers::minus(kept.total_lines, head.len())
        } else {
            0
        };
        Shown {
            parts: head + if omitted > 0 {
                seq![lines_note(omitted)]
            } else {
                Seq::empty()
            },
            head: head.len(),
            tail: 0,
            omitted,
        }
    } else if tail.len() == 0 {
        let last = (max - max / 2) as nat;
        let omitted = (head.len() - max) as nat;
        Shown {
            parts: head.take((max / 2) as int) + seq![lines_note(omitted)] + head.skip(
                head.len() - last,
            ),
            head: max / 2,
            tail: last,
            omitted,
        }
    } else {
        let first = numbers::least(head.len(), max / 2);
        let share = numbers::minus(max, first);
        let last = numbers::least(
            tail.len(),
            if share == 0 {
                1
            } else {
                share
            },
        );
        let omitted = numbers::minus(numbers::minus(kept.total_lines, first), last);
        Shown {
            parts: head.take(first as int) + (if omitted > 0 {
                seq![lines_note(omitted)]
            } else if kept.gap() > 0 {
                seq![bytes_note(kept.gap())]
            } else {
                Seq::empty()
            }) + tail.skip(tail.len() - last),
            head: first,
            tail: last,
            omitted,
        }
    }
}

/// The lines of a stream's head, or of all that was kept where nothing is missing
/// in between.
pub open spec fn head_lines_of(kept: Kept) -> Seq<Seq<char>> {
    if kept.is_whole() {
        clean_lines(kept.text())
    } else {
        clean_lines(lossy(kept.head))
    }
}

pub open spec fn tail_lines_of(kept: Kept) -> Seq<Seq<char>> {
    if kept.is_whole() {
        Seq::empty()
    } else {
        clean_lines(lossy(kept.tail))
    }
}

/// What is shown of a stream.
#[derive(Debug)]
pub struct CapturedStream {
    pub display_text: String,
    pub retained_text: String,
    pub total_bytes: usize,
    pub captured_bytes: usize,
    pub total_lines: usize,
    pub shown_lines: usize,
    pub head_lines: usize,
    pub tail_lines: usize,
    pub omitted_lines: usize,
    pub byte_truncated: bool,
    pub line_truncated: bool,
    pub char_truncated: bool,
}

/// The model of what is shown of a stream.
pub struct Rendered {
    pub display_text: Seq<char>,
    pub retained_text: Seq<char>,
    pub total_bytes: nat,
    pub captured_bytes: nat,
    pub total_lines: nat,
    pub shown_lines: nat,
    pub head_lines: nat,
    pub tail_lines: nat,
    pub omitted_lines: nat,
    pub byte_truncated: bool,
    pub line_truncated: bool,
    pub char_truncated: bool,
}

impl View for CapturedStream {
    type V = Rendered;

    open spec fn view(&self) -> Rendered {
        Rendered {
            display_text: self.display_text@,
            retained_text: self.retained_text@,
            total_bytes: self.total_bytes as nat,
            captured_bytes: self.captured_bytes as nat,
            total_lines: self.total_lines as nat,
            shown_lines: self.shown_lines as nat,
            head_lines: self.head_lines as nat,
            tail_lines: self.tail_lines as nat,
            omitted_lines: self.omitted_lines as nat,
            byte_truncated: self.byte_truncated,
            line_truncated: self.line_truncated,
            char_truncated: self.char_truncated,
        }
    }
}

/// What is shown of a stream under a budget of lines and of characters per line.
pub open spec fn rendered(kept: Kept, max_lines: nat, max_chars: nat) -> Rendered {
    if max_lines == 0 {
        Rendered {
            display_text: Seq::empty(),
            retained_text: kept.text(),
            total_bytes: kept.total_bytes,
            captured_bytes: kept.head.len() + kept.tail.len(),
            total_lines: kept.total_lines,
            shown_lines: 0,
            head_lines: 0,
            tail_lines: 0,
            omitted_lines: kept.total_lines,
            byte_truncated: kept.is_cut(),
            line_truncated: kept.total_lines > 0,
            char_truncated: false,
        }
    } else {
        let head = head_lines_of(kept);
        let tail = tail_lines_of(kept);
        let shown = shown_of(kept, head, tail, max_lines);
        Rendered {
            display_text: strings::join_texts(output::clamp_all(shown.parts, max_chars), "\n"@),
            retained_text: kept.text(),
            total_bytes: kept.total_bytes,
            captured_bytes: kept.head.len() + kept.tail.len(),
            total_lines: kept.total_lines,
            shown_lines: numbers::least(shown.head + shown.tail, kept.total_lines),
            head_lines: shown.head,
            tail_lines: shown.tail,
            omitted_lines: shown.omitted,
            byte_truncated: kept.is_cut(),
            line_truncated: head.len() + tail.len() > max_lines,
            char_truncated: output::some_is_longer(shown.parts, max_chars),
        }
    }
}

/// No more lines are shown than the budget allows, nor than there are; a gap in
/// what was kept is never shown as if nothing were missing; and lines are left out
/// only where the byte or the line budget says so.
pub proof fn rendering_is_bounded(bytes: Seq<u8>, max_bytes: nat, max_lines: nat, max_chars: nat)
    ensures
        ({
            let kept = kept_of(bytes, max_bytes);
            let shown = rendered(kept, max_lines, max_chars);
            &&& shown.head_lines + shown.tail_lines <= max_lines
            &&& shown.shown_lines <= max_lines
            &&& shown.shown_lines <= shown.total_lines
            &&& shown.captured_bytes <= max_bytes
            &&& shown.byte_truncated == (bytes.len() > max_bytes)
            &&& shown.omitted_lines > 0 ==> shown.byte_truncated || shown.line_truncated
            &&& !kept.is_whole() ==> shown.byte_truncated
        }),
{
    retention_is_bounded(bytes, max_bytes);
}

/// Cuts lines to length and remembers whether one was cut.
#[derive(Debug)]
pub struct ClampState {
    pub truncated: bool,
}

impl ClampState {
    pub fn clamp(&mut self, line: &str, max_line_chars: usize) -> (text: String)
        ensures
            text@ == output::clamped(line@, max_line_chars as nat),
            final(self).truncated == (old(self).truncated || line@.len() > max_line_chars),
    {
        let cut = clamp_text_with_status(line, max_line_chars);
        self.truncated = self.truncated || cut.truncated;
        cut.text
    }
}

fn push_range(parts: &mut Vec<String>, from: &[String], start: usize, end: usize)
    requires
        start <= end <= from.len(),
    ensures
        strings::texts(final(parts)@) == strings::texts(old(parts)@) + strings::texts(
            from@,
        ).subrange(start as int, end as int),
{
    let ghost before = strings::texts(parts@);
    let ghost texts = strings::texts(from@);
    let mut i: usize = start;
    assert(before + texts.subrange(start as int, start as int) =~= before);
    while i < end
        invariant
            start <= i <= end <= from.len(),
            texts == strings::texts(from@),
            strings::texts(parts@) == before + texts.subrange(start as int, i as int),
        decreases end - i,
    {
        assert(texts[i as int] == from@[i as int]@);
        push_text(parts, from[i].clone());
        assert(before + texts.subrange(start as int, i + 1) =~= (before + texts.subrange(
            start as int,
            i as int,
        )).push(texts[i as int]));
        i += 1;
    }
}

fn omitted_note(omitted: usize, lines: bool) -> (note: String)
    ensures
        note@ == if lines {
            lines_note(omitted as nat)
        } else {
            bytes_note(omitted as nat)
        },
{
    let head = "[contextmink] ... omitted ".to_owned().concat(count_text(omitted).as_str());
    if lines {
        head.concat(" line(s) ...")
    } else {
        head.concat(" byte(s) ...")
    }
}

/// The lines that are shown of those that were kept, with how many come from the
/// head and the tail and how many are left out.
fn choose_parts(
    raw: &RawCapturedStream,
    head: &[String],
    tail: &[String],
    max: usize,
) -> (shown: (Vec<String>, usize, usize, usize))
    requires
        raw.head@.len() + raw.tail@.len() <= usize::MAX,
    ensures
        ({
            let wanted = shown_of(raw@, strings::texts(head@), strings::texts(tail@), max as nat);
            &&& strings::texts(shown.0@) == wanted.parts
            &&& shown.1 == wanted.head
            &&& shown.2 == wanted.tail
            &&& shown.3 == wanted.omitted
        }),
{
    let ghost heads = strings::texts(head@);
    let ghost tails = strings::texts(tail@);
    assert(heads.len() == head@.len());
    assert(tails.len() == tail@.len());
    let mut parts: Vec<String> = Vec::new();
    assert(strings::texts(parts@) =~= Seq::empty());
    if tail.len() == 0 {
        if head.len() <= max {
            let cut = raw.total_bytes > raw.head.len() + raw.tail.len();
            let omitted = if cut {
                cut_off(raw.total_lines, head.len())
            } else {
                0
            };
            push_range(&mut parts, head, 0, head.len());
            assert(strings::texts(parts@) =~= heads);
            if omitted > 0 {
                push_text(&mut parts, omitted_note(omitted, true));
            }
            assert(strings::texts(parts@) =~= heads + if omitted > 0 {
                seq![lines_note(omitted as nat)]
            } else {
                Seq::empty()
            });
            return (parts, head.len(), 0, omitted);
        }
        let first: usize = max / 2;
        let last: usize = max - first;
        let omitted: usize = head.len() - max;
        push_range(&mut parts, head, 0, first);
        push_text(&mut parts, omitted_note(omitted, true));
        push_range(&mut parts, head, head.len() - last, head.len());
        assert(strings::texts(parts@) =~= heads.take(first as int) + seq![
            lines_note(omitted as nat),
        ] + heads.skip(heads.len() - last));
        return (parts, first, last, omitted);
    }
    let first = smaller(head.len(), max / 2);
    let share = cut_off(max, first);
    let last = smaller(
        tail.len(),
        if share == 0 {
            1
        } else {
            share
        },
    );
    let omitted = cut_off(cut_off(raw.total_lines, first), last);
    let gap = cut_off(raw.tail_start, raw.head.len());
    push_range(&mut parts, head, 0, first);
    if omitted > 0 {
        push_text(&mut parts, omitted_note(omitted, true));
    } else if gap > 0 {
        push_text(&mut parts, omitted_note(gap, false));
    }
    push_range(&mut parts, tail, tail.len() - last, tail.len());
    assert(strings::texts(parts@) =~= heads.take(first as int) + (if omitted > 0 {
        seq![lines_note(omitted as nat)]
    } else if gap > 0 {
        seq![bytes_note(gap as nat)]
    } else {
        Seq::empty()
    }) + tails.skip(tails.len() - last));
    (parts, first, last, omitted)
}

/// What is shown of a stream under a budget of lines and of characters per line.
pub fn render_captured_stream(
    raw: RawCapturedStream,
    max_lines: usize,
    max_line_chars: usize,
) -> (stream: CapturedStream)
    requires
        raw.head@.len() + raw.tail@.len() <= usize::MAX,
    ensures
        stream@ == rendered(raw@, max_lines as nat, max_line_chars as nat),
        raw@.is_utf8() ==> stream@.retained_text == raw@.decoded_text(),
{
    let captured_bytes = raw.head.len() + raw.tail.len();
    let byte_truncated = raw.total_bytes > captured_bytes;
    let retained_text = retained_stream_text(&raw);
    if max_lines == 0 {
        let stream = CapturedStream {
            display_text: String::new(),
            retained_text,
            total_bytes: raw.total_bytes,
            captured_bytes,
            total_lines: raw.total_lines,
            shown_lines: 0,
            head_lines: 0,
            tail_lines: 0,
            omitted_lines: raw.total_lines,
            byte_truncated,
            line_truncated: raw.total_lines > 0,
            char_truncated: false,
        };
        return stream;
    }
    let whole = raw.tail.len() == 0 || raw.tail_start == raw.head.len();
    let (head, tail): (Vec<String>, Vec<String>) = if whole {
        (clean_lines_of(retained_text.as_str()), Vec::new())
    } else {
        (decode_lines(&raw.head).0, decode_lines(&raw.tail).0)
    };
    assert(strings::texts(head@) =~= head_lines_of(raw@));
    assert(strings::texts(tail@) =~= tail_lines_of(raw@));
    assert(strings::texts(head@).len() == head@.len());
    assert(strings::texts(tail@).len() == tail@.len());
    let line_truncated = head.len() > max_lines || tail.len() > max_lines - head.len();
    let (parts, head_shown, tail_shown, omitted) = choose_parts(&raw, &head, &tail, max_lines);
    let ghost texts = strings::texts(parts@);
    let ghost wanted = output::clamp_all(texts, max_line_chars as nat);
    let mut state = ClampState { truncated: false };
    let mut clamped: Vec<String> = Vec::new();
    let mut i: usize = 0;
    assert(strings::texts(clamped@) =~= wanted.take(0));
    while i < parts.len()
        invariant
            i <= parts.len(),
            texts == strings::texts(parts@),
            wanted == output::clamp_all(texts, max_line_chars as nat),
            strings::texts(clamped@) == wanted.take(i as int),
            state.truncated == exists|k: int|
                0 <= k < i && (#[trigger] texts[k]).len() > max_line_chars,
        decreases parts.len() - i,
    {
        assert(texts[i as int] == parts@[i as int]@);
        let text = state.clamp(parts[i].as_str(), max_line_chars);
        push_text(&mut clamped, text);
        assert(wanted.take(i + 1) =~= wanted.take(i as int).push(wanted[i as int]));
        i += 1;
    }
    assert(wanted.take(i as int) =~= wanted);
    let display_text = join(&clamped, "\n");
    let shown_lines = if head_shown > raw.total_lines || tail_shown > raw.total_lines - head_shown {
        raw.total_lines
    } else {
        head_shown + tail_shown
    };
    CapturedStream {
        display_text,
        retained_text,
        total_bytes: raw.total_bytes,
        captured_bytes,
        total_lines: raw.total_lines,
        shown_lines,
        head_lines: head_shown,
        tail_lines: tail_shown,
        omitted_lines: omitted,
        byte_truncated,
        line_truncated,
        char_truncated: state.truncated,
    }
}

/// How the lines that may be shown are shared out between two streams.
pub open spec fn line_budgets(max: nat, stdout: nat, stderr: nat) -> (nat, nat) {
    if stdout == 0 {
        (0, numbers::least(max, stderr))
    } else if stderr == 0 {
        (numbers::least(max, stdout), 0)
    } else if max == 1 {
        (0, 1)
    } else {
        // Each has half; what one does not need, the other gets.
        let first = numbers::least(max / 2, stdout);
        let second = numbers::least((max - first) as nat, stderr);
        (numbers::least((max - second) as nat, stdout), second)
    }
}

/// Shares the lines that may be shown out between two streams, as many of them as
/// there are lines to show.
pub fn capture_line_budgets(max_lines: usize, stdout_total: usize, stderr_total: usize) -> (budgets:
    (usize, usize))
    ensures
        (budgets.0 as nat, budgets.1 as nat) == line_budgets(
            max_lines as nat,
            stdout_total as nat,
            stderr_total as nat,
        ),
        budgets.0 <= stdout_total,
        budgets.1 <= stderr_total,
        budgets.0 + budgets.1 == numbers::least(
            max_lines as nat,
            (stdout_total + stderr_total) as nat,
        ),
{
    if stdout_total == 0 {
        return (0, smaller(max_lines, stderr_total));
    }
    if stderr_total == 0 {
        return (smaller(max_lines, stdout_total), 0);
    }
    if max_lines == 1 {
        return (0, 1);
    }
    let mut stdout = smaller(max_lines / 2, stdout_total);
    let mut stderr = smaller(max_lines - stdout, stderr_total);
    let remaining = max_lines - stdout - stderr;
    let extra = smaller(remaining, stdout_total - stdout);
    stdout += extra;
    stderr += smaller(remaining - extra, stderr_total - stderr);
    (stdout, stderr)
}

/// Both streams together are shown in no more lines than the one budget allows.
pub proof fn one_line_budget_holds_for_both(
    stdout: Seq<u8>,
    stderr: Seq<u8>,
    max_bytes: nat,
    max_lines: nat,
    max_chars: nat,
)
    ensures
        ({
            let budgets = line_budgets(max_lines, line_count(stdout), line_count(stderr));
            let first = rendered(kept_of(stdout, max_bytes), budgets.0, max_chars);
            let second = rendered(kept_of(stderr, max_bytes), budgets.1, max_chars);
            first.shown_lines + second.shown_lines <= max_lines
        }),
{
    let budgets = line_budgets(max_lines, line_count(stdout), line_count(stderr));
    rendering_is_bounded(stdout, max_bytes, budgets.0, max_chars);
    rendering_is_bounded(stderr, max_bytes, budgets.1, max_chars);
}

/// Whether something of the stream is not shown, or not in full.
pub fn captured_stream_truncated(stream: &CapturedStream) -> (held: bool)
    ensures
        held == (stream.omitted_lines > 0 || stream.byte_truncated || stream.line_truncated
            || stream.char_truncated),
{
    stream.omitted_lines > 0 || stream.byte_truncated || stream.line_truncated
        || stream.char_truncated
}

/// Whether a display is made of the first `front` of some lines, then what stands in
/// `note`, then the last `back` of some lines, each cut to length and on a line of its
/// own.
pub open spec fn displays(
    display: Seq<char>,
    first: Seq<Seq<char>>,
    front: nat,
    note: Seq<Seq<char>>,
    last: Seq<Seq<char>>,
    back: nat,
    max_chars: nat,
) -> bool {
    &&& front <= first.len()
    &&& back <= last.len()
    &&& display == strings::join_texts(
        (first.subrange(0, front as int) + note + last.subrange(
            last.len() - back,
            last.len() as int,
        )).map_values(|line: Seq<char>| output::clamped(line, max_chars)),
        "\n"@,
    )
}

/// The lines that the end of a stream is shown from.
pub open spec fn end_lines(kept: Kept) -> Seq<Seq<char>> {
    if tail_lines_of(kept).len() > 0 {
        tail_lines_of(kept)
    } else {
        head_lines_of(kept)
    }
}

/// What is shown of a stream is the beginning of the lines of its kept start, then at
/// most one note, then the end of the lines of its kept end, as many of each as the
/// receipt says; and the note, where lines are left out, gives their number.
pub proof fn both_ends_are_shown(kept: Kept, max_lines: nat, max_chars: nat)
    requires
        max_lines > 0,
    ensures
        ({
            let shown = rendered(kept, max_lines, max_chars);
            exists|note: Seq<Seq<char>>|
                {
                    &&& #[trigger] displays(
                        shown.display_text,
                        head_lines_of(kept),
                        shown.head_lines,
                        note,
                        end_lines(kept),
                        shown.tail_lines,
                        max_chars,
                    )
                    &&& note.len() <= 1
                    &&& shown.omitted_lines > 0 ==> note == seq![
                        "[contextmink] ... omitted "@ + numbers::decimal(shown.omitted_lines)
                            + " line(s) ..."@,
                    ]
                    &&& shown.omitted_lines == 0 && kept.gap() == 0 ==> note.len() == 0
                    &&& shown.omitted_lines == 0 && tail_lines_of(kept).len() > 0 && kept.gap() > 0
                        ==> note.len() == 1
                }
        }),
{
    let head = head_lines_of(kept);
    let tail = tail_lines_of(kept);
    let shown = shown_of(kept, head, tail, max_lines);
    let display = rendered(kept, max_lines, max_chars);
    let last = end_lines(kept);
    let note = if shown.omitted > 0 {
        seq![lines_note(shown.omitted)]
    } else if tail.len() > 0 && kept.gap() > 0 {
        seq![bytes_note(kept.gap())]
    } else {
        Seq::empty()
    };
    let front = head.subrange(0, shown.head as int);
    let back = last.subrange(last.len() - shown.tail, last.len() as int);
    assert(front + note + back =~= shown.parts);
    assert((front + note + back).map_values(|line: Seq<char>| output::clamped(line, max_chars))
        =~= output::clamp_all(shown.parts, max_chars));
    assert(displays(
        display.display_text,
        head,
        display.head_lines,
        note,
        last,
        display.tail_lines,
        max_chars,
    ));
}

/// Whenever something of a stream's end was kept, what is shown of the stream ends with
/// its last line, cut to length; and where the stream was kept whole, as many of its
/// lines are shown as the budget allows.
pub proof fn the_last_line_is_shown(kept: Kept, max_lines: nat, max_chars: nat)
    requires
        max_lines > 0,
        end_lines(kept).len() > 0,
        tail_lines_of(kept).len() > 0 || !kept.is_cut(),
    ensures
        ({
            let shown = rendered(kept, max_lines, max_chars);
            let line = output::clamped(end_lines(kept).last(), max_chars);
            &&& shown.display_text == line || (exists|before: Seq<char>|
                shown.display_text == #[trigger] (before + "\n"@ + line))
            &&& tail_lines_of(kept).len() == 0 ==> shown.head_lines + shown.tail_lines
                == numbers::least(head_lines_of(kept).len(), max_lines)
            &&& tail_lines_of(kept).len() == 0 ==> shown.head_lines + shown.tail_lines
                + shown.omitted_lines == head_lines_of(kept).len()
        }),
{
    let head = head_lines_of(kept);
    let tail = tail_lines_of(kept);
    let parts = shown_of(kept, head, tail, max_lines).parts;
    let cut = output::clamp_all(parts, max_chars);
    assert(parts.last() == end_lines(kept).last());
    assert(cut.last() == output::clamped(end_lines(kept).last(), max_chars));
    if cut.len() > 1 {
        let before = strings::join_texts(cut.drop_last(), "\n"@);
        assert(rendered(kept, max_lines, max_chars).display_text == before + "\n"@ + cut.last());
    }
}

/// Each of two streams that have lines gets at least one line of a budget of two or
/// more, and none goes unused while a stream has lines left to show; of a budget of one
/// the error stream has it.
pub proof fn both_streams_get_lines(max: nat, stdout: nat, stderr: nat)
    ensures
        ({
            let (first, second) = line_budgets(max, stdout, stderr);
            &&& first <= stdout && second <= stderr
            &&& first + second == numbers::least(max, stdout + stderr)
            &&& max >= 2 && stdout > 0 ==> first > 0
            &&& max >= 1 && stderr > 0 ==> second > 0
            // Neither is cut while the other has more than half.
            &&& first < stdout && max > 1 ==> second <= max - max / 2
            &&& second < stderr ==> first <= max / 2
        }),
{
}

/// The lines of a stream are counted as its readers count them: one for every line
/// feed, and one more where something follows the last of them.
pub proof fn lines_are_counted_by_their_ends(a: Seq<u8>, b: Seq<u8>)
    ensures
        line_count(Seq::<u8>::empty()) == 0,
        line_count(a.push(0x0au8) + b) == line_count(a.push(0x0au8)) + line_count(b),
        !a.contains(0x0au8) ==> line_count(a.push(0x0au8)) == 1,
        !a.contains(0x0au8) && a.len() > 0 ==> line_count(a) == 1,
{
    lemma_line_feeds_joined(a.push(0x0au8), b);
    assert(a.push(0x0au8).drop_last() =~= a);
    if b.len() > 0 {
        assert((a.push(0x0au8) + b).last() == b.last());
    } else {
        assert(a.push(0x0au8) + b =~= a.push(0x0au8));
    }
    if !a.contains(0x0au8) {
        lemma_no_line_feeds(a);
        if a.len() > 0 {
            assert(a.contains(a.last()));
        }
    }
}

proof fn lemma_line_feeds_joined(a: Seq<u8>, b: Seq<u8>)
    ensures
        line_feeds(a + b) == line_feeds(a) + line_feeds(b),
    decreases b.len(),
{
    if b.len() > 0 {
        assert((a + b).drop_last() =~= a + b.drop_last());
        lemma_line_feeds_joined(a, b.drop_last());
    } else {
        assert(a + b =~= a);
    }
}

proof fn lemma_no_line_feeds(bytes: Seq<u8>)
    requires
        !bytes.contains(0x0au8),
    ensures
        line_feeds(bytes) == 0,
    decreases bytes.len(),
{
    if bytes.len() > 0 {
        assert(bytes.contains(bytes.last()));
        assert forall|i: int| 0 <= i < bytes.drop_last().len() implies bytes.drop_last()[i]
            != 0x0au8 by {
            assert(bytes.contains(bytes[i]));
        }
        lemma_no_line_feeds(bytes.drop_last());
    }
}

/// A stream within the byte budget is shown from the lines of the stream as a whole; of
/// a larger one the start is shown from the lines of its first bytes and the end from
/// those of its last bytes, the two shares together being the budget.
pub proof fn lines_come_from_both_ends_of_the_stream(bytes: Seq<u8>, max: nat)
    ensures
        ({
            let kept = kept_of(bytes, max);
            &&& bytes.len() <= max ==> head_lines_of(kept) == clean_lines(lossy(bytes))
                && tail_lines_of(kept).len() == 0 && !kept.is_cut()
            &&& bytes.len() > max && max >= 2 ==> exists|front: nat, back: nat|
                {
                    &&& front + back == max
                    &&& back <= front <= back + 1
                    &&& head_lines_of(kept) == #[trigger] clean_lines(
                        lossy(bytes.subrange(0, front as int)),
                    )
                    &&& tail_lines_of(kept) == #[trigger] clean_lines(
                        lossy(bytes.subrange(bytes.len() - back, bytes.len() as int)),
                    )
                    &&& kept.gap() == bytes.len() - max
                }
        }),
{
    let kept = kept_of(bytes, max);
    if bytes.len() <= max {
        assert(kept.head + kept.tail =~= bytes);
        if kept.tail.len() == 0 {
            assert(kept.head =~= bytes);
        }
    } else if max >= 2 {
        let front = head_budget(max);
        let back = max / 2;
        assert(kept.head =~= bytes.subrange(0, front as int));
        assert(kept.tail =~= bytes.subrange(bytes.len() - back, bytes.len() as int));
        assert(head_lines_of(kept) == clean_lines(lossy(bytes.subrange(0, front as int))));
        assert(tail_lines_of(kept) == clean_lines(
            lossy(bytes.subrange(bytes.len() - back, bytes.len() as int)),
        ));
    }
}

/// A line is shown without the carriage returns at its end, and otherwise as it is.
pub proof fn only_returns_are_taken_off(text: Seq<char>, i: int)
    requires
        0 <= i < lines::text_lines(text).len(),
    ensures
        clean_lines(text).len() == lines::text_lines(text).len(),
        clean_lines(text)[i].len() > 0 ==> clean_lines(text)[i].last() != '\r',
        exists|ending: Seq<char>|
            lines::text_lines(text)[i] == #[trigger] (clean_lines(text)[i] + ending) && (forall|
                k: int,
            |
                0 <= k < ending.len() ==> ending[k] == '\r'),
{
    let line = lines::text_lines(text)[i];
    let to = strings::rskip_class(line, CharClass::Only('\r'), line.len() as int);
    strings::lemma_skipped_back(line, CharClass::Only('\r'), line.len() as int);
    assert(clean_lines(text)[i] == line.subrange(0, to));
    let ending = line.skip(to);
    assert(line =~= clean_lines(text)[i] + ending);
}

} // verus!
