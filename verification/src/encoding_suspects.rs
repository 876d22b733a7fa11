//! Signs that a text was decoded in the wrong encoding. They are disclosed; nothing
//! fails for them.
use vstd::prelude::*;

use crate::json;
use crate::json::{add_member, json_count, json_object, json_text, Json, JsonValue};
use crate::lines;
use crate::lines::lines_of;
use crate::numbers;
use crate::numbers::count_text;
use crate::output;
use crate::output::clamp_text;
use crate::strings;
use crate::strings::{chars_of, utf8_text};

verus! {

/// No more characters of a line than these are shown as a sample.
pub const SAMPLE_CHARS: usize = 120;

/// The byte of 0x80 and above that Windows code page 1252 writes a character as, if it
/// does. The five bytes that the page leaves undefined stand for the controls of their
/// number.
pub open spec fn high_byte(c: char) -> Option<u8> {
    if '\u{a0}' <= c && c <= '\u{ff}' {
        Some(c as u8)
    } else if c == '\u{20ac}' {
        Some(0x80u8)
    } else if c == '\u{81}' {
        Some(0x81u8)
    } else if c == '\u{201a}' {
        Some(0x82u8)
    } else if c == '\u{192}' {
        Some(0x83u8)
    } else if c == '\u{201e}' {
        Some(0x84u8)
    } else if c == '\u{2026}' {
        Some(0x85u8)
    } else if c == '\u{2020}' {
        Some(0x86u8)
    } else if c == '\u{2021}' {
        Some(0x87u8)
    } else if c == '\u{2c6}' {
        Some(0x88u8)
    } else if c == '\u{2030}' {
        Some(0x89u8)
    } else if c == '\u{160}' {
        Some(0x8Au8)
    } else if c == '\u{2039}' {
        Some(0x8Bu8)
    } else if c == '\u{152}' {
        Some(0x8Cu8)
    } else if c == '\u{8d}' {
        Some(0x8Du8)
    } else if c == '\u{17d}' {
        Some(0x8Eu8)
    } else if c == '\u{8f}' {
        Some(0x8Fu8)
    } else if c == '\u{90}' {
        Some(0x90u8)
    } else if c == '\u{2018}' {
        Some(0x91u8)
    } else if c == '\u{2019}' {
        Some(0x92u8)
    } else if c == '\u{201c}' {
        Some(0x93u8)
    } else if c == '\u{201d}' {
        Some(0x94u8)
    } else if c == '\u{2022}' {
        Some(0x95u8)
    } else if c == '\u{2013}' {
        Some(0x96u8)
    } else if c == '\u{2014}' {
        Some(0x97u8)
    } else if c == '\u{2dc}' {
        Some(0x98u8)
    } else if c == '\u{2122}' {
        Some(0x99u8)
    } else if c == '\u{161}' {
        Some(0x9Au8)
    } else if c == '\u{203a}' {
        Some(0x9Bu8)
    } else if c == '\u{153}' {
        Some(0x9Cu8)
    } else if c == '\u{9d}' {
        Some(0x9Du8)
    } else if c == '\u{17e}' {
        Some(0x9Eu8)
    } else if c == '\u{178}' {
        Some(0x9Fu8)
    } else {
        None
    }
}

fn high_byte_of(c: char) -> (byte: Option<u8>)
    ensures
        byte == high_byte(c),
{
    if '\u{a0}' <= c && c <= '\u{ff}' {
        Some(c as u8)
    } else if c == '\u{20ac}' {
        Some(0x80u8)
    } else if c == '\u{81}' {
        Some(0x81u8)
    } else if c == '\u{201a}' {
        Some(0x82u8)
    } else if c == '\u{192}' {
        Some(0x83u8)
    } else if c == '\u{201e}' {
        Some(0x84u8)
    } else if c == '\u{2026}' {
        Some(0x85u8)
    } else if c == '\u{2020}' {
        Some(0x86u8)
    } else if c == '\u{2021}' {
        Some(0x87u8)
    } else if c == '\u{2c6}' {
        Some(0x88u8)
    } else if c == '\u{2030}' {
        Some(0x89u8)
    } else if c == '\u{160}' {
        Some(0x8Au8)
    } else if c == '\u{2039}' {
        Some(0x8Bu8)
    } else if c == '\u{152}' {
        Some(0x8Cu8)
    } else if c == '\u{8d}' {
        Some(0x8Du8)
    } else if c == '\u{17d}' {
        Some(0x8Eu8)
    } else if c == '\u{8f}' {
        Some(0x8Fu8)
    } else if c == '\u{90}' {
        Some(0x90u8)
    } else if c == '\u{2018}' {
        Some(0x91u8)
    } else if c == '\u{2019}' {
        Some(0x92u8)
    } else if c == '\u{201c}' {
        Some(0x93u8)
    } else if c == '\u{201d}' {
        Some(0x94u8)
    } else if c == '\u{2022}' {
        Some(0x95u8)
    } else if c == '\u{2013}' {
        Some(0x96u8)
    } else if c == '\u{2014}' {
        Some(0x97u8)
    } else if c == '\u{2dc}' {
        Some(0x98u8)
    } else if c == '\u{2122}' {
        Some(0x99u8)
    } else if c == '\u{161}' {
        Some(0x9Au8)
    } else if c == '\u{203a}' {
        Some(0x9Bu8)
    } else if c == '\u{153}' {
        Some(0x9Cu8)
    } else if c == '\u{9d}' {
        Some(0x9Du8)
    } else if c == '\u{17e}' {
        Some(0x9Eu8)
    } else if c == '\u{178}' {
        Some(0x9Fu8)
    } else {
        None
    }
}

/// Where the characters with such bytes end, from a place on.
pub open spec fn run_end(text: Seq<char>, at: int) -> int
    decreases text.len() - at,
{
    if at < 0 || at >= text.len() || high_byte(text[at]) is None {
        at
    } else {
        run_end(text, at + 1)
    }
}

/// The bytes that the characters from one place to another are written as.
pub open spec fn run_bytes(text: Seq<char>, from: int, to: int) -> Seq<u8> {
    Seq::new((to - from) as nat, |i: int| high_byte(text[from + i])->Some_0)
}

pub proof fn lemma_run_end_bounds(text: Seq<char>, at: int)
    requires
        0 <= at <= text.len(),
    ensures
        at <= run_end(text, at) <= text.len(),
        at < text.len() && high_byte(text[at]) is Some ==> at < run_end(text, at),
    decreases text.len() - at,
{
    if at < text.len() && high_byte(text[at]) is Some {
        lemma_run_end_bounds(text, at + 1);
    }
}

/// How many runs of characters were UTF-8 that was read as code page 1252: written in
/// that page again, their bytes are UTF-8.
pub open spec fn double_runs(text: Seq<char>, at: int) -> nat
    decreases text.len() - at,
{
    if at < 0 || at >= text.len() {
        0
    } else if high_byte(text[at]) is None {
        double_runs(text, at + 1)
    } else {
        proof {
            lemma_run_end_bounds(text, at);
        }
        let end = run_end(text, at);
        (if vstd::utf8::valid_utf8(run_bytes(text, at, end)) {
            1nat
        } else {
            0
        }) + double_runs(text, end)
    }
}

fn count_double_runs(chars: &[char]) -> (count: usize)
    ensures
        count == double_runs(chars@, 0),
{
    let n: usize = chars.len();
    let mut count: usize = 0;
    let mut at: usize = 0;
    while at < n
        invariant
            at <= n,
            n == chars@.len(),
            count <= at,
            count + double_runs(chars@, at as int) == double_runs(chars@, 0),
        decreases n - at,
    {
        let mut bytes: Vec<u8> = Vec::new();
        let mut end: usize = at;
        while end < n && high_byte_of(chars[end]).is_some()
            invariant
                at <= end <= n,
                n == chars@.len(),
                bytes@ == run_bytes(chars@, at as int, end as int),
                run_end(chars@, end as int) == run_end(chars@, at as int),
            decreases n - end,
        {
            match high_byte_of(chars[end]) {
                Some(byte) => {
                    bytes.push(byte);
                },
                None => {},
            }
            assert(bytes@ =~= run_bytes(chars@, at as int, end + 1));
            end += 1;
        }
        if end == at {
            at += 1;
        } else {
            if utf8_text(&bytes).is_some() {
                count += 1;
            }
            at = end;
        }
    }
    count
}

pub open spec fn is_c1(c: char) -> bool {
    '\u{80}' <= c && c <= '\u{9f}'
}

/// How many of the characters were put for bytes that could not be decoded.
pub open spec fn replacements_in(text: Seq<char>) -> nat
    decreases text.len(),
{
    if text.len() == 0 {
        0
    } else {
        replacements_in(text.drop_last()) + if text.last() == '\u{fffd}' {
            1nat
        } else {
            0
        }
    }
}

/// How many of the characters are controls of the upper half.
pub open spec fn c1_controls_in(text: Seq<char>) -> nat
    decreases text.len(),
{
    if text.len() == 0 {
        0
    } else {
        c1_controls_in(text.drop_last()) + if is_c1(text.last()) {
            1nat
        } else {
            0
        }
    }
}

fn count_marks(chars: &[char]) -> (counts: (usize, usize))
    ensures
        counts.0 == replacements_in(chars@),
        counts.1 == c1_controls_in(chars@),
{
    let n: usize = chars.len();
    let mut replacements: usize = 0;
    let mut controls: usize = 0;
    let mut i: usize = 0;
    while i < n
        invariant
            i <= n,
            n == chars@.len(),
            replacements <= i,
            controls <= i,
            replacements == replacements_in(chars@.take(i as int)),
            controls == c1_controls_in(chars@.take(i as int)),
        decreases n - i,
    {
        let c = chars[i];
        assert(chars@.take(i + 1).drop_last() =~= chars@.take(i as int));
        assert(chars@.take(i + 1).last() == c);
        if c == '\u{fffd}' {
            replacements += 1;
        }
        if '\u{80}' <= c && c <= '\u{9f}' {
            controls += 1;
        }
        i += 1;
    }
    assert(chars@.take(i as int) =~= chars@);
    (replacements, controls)
}

/// The sum of two counts, or the largest count where they are more.
pub open spec fn capped_sum(a: nat, b: nat) -> nat {
    numbers::least(a + b, usize::MAX as nat)
}

fn add_counts(a: usize, b: usize) -> (sum: usize)
    ensures
        sum == capped_sum(a as nat, b as nat),
{
    if b > usize::MAX - a {
        usize::MAX
    } else {
        a + b
    }
}

/// The first line in which something was found.
#[derive(Debug)]
pub struct SuspectSample {
    pub line: usize,
    pub text: String,
}

/// What was found in a text.
#[derive(Debug)]
pub struct EncodingSuspects {
    pub double_encoded: usize,
    pub replacement_characters: usize,
    pub c1_controls: usize,
    pub sample: Option<SuspectSample>,
}

/// The model of what was found in a text.
#[verifier::ext_equal]
pub struct Suspects {
    pub double_encoded: nat,
    pub replacement_characters: nat,
    pub c1_controls: nat,
    pub sample: Option<(nat, Seq<char>)>,
}

impl View for EncodingSuspects {
    type V = Suspects;

    open spec fn view(&self) -> Suspects {
        Suspects {
            double_encoded: self.double_encoded as nat,
            replacement_characters: self.replacement_characters as nat,
            c1_controls: self.c1_controls as nat,
            sample: match self.sample {
                Some(sample) => Some((sample.line as nat, sample.text@)),
                None => None,
            },
        }
    }
}

impl Suspects {
    pub open spec fn nothing() -> Suspects {
        Suspects { double_encoded: 0, replacement_characters: 0, c1_controls: 0, sample: None }
    }

    pub open spec fn is_nothing(self) -> bool {
        self.double_encoded == 0 && self.replacement_characters == 0 && self.c1_controls == 0
    }

    /// What was found in a line; with `double_only`, of the runs alone.
    pub open spec fn in_line(line: Seq<char>, double_only: bool, number: nat) -> Suspects {
        let found = Suspects {
            double_encoded: double_runs(line, 0),
            replacement_characters: if double_only {
                0
            } else {
                replacements_in(line)
            },
            c1_controls: if double_only {
                0
            } else {
                c1_controls_in(line)
            },
            sample: None,
        };
        if found.is_nothing() {
            found
        } else {
            Suspects {
                sample: Some((number, output::clamped(line, SAMPLE_CHARS as nat))),
                ..found
            }
        }
    }

    /// Both findings together: the counts are added, and the first sample is kept.
    pub open spec fn and(self, other: Suspects) -> Suspects {
        Suspects {
            double_encoded: capped_sum(self.double_encoded, other.double_encoded),
            replacement_characters: capped_sum(
                self.replacement_characters,
                other.replacement_characters,
            ),
            c1_controls: capped_sum(self.c1_controls, other.c1_controls),
            sample: match self.sample {
                Some(sample) => Some(sample),
                None => other.sample,
            },
        }
    }

    /// What was found in the first `n` lines.
    pub open spec fn in_lines(lines: Seq<Seq<char>>, double_only: bool, n: nat) -> Suspects
        decreases n,
    {
        if n == 0 || n > lines.len() {
            Suspects::nothing()
        } else {
            Suspects::in_lines(lines, double_only, (n - 1) as nat).and(
                Suspects::in_line(lines[n - 1], double_only, n),
            )
        }
    }

    /// What was found in a text.
    pub open spec fn in_text(text: Seq<char>, double_only: bool) -> Suspects {
        let all = lines::text_lines(text);
        Suspects::in_lines(all, double_only, all.len())
    }

    pub open spec fn sample_json(self) -> Json {
        match self.sample {
            Some((line, text)) => Json::Object(
                seq![("line"@, json::count_json(line)), ("text"@, Json::Text(text))],
            ),
            None => Json::Null,
        }
    }

    /// What a receipt says of it.
    pub open spec fn json(self) -> Json {
        Json::Object(
            seq![
                ("double_encoded"@, json::count_json(self.double_encoded)),
                ("replacement_characters"@, json::count_json(self.replacement_characters)),
                ("c1_controls"@, json::count_json(self.c1_controls)),
                ("sample"@, self.sample_json()),
            ],
        )
    }

    /// What a reader is told of it.
    pub open spec fn note(self) -> Seq<char> {
        "[contextmink] encoding suspects: double_encoded="@ + numbers::decimal(self.double_encoded)
            + " replacement_characters="@ + numbers::decimal(self.replacement_characters)
            + " c1_controls="@ + numbers::decimal(self.c1_controls) + (match self.sample {
            Some((line, text)) => " sample="@ + numbers::decimal(line) + ": "@ + text,
            None => Seq::empty(),
        })
    }

    /// The field of a receipt: there is none where nothing was found.
    pub open spec fn field(self) -> Seq<(Seq<char>, Json)> {
        if self.is_nothing() {
            Seq::empty()
        } else {
            seq![("encoding_suspects"@, self.json())]
        }
    }

    /// The lines that a reader is shown: none where nothing was found.
    pub open spec fn notes(self) -> Seq<Seq<char>> {
        if self.is_nothing() {
            Seq::empty()
        } else {
            seq![self.note()]
        }
    }
}

/// What is found in a line; with `double_only`, of UTF-8 that was read as code page 1252
/// alone.
pub fn scan_encoding_suspects_from_line(line: &str, double_only: bool, number: usize) -> (found:
    EncodingSuspects)
    ensures
        found@ == Suspects::in_line(line@, double_only, number as nat),
{
    let chars = chars_of(line);
    let double_encoded = count_double_runs(&chars);
    let (replacement_characters, c1_controls): (usize, usize) = if double_only {
        (0, 0)
    } else {
        count_marks(&chars)
    };
    let sample = if double_encoded == 0 && replacement_characters == 0 && c1_controls == 0 {
        None
    } else {
        Some(SuspectSample { line: number, text: clamp_text(line, SAMPLE_CHARS) })
    };
    EncodingSuspects { double_encoded, replacement_characters, c1_controls, sample }
}

/// What is found in lines, the first of which has the number 1.
pub fn scan_encoding_suspects_from_lines(all: &[String], double_only: bool) -> (found:
    EncodingSuspects)
    ensures
        found@ == Suspects::in_lines(strings::texts(all@), double_only, all@.len()),
{
    let n: usize = all.len();
    let ghost texts = strings::texts(all@);
    let mut found = EncodingSuspects {
        double_encoded: 0,
        replacement_characters: 0,
        c1_controls: 0,
        sample: None,
    };
    let mut i: usize = 0;
    while i < n
        invariant
            i <= n,
            n == all@.len(),
            texts == strings::texts(all@),
            found@ == Suspects::in_lines(texts, double_only, i as nat),
        decreases n - i,
    {
        assert(texts[i as int] == all@[i as int]@);
        let ghost before = found@;
        let more = scan_encoding_suspects_from_line(all[i].as_str(), double_only, i + 1);
        let ghost other = more@;
        found = found.merge(more);
        assert(found@ == before.and(other));
        i += 1;
    }
    found
}

/// What is found in a text.
pub fn scan_encoding_suspects(text: &str, double_only: bool) -> (found: EncodingSuspects)
    ensures
        found@ == Suspects::in_text(text@, double_only),
{
    let all = lines_of(text);
    assert(strings::texts(all@).len() == all@.len());
    scan_encoding_suspects_from_lines(&all, double_only)
}

impl EncodingSuspects {
    pub fn is_empty(&self) -> (held: bool)
        ensures
            held == self@.is_nothing(),
    {
        self.double_encoded == 0 && self.replacement_characters == 0 && self.c1_controls == 0
    }

    /// Both findings together: the counts are added, and the first sample is kept.
    pub fn merge(self, other: EncodingSuspects) -> (both: EncodingSuspects)
        ensures
            both@ == self@.and(other@),
    {
        let sample = match self.sample {
            Some(sample) => Some(sample),
            None => other.sample,
        };
        EncodingSuspects {
            double_encoded: add_counts(self.double_encoded, other.double_encoded),
            replacement_characters: add_counts(
                self.replacement_characters,
                other.replacement_characters,
            ),
            c1_controls: add_counts(self.c1_controls, other.c1_controls),
            sample,
        }
    }

    /// What a receipt says of it.
    pub fn receipt_value(&self) -> (value: JsonValue)
        ensures
            value@ == self@.json(),
    {
        let sample = match &self.sample {
            Some(sample) => {
                let mut parts: Vec<(String, JsonValue)> = Vec::new();
                assert(json::member_models(parts@) =~= Seq::empty());
                add_member(&mut parts, "line", json_count(sample.line));
                add_member(&mut parts, "text", json_text(sample.text.as_str()));
                let value = json_object(parts);
                assert(value@->Object_0 =~= self@.sample_json()->Object_0);
                value
            },
            None => JsonValue::Null,
        };
        let mut members: Vec<(String, JsonValue)> = Vec::new();
        assert(json::member_models(members@) =~= Seq::empty());
        add_member(&mut members, "double_encoded", json_count(self.double_encoded));
        add_member(
            &mut members,
            "replacement_characters",
            json_count(self.replacement_characters),
        );
        add_member(&mut members, "c1_controls", json_count(self.c1_controls));
        add_member(&mut members, "sample", sample);
        let value = json_object(members);
        assert(value@->Object_0 =~= self@.json()->Object_0);
        value
    }

    /// What a reader is told of it.
    pub fn human_note(&self) -> (note: String)
        ensures
            note@ == self@.note(),
    {
        let counts = "[contextmink] encoding suspects: double_encoded=".to_owned().concat(
            count_text(self.double_encoded).as_str(),
        ).concat(" replacement_characters=").concat(
            count_text(self.replacement_characters).as_str(),
        ).concat(" c1_controls=").concat(count_text(self.c1_controls).as_str());
        match &self.sample {
            Some(sample) => {
                let shown = " sample=".to_owned().concat(count_text(sample.line).as_str()).concat(
                    ": ",
                ).concat(sample.text.as_str());
                counts.concat(shown.as_str())
            },
            None => {
                assert(counts@ + Seq::empty() =~= counts@);
                counts
            },
        }
    }
}

proof fn lemma_run_reaches(text: Seq<char>, at: int, to: int)
    requires
        0 <= at <= to <= text.len(),
        forall|i: int| at <= i < to ==> high_byte(#[trigger] text[i]) is Some,
        to < text.len() ==> high_byte(text[to]) is None,
    ensures
        run_end(text, at) == to,
    decreases to - at,
{
    if at < to {
        lemma_run_reaches(text, at + 1, to);
    }
}

/// UTF-8 bytes of 0x80 and above that were read as code page 1252 are found, as one run.
pub proof fn misread_utf8_is_found(bytes: Seq<u8>, text: Seq<char>)
    requires
        bytes.len() > 0,
        vstd::utf8::valid_utf8(bytes),
        text.len() == bytes.len(),
        forall|i: int| 0 <= i < text.len() ==> high_byte(#[trigger] text[i]) == Some(bytes[i]),
    ensures
        double_runs(text, 0) == 1,
{
    lemma_run_reaches(text, 0, text.len() as int);
    assert(run_bytes(text, 0, text.len() as int) =~= bytes);
    assert(high_byte(text[0]) is Some);
    assert(double_runs(text, text.len() as int) == 0);
}

/// A text of ASCII characters alone has no suspects.
pub proof fn ascii_text_has_no_suspects(text: Seq<char>, number: nat)
    requires
        forall|i: int| 0 <= i < text.len() ==> #[trigger] text[i] < '\u{80}',
    ensures
        Suspects::in_line(text, false, number) == Suspects::nothing(),
{
    lemma_no_runs(text, 0);
    lemma_no_marks(text);
}

proof fn lemma_no_runs(text: Seq<char>, at: int)
    requires
        0 <= at,
        forall|i: int| 0 <= i < text.len() ==> #[trigger] text[i] < '\u{80}',
    ensures
        double_runs(text, at) == 0,
    decreases text.len() - at,
{
    if at < text.len() {
        assert(high_byte(text[at]) is None);
        lemma_no_runs(text, at + 1);
    }
}

proof fn lemma_no_marks(text: Seq<char>)
    requires
        forall|i: int| 0 <= i < text.len() ==> #[trigger] text[i] < '\u{80}',
    ensures
        replacements_in(text) == 0,
        c1_controls_in(text) == 0,
    decreases text.len(),
{
    if text.len() > 0 {
        assert(text.last() == text[text.len() - 1]);
        assert forall|i: int| 0 <= i < text.drop_last().len() implies #[trigger] text.drop_last()[i]
            < '\u{80}' by {
            assert(text.drop_last()[i] == text[i]);
        }
        lemma_no_marks(text.drop_last());
    }
}

/// Replaced characters and controls of the upper half are counted one by one, wherever
/// they stand.
pub proof fn suspects_are_counted_one_by_one(a: Seq<char>, b: Seq<char>)
    ensures
        replacements_in(a + b) == replacements_in(a) + replacements_in(b),
        c1_controls_in(a + b) == c1_controls_in(a) + c1_controls_in(b),
        forall|c: char|
            #[trigger] replacements_in(seq![c]) == if c == '\u{fffd}' {
                1nat
            } else {
                0
            },
        forall|c: char|
            #[trigger] c1_controls_in(seq![c]) == if '\u{80}' <= c && c <= '\u{9f}' {
                1nat
            } else {
                0
            },
    decreases b.len(),
{
    if b.len() > 0 {
        assert((a + b).drop_last() =~= a + b.drop_last());
        suspects_are_counted_one_by_one(a, b.drop_last());
    } else {
        assert(a + b =~= a);
    }
    assert forall|c: char|
        #[trigger] replacements_in(seq![c]) == if c == '\u{fffd}' {
            1nat
        } else {
            0
        } by {
        assert(seq![c].drop_last() =~= Seq::empty());
        assert(replacements_in(seq![c].drop_last()) == 0);
    }
    assert forall|c: char|
        #[trigger] c1_controls_in(seq![c]) == if '\u{80}' <= c && c <= '\u{9f}' {
            1nat
        } else {
            0
        } by {
        assert(seq![c].drop_last() =~= Seq::empty());
        assert(c1_controls_in(seq![c].drop_last()) == 0);
    }
}

/// A line is given as the sample if and only if something was found in it; of several
/// lines the first such one is.
pub proof fn the_first_suspect_line_is_the_sample(
    lines: Seq<Seq<char>>,
    double_only: bool,
    n: nat,
)
    requires
        n <= lines.len(),
    ensures
        Suspects::in_lines(lines, double_only, n).sample is Some <==> (exists|i: int|
            0 <= i < n && !Suspects::in_line(#[trigger] lines[i], double_only, 0).is_nothing()),
        Suspects::in_lines(lines, double_only, n).sample matches Some((number, text)) ==> 1
            <= number <= n && text == output::clamped(
            lines[number - 1],
            SAMPLE_CHARS as nat,
        ) && (forall|i: int|
            0 <= i < number - 1 ==> Suspects::in_line(
                #[trigger] lines[i],
                double_only,
                0,
            ).is_nothing()),
    decreases n,
{
    if n > 0 {
        the_first_suspect_line_is_the_sample(lines, double_only, (n - 1) as nat);
        let last = Suspects::in_line(lines[n - 1], double_only, n);
        assert(last.is_nothing() == Suspects::in_line(
            lines[n - 1],
            double_only,
            0,
        ).is_nothing());
    }
}

} // verus!
