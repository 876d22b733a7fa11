//! What a search finds in one file.
use vstd::prelude::*;

use crate::output;
use crate::output::clamp_text_with_status;
use crate::strings;
use crate::text;
use crate::text::TextMatcher;

verus! {

/// A line that is shown of a file: a match, or a line near one.
#[derive(Debug)]
pub struct SampleLine {
    pub line: usize,
    pub text: String,
    pub text_truncated: bool,
    pub is_match: bool,
}

/// The model of a line that is shown of a file.
pub struct Sample {
    pub line: nat,
    pub text: Seq<char>,
    pub cut: bool,
    pub is_match: bool,
}

impl View for SampleLine {
    type V = Sample;

    open spec fn view(&self) -> Sample {
        Sample {
            line: self.line as nat,
            text: self.text@,
            cut: self.text_truncated,
            is_match: self.is_match,
        }
    }
}

pub open spec fn sample_models(samples: Seq<SampleLine>) -> Seq<Sample> {
    samples.map_values(|sample: SampleLine| sample@)
}

/// What bounds the search of one file.
#[derive(Debug, Clone, Copy)]
pub struct ScanLimits {
    /// How many matching lines are sampled.
    pub lines_per_file: usize,
    /// How many lines on either side of a sampled match are shown with it.
    pub context: usize,
    pub max_line_chars: usize,
    pub max_file_bytes: u64,
}

/// What a search finds in a file.
#[derive(Debug)]
pub enum FileScan {
    Matched {
        path: String,
        matching_lines: usize,
        samples: Vec<SampleLine>,
        /// How many matching lines are not shown.
        sample_matching_lines_omitted: usize,
    },
    SkippedLarge { path: String, bytes: u64 },
    SkippedBinary { path: String },
    NoMatch,
}

/// The model of what a search finds in a file.
pub enum Scan {
    Matched { path: Seq<char>, matching_lines: nat, samples: Seq<Sample>, omitted: nat },
    Large { path: Seq<char>, bytes: nat },
    Binary { path: Seq<char> },
    NoMatch,
}

impl View for FileScan {
    type V = Scan;

    open spec fn view(&self) -> Scan {
        match self {
            FileScan::Matched { path, matching_lines, samples, sample_matching_lines_omitted } =>
                Scan::Matched {
                path: path@,
                matching_lines: *matching_lines as nat,
                samples: sample_models(samples@),
                omitted: *sample_matching_lines_omitted as nat,
            },
            FileScan::SkippedLarge { path, bytes } => Scan::Large {
                path: path@,
                bytes: *bytes as nat,
            },
            FileScan::SkippedBinary { path } => Scan::Binary { path: path@ },
            FileScan::NoMatch => Scan::NoMatch,
        }
    }
}

impl Scan {
    /// No more matching lines are left out than there are.
    pub open spec fn well_formed(self) -> bool {
        self matches Scan::Matched { matching_lines, omitted, .. } ==> omitted <= matching_lines
    }
}

/// Whether a line is one of the matches that are sampled: the first so many.
pub open spec fn is_sampled(matcher: text::Matcher, lines: Seq<Seq<char>>, max: nat, i: int) -> bool {
    &&& 0 <= i < lines.len()
    &&& matcher.matches(lines[i])
    &&& matcher.matching_lines(lines.take(i)) < max
}

/// Whether a sampled match lies within so many lines.
pub open spec fn is_near(
    matcher: text::Matcher,
    lines: Seq<Seq<char>>,
    max: nat,
    context: nat,
    i: int,
) -> bool {
    exists|k: int| i - context <= k <= i + context && #[trigger] is_sampled(matcher, lines, max, k)
}

/// The lines of the first `n` that are shown.
pub open spec fn samples_of(
    matcher: text::Matcher,
    lines: Seq<Seq<char>>,
    limits: ScanLimits,
    n: nat,
) -> Seq<Sample>
    decreases n,
{
    if n == 0 || n > lines.len() {
        Seq::empty()
    } else {
        let before = samples_of(matcher, lines, limits, (n - 1) as nat);
        if is_near(
            matcher,
            lines,
            limits.lines_per_file as nat,
            limits.context as nat,
            n - 1,
        ) {
            before.push(
                Sample {
                    line: n,
                    text: output::clamped(lines[n - 1], limits.max_line_chars as nat),
                    cut: lines[n - 1].len() > limits.max_line_chars,
                    is_match: matcher.matches(lines[n - 1]),
                },
            )
        } else {
            before
        }
    }
}

/// How many of the first `n` lines match but are not shown.
pub open spec fn omitted_of(
    matcher: text::Matcher,
    lines: Seq<Seq<char>>,
    limits: ScanLimits,
    n: nat,
) -> nat
    decreases n,
{
    if n == 0 || n > lines.len() {
        0
    } else {
        omitted_of(matcher, lines, limits, (n - 1) as nat) + if matcher.matches(lines[n - 1])
            && !is_near(
            matcher,
            lines,
            limits.lines_per_file as nat,
            limits.context as nat,
            n - 1,
        ) {
            1nat
        } else {
            0
        }
    }
}

/// What a search finds in a file; `lines` is missing where the file is no text.
pub open spec fn scanned(
    matcher: text::Matcher,
    path: Seq<char>,
    bytes: nat,
    lines: Option<Seq<Seq<char>>>,
    limits: ScanLimits,
) -> Scan {
    if bytes > limits.max_file_bytes {
        Scan::Large { path, bytes }
    } else {
        match lines {
            None => Scan::Binary { path },
            Some(lines) => if matcher.matching_lines(lines) == 0 {
                Scan::NoMatch
            } else {
                Scan::Matched {
                    path,
                    matching_lines: matcher.matching_lines(lines),
                    samples: samples_of(matcher, lines, limits, lines.len()),
                    omitted: omitted_of(matcher, lines, limits, lines.len()),
                }
            },
        }
    }
}

proof fn lemma_omitted_bound(
    matcher: text::Matcher,
    lines: Seq<Seq<char>>,
    limits: ScanLimits,
    n: nat,
)
    requires
        n <= lines.len(),
    ensures
        omitted_of(matcher, lines, limits, n) <= matcher.matching_lines(lines.take(n as int)),
    decreases n,
{
    if n > 0 {
        lemma_omitted_bound(matcher, lines, limits, (n - 1) as nat);
        assert(lines.take(n as int).drop_last() =~= lines.take(n - 1));
        assert(lines.take(n as int).last() == lines[n - 1]);
    }
}

/// Whether one of the marks lies within so many places.
fn has_mark_near(marks: &Vec<bool>, at: usize, context: usize) -> (held: bool)
    requires
        at < marks@.len(),
    ensures
        held == exists|k: int|
            at - context <= k <= at + context && 0 <= k < marks@.len() && #[trigger] marks@[k],
{
    let mut i: usize = if at > context {
        at - context
    } else {
        0
    };
    let last: usize = if context < marks.len() - 1 - at {
        at + context
    } else {
        marks.len() - 1
    };
    while i <= last
        invariant
            last < marks.len(),
            at < marks@.len(),
            i <= last + 1,
            last == at + context || last == marks@.len() - 1,
            last <= at + context,
            i >= at - context,
            forall|k: int| at - context <= k < i && 0 <= k ==> !#[trigger] marks@[k],
        decreases last + 1 - i,
    {
        if marks[i] {
            assert(marks@[i as int]);
            return true;
        }
        i += 1;
    }
    false
}

/// What a search finds in a file, whose size and whose lines, if it is text, are
/// given.
pub fn scan_file(
    matcher: &TextMatcher,
    path: &str,
    bytes: u64,
    lines: Option<&[String]>,
    limits: ScanLimits,
) -> (scan: FileScan)
    ensures
        scan@ == scanned(
            matcher@,
            path@,
            bytes as nat,
            match lines {
                Some(lines) => Some(strings::texts(lines@)),
                None => None,
            },
            limits,
        ),
        scan@.well_formed(),
{
    if bytes > limits.max_file_bytes {
        return FileScan::SkippedLarge { path: path.to_owned(), bytes };
    }
    let lines = match lines {
        Some(lines) => lines,
        None => {
            return FileScan::SkippedBinary { path: path.to_owned() };
        },
    };
    let ghost texts = strings::texts(lines@);
    let ghost max = limits.lines_per_file as nat;
    let mut matched: Vec<bool> = Vec::new();
    let mut sampled: Vec<bool> = Vec::new();
    let mut total: usize = 0;
    let mut i: usize = 0;
    assert(texts.take(0) =~= Seq::empty());
    while i < lines.len()
        invariant
            i <= lines.len(),
            texts == strings::texts(lines@),
            max == limits.lines_per_file,
            matched@.len() == i,
            sampled@.len() == i,
            total <= i,
            total == matcher@.matching_lines(texts.take(i as int)),
            forall|k: int| 0 <= k < i ==> #[trigger] matched@[k] == matcher@.matches(texts[k]),
            forall|k: int|
                0 <= k < i ==> #[trigger] sampled@[k] == is_sampled(matcher@, texts, max, k),
        decreases lines.len() - i,
    {
        assert(texts[i as int] == lines@[i as int]@);
        assert(texts.take(i + 1).drop_last() =~= texts.take(i as int));
        assert(texts.take(i + 1).last() == texts[i as int]);
        let found = matcher.is_match(lines[i].as_str());
        matched.push(found);
        sampled.push(found && total < limits.lines_per_file);
        if found {
            total += 1;
        }
        i += 1;
    }
    assert(texts.take(i as int) =~= texts);
    if total == 0 {
        return FileScan::NoMatch;
    }
    let mut samples: Vec<SampleLine> = Vec::new();
    let mut omitted: usize = 0;
    let mut n: usize = 0;
    assert(sample_models(samples@) =~= Seq::empty());
    while n < lines.len()
        invariant
            n <= lines.len(),
            texts == strings::texts(lines@),
            max == limits.lines_per_file,
            matched@.len() == lines@.len(),
            sampled@.len() == lines@.len(),
            omitted <= n,
            forall|k: int|
                0 <= k < lines@.len() ==> #[trigger] matched@[k] == matcher@.matches(texts[k]),
            forall|k: int|
                0 <= k < lines@.len() ==> #[trigger] sampled@[k] == is_sampled(
                    matcher@,
                    texts,
                    max,
                    k,
                ),
            sample_models(samples@) == samples_of(matcher@, texts, limits, n as nat),
            omitted == omitted_of(matcher@, texts, limits, n as nat),
        decreases lines.len() - n,
    {
        assert(texts[n as int] == lines@[n as int]@);
        let near = has_mark_near(&sampled, n, limits.context);
        proof {
            if near {
                let k = choose|k: int|
                    n - limits.context <= k <= n + limits.context && 0 <= k < sampled@.len()
                        && #[trigger] sampled@[k];
                assert(is_sampled(matcher@, texts, max, k));
            } else {
                assert forall|k: int|
                    n - limits.context <= k <= n + limits.context implies !#[trigger] is_sampled(
                    matcher@,
                    texts,
                    max,
                    k,
                ) by {
                    if 0 <= k < lines@.len() {
                        assert(!sampled@[k]);
                    }
                }
            }
            assert(near == is_near(matcher@, texts, max, limits.context as nat, n as int));
        }
        if near {
            let status = clamp_text_with_status(lines[n].as_str(), limits.max_line_chars);
            let sample = SampleLine {
                line: n + 1,
                text: status.text,
                text_truncated: status.truncated,
                is_match: matched[n],
            };
            let ghost before = samples@;
            samples.push(sample);
            assert(sample_models(samples@) =~= sample_models(before).push(sample@));
        } else if matched[n] {
            omitted += 1;
        }
        n += 1;
    }
    proof {
        lemma_omitted_bound(matcher@, texts, limits, texts.len());
    }
    FileScan::Matched {
        path: path.to_owned(),
        matching_lines: total,
        samples,
        sample_matching_lines_omitted: omitted,
    }
}

/// Every line that is shown is a line of the file, under its own number, cut to length,
/// and marked as a match if and only if it is one; it is at most so many lines away from
/// one of the matches that are sampled, and the lines come in order.
pub proof fn samples_are_lines_of_the_file(
    matcher: text::Matcher,
    lines: Seq<Seq<char>>,
    limits: ScanLimits,
    n: nat,
    s: int,
)
    requires
        n <= lines.len(),
        0 <= s < samples_of(matcher, lines, limits, n).len(),
    ensures
        ({
            let samples = samples_of(matcher, lines, limits, n);
            let sample = samples[s];
            &&& 1 <= sample.line <= n
            &&& sample.text == output::clamped(
                lines[sample.line - 1],
                limits.max_line_chars as nat,
            )
            &&& sample.is_match == matcher.matches(lines[sample.line - 1])
            &&& exists|k: int|
                0 <= k < lines.len() && #[trigger] matcher.matches(lines[k])
                    && matcher.matching_lines(lines.take(k)) < limits.lines_per_file && k
                    - limits.context <= sample.line - 1 <= k + limits.context
            &&& s > 0 ==> samples[s - 1].line < sample.line
        }),
    decreases n,
{
    let samples = samples_of(matcher, lines, limits, n);
    let before = samples_of(matcher, lines, limits, (n - 1) as nat);
    if s < before.len() {
        samples_are_lines_of_the_file(matcher, lines, limits, (n - 1) as nat, s);
        assert(samples[s] == before[s]);
        if s > 0 {
            assert(samples[s - 1] == before[s - 1]);
        }
    } else {
        assert(is_near(
            matcher,
            lines,
            limits.lines_per_file as nat,
            limits.context as nat,
            n - 1,
        ));
        let k = choose|k: int|
            n - 1 - limits.context <= k <= n - 1 + limits.context && #[trigger] is_sampled(
                matcher,
                lines,
                limits.lines_per_file as nat,
                k,
            );
        assert(matcher.matches(lines[k]));
        if s > 0 {
            samples_are_lines_of_the_file(matcher, lines, limits, (n - 1) as nat, s - 1);
            assert(samples[s - 1] == before[s - 1]);
        }
    }
}

/// Every line within so many lines of one of the first matches, the matches themselves
/// among them, is shown.
pub proof fn lines_near_the_first_matches_are_shown(
    matcher: text::Matcher,
    lines: Seq<Seq<char>>,
    limits: ScanLimits,
    n: nat,
    line: nat,
    k: int,
)
    requires
        1 <= line <= n <= lines.len(),
        0 <= k < lines.len(),
        matcher.matches(lines[k]),
        matcher.matching_lines(lines.take(k)) < limits.lines_per_file,
        k - limits.context <= line - 1 <= k + limits.context,
    ensures
        exists|s: int|
            0 <= s < samples_of(matcher, lines, limits, n).len() && (#[trigger] samples_of(
                matcher,
                lines,
                limits,
                n,
            )[s]).line == line,
    decreases n,
{
    let samples = samples_of(matcher, lines, limits, n);
    let before = samples_of(matcher, lines, limits, (n - 1) as nat);
    assert(is_sampled(matcher, lines, limits.lines_per_file as nat, k));
    if line == n {
        assert(is_near(
            matcher,
            lines,
            limits.lines_per_file as nat,
            limits.context as nat,
            n - 1,
        ));
        assert(samples[before.len() as int].line == line);
    } else {
        lines_near_the_first_matches_are_shown(matcher, lines, limits, (n - 1) as nat, line, k);
        let s = choose|s: int| 0 <= s < before.len() && (#[trigger] before[s]).line == line;
        assert(samples[s] == before[s]);
    }
}

/// How many of the lines that are shown match.
pub open spec fn matches_shown(samples: Seq<Sample>) -> nat
    decreases samples.len(),
{
    if samples.len() == 0 {
        0
    } else {
        matches_shown(samples.drop_last()) + if samples.last().is_match {
            1nat
        } else {
            0
        }
    }
}

/// The matching lines that are shown and those that are left out are all that match.
pub proof fn every_matching_line_is_accounted_for(
    matcher: text::Matcher,
    lines: Seq<Seq<char>>,
    limits: ScanLimits,
    n: nat,
)
    requires
        n <= lines.len(),
    ensures
        matches_shown(samples_of(matcher, lines, limits, n)) + omitted_of(matcher, lines, limits, n)
            == matcher.matching_lines(lines.take(n as int)),
    decreases n,
{
    if n > 0 {
        every_matching_line_is_accounted_for(matcher, lines, limits, (n - 1) as nat);
        assert(lines.take(n as int).drop_last() =~= lines.take(n - 1));
        let samples = samples_of(matcher, lines, limits, n);
        let before = samples_of(matcher, lines, limits, (n - 1) as nat);
        if samples.len() > before.len() {
            assert(samples.drop_last() =~= before);
        }
    }
}

/// The lines that match are counted one by one.
pub proof fn matching_lines_add_up(matcher: text::Matcher, a: Seq<Seq<char>>, b: Seq<Seq<char>>)
    ensures
        matcher.matching_lines(a + b) == matcher.matching_lines(a) + matcher.matching_lines(b),
        matcher.matching_lines(Seq::empty()) == 0,
        forall|line: Seq<char>|
            #[trigger] matcher.matching_lines(seq![line]) == if matcher.matches(line) {
                1nat
            } else {
                0
            },
    decreases b.len(),
{
    if b.len() > 0 {
        assert((a + b).drop_last() =~= a + b.drop_last());
        matching_lines_add_up(matcher, a, b.drop_last());
    } else {
        assert(a + b =~= a);
    }
    assert forall|line: Seq<char>|
        #[trigger] matcher.matching_lines(seq![line]) == if matcher.matches(line) {
            1nat
        } else {
            0
        } by {
        assert(seq![line].drop_last() =~= Seq::empty());
        assert(matcher.matching_lines(seq![line].drop_last()) == 0);
    }
}

/// A file is passed over only where it is larger than the limit or is no text; otherwise
/// it is reported if and only if one of its lines matches, with their number.
pub proof fn files_are_reported_where_they_match(
    matcher: text::Matcher,
    path: Seq<char>,
    bytes: nat,
    lines: Seq<Seq<char>>,
    limits: ScanLimits,
)
    ensures
        bytes > limits.max_file_bytes ==> scanned(matcher, path, bytes, Some(lines), limits)
            is Large,
        bytes <= limits.max_file_bytes ==> scanned(matcher, path, bytes, None, limits) is Binary,
        bytes <= limits.max_file_bytes ==> (scanned(matcher, path, bytes, Some(lines), limits)
            is Matched <==> (exists|i: int|
            0 <= i < lines.len() && matcher.matches(#[trigger] lines[i]))),
{
    lemma_some_line_matches(matcher, lines);
}

proof fn lemma_some_line_matches(matcher: text::Matcher, lines: Seq<Seq<char>>)
    ensures
        matcher.matching_lines(lines) > 0 <==> (exists|i: int|
            0 <= i < lines.len() && matcher.matches(#[trigger] lines[i])),
    decreases lines.len(),
{
    if lines.len() > 0 {
        let rest = lines.drop_last();
        lemma_some_line_matches(matcher, rest);
        if matcher.matching_lines(rest) > 0 {
            let i = choose|i: int| 0 <= i < rest.len() && matcher.matches(#[trigger] rest[i]);
            assert(matcher.matches(lines[i]));
        }
        if exists|i: int| 0 <= i < lines.len() && matcher.matches(#[trigger] lines[i]) {
            let i = choose|i: int| 0 <= i < lines.len() && matcher.matches(#[trigger] lines[i]);
            if i < rest.len() {
                assert(matcher.matches(rest[i]));
            }
        }
    }
}

} // verus!
