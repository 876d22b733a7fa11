//! What is reported of a search: which files were looked at, which of them match,
//! and what is shown of them.
use vstd::prelude::*;

use crate::files_report;
use crate::files_report::{nested_repos_receipt_fields, write_nested_repos_note};
use crate::grep_scan;
use crate::grep_scan::{FileScan, SampleLine, Scan};
use crate::json;
use crate::json::{
    add_item, add_member, json_array, json_count, json_number, json_object, json_text, Json,
    JsonValue,
};
use crate::numbers;
use crate::numbers::{count_text, cut_off, smaller};
use crate::output;
use crate::output::{
    clamp_text, clamp_text_with_status, clamp_texts, Receipt, ReceiptCap, ReceiptModel,
    ReceiptResult,
};
use crate::paths;
use crate::paths::{display_path, Host};
use crate::strings;
use crate::strings::{flag_word, join, push_text};

verus! {

/// How many skipped files are named.
pub const SKIPPED_FILES_SAMPLE_LIMIT: usize = 5;

/// What bounds a search and what is shown of it.
#[derive(Debug, Clone, Copy)]
pub struct GrepCaps {
    pub max_matching_files: usize,
    pub show_files: usize,
    pub show_lines_per_file: usize,
    pub context: usize,
    pub show_lines: usize,
    pub show_line_chars: usize,
    pub max_content_files: usize,
    pub max_file_bytes: u64,
    pub max_content_bytes: Option<u64>,
}

/// Why nothing is searched.
#[derive(Debug, Clone, Copy, PartialEq, Eq, Structural)]
pub enum GrepFault {
    ZeroMatchingFiles,
    ZeroContentFiles,
    ZeroContentBytes,
    /// The sizes of the files do not fit a count.
    BytesOverflow,
}

impl GrepFault {
    pub open spec fn text(self, command: Seq<char>) -> Seq<char> {
        match self {
            GrepFault::ZeroMatchingFiles => command
                + " --max-matching-files must be greater than zero"@,
            GrepFault::ZeroContentFiles => command
                + " --max-content-files must be greater than zero"@,
            GrepFault::ZeroContentBytes => command
                + " --max-content-bytes must be greater than zero"@,
            GrepFault::BytesOverflow => "aggregate content byte count overflowed u64"@,
        }
    }

    pub fn message(self, command: &str) -> (message: String)
        ensures
            message@ == self.text(command@),
    {
        match self {
            GrepFault::ZeroMatchingFiles => command.to_owned().concat(
                " --max-matching-files must be greater than zero",
            ),
            GrepFault::ZeroContentFiles => command.to_owned().concat(
                " --max-content-files must be greater than zero",
            ),
            GrepFault::ZeroContentBytes => command.to_owned().concat(
                " --max-content-bytes must be greater than zero",
            ),
            GrepFault::BytesOverflow => "aggregate content byte count overflowed u64".to_owned(),
        }
    }
}

impl GrepCaps {
    pub open spec fn fault(self) -> Option<GrepFault> {
        if self.max_matching_files == 0 {
            Some(GrepFault::ZeroMatchingFiles)
        } else if self.max_content_files == 0 {
            Some(GrepFault::ZeroContentFiles)
        } else if self.max_content_bytes == Some(0u64) {
            Some(GrepFault::ZeroContentBytes)
        } else {
            None
        }
    }

    /// A search looks at something.
    pub fn validate(&self) -> (verdict: Result<(), GrepFault>)
        ensures
            match verdict {
                Ok(_) => self.fault() is None,
                Err(fault) => self.fault() == Some(fault),
            },
    {
        if self.max_matching_files == 0 {
            return Err(GrepFault::ZeroMatchingFiles);
        }
        if self.max_content_files == 0 {
            return Err(GrepFault::ZeroContentFiles);
        }
        if let Some(bytes) = self.max_content_bytes {
            if bytes == 0 {
                return Err(GrepFault::ZeroContentBytes);
            }
        }
        Ok(())
    }
}

/// How many files, from the first on, may be read.
#[derive(Debug, Clone, Copy, PartialEq, Eq, Structural)]
pub struct ContentAdmission {
    pub files: usize,
    /// How many bytes they hold, where that is bounded.
    pub bytes_admitted: Option<u64>,
    pub capped: bool,
}

/// How many bytes the first `n` files hold.
pub open spec fn bytes_of(sizes: Seq<u64>, n: nat) -> nat
    decreases n,
{
    if n == 0 || n > sizes.len() {
        0
    } else {
        bytes_of(sizes, (n - 1) as nat) + sizes[n - 1] as nat
    }
}

/// How many of the files from here on fit the bound, together with those before.
pub open spec fn fitting(sizes: Seq<u64>, max: nat, n: nat) -> nat
    decreases sizes.len() - n,
{
    if n >= sizes.len() || bytes_of(sizes, n + 1) > max {
        n
    } else {
        fitting(sizes, max, n + 1)
    }
}

/// Lets in files in their order as long as they fit the bound.
pub fn admit_content_files(sizes: &[u64], max_content_bytes: Option<u64>) -> (admission: Result<
    ContentAdmission,
    GrepFault,
>)
    ensures
        match max_content_bytes {
            None => admission == Ok::<ContentAdmission, GrepFault>(
                ContentAdmission {
                    files: sizes@.len() as usize,
                    bytes_admitted: None,
                    capped: false,
                },
            ),
            Some(max) => if max == 0 {
                admission == Err::<ContentAdmission, GrepFault>(GrepFault::ZeroContentBytes)
            } else {
                let files = fitting(sizes@, max as nat, 0);
                let next = bytes_of(sizes@, files + 1);
                if files < sizes@.len() && next > u64::MAX {
                    admission == Err::<ContentAdmission, GrepFault>(GrepFault::BytesOverflow)
                } else {
                    &&& admission is Ok
                    &&& admission->Ok_0.files == files
                    &&& admission->Ok_0.bytes_admitted == Some(bytes_of(sizes@, files) as u64)
                    &&& bytes_of(sizes@, files) <= max
                    &&& admission->Ok_0.capped == (files < sizes@.len())
                }
            },
        },
{
    let max = match max_content_bytes {
        Some(max) => max,
        None => {
            return Ok(
                ContentAdmission { files: sizes.len(), bytes_admitted: None, capped: false },
            );
        },
    };
    if max == 0 {
        return Err(GrepFault::ZeroContentBytes);
    }
    let mut total: u64 = 0;
    let mut i: usize = 0;
    while i < sizes.len()
        invariant
            i <= sizes.len(),
            max_content_bytes == Some(max),
            max > 0,
            total == bytes_of(sizes@, i as nat),
            total <= max,
            fitting(sizes@, max as nat, i as nat) == fitting(sizes@, max as nat, 0),
        decreases sizes.len() - i,
    {
        if sizes[i] > 0xffff_ffff_ffff_ffff - total {
            return Err(GrepFault::BytesOverflow);
        }
        if total + sizes[i] > max {
            return Ok(
                ContentAdmission { files: i, bytes_admitted: Some(total), capped: true },
            );
        }
        total += sizes[i];
        i += 1;
    }
    Ok(ContentAdmission { files: i, bytes_admitted: Some(total), capped: false })
}

/// A file that matches.
#[derive(Debug)]
pub struct FileMatch {
    pub path: String,
    pub count: usize,
    pub samples: Vec<SampleLine>,
    pub sample_matching_lines_omitted: usize,
}

/// The model of a file that matches.
pub struct MatchRow {
    pub path: Seq<char>,
    pub count: nat,
    pub samples: Seq<grep_scan::Sample>,
    pub omitted: nat,
}

impl View for FileMatch {
    type V = MatchRow;

    open spec fn view(&self) -> MatchRow {
        MatchRow {
            path: self.path@,
            count: self.count as nat,
            samples: grep_scan::sample_models(self.samples@),
            omitted: self.sample_matching_lines_omitted as nat,
        }
    }
}

pub open spec fn row_models(rows: Seq<FileMatch>) -> Seq<MatchRow> {
    rows.map_values(|row: FileMatch| row@)
}

/// A file that was not looked into; one that is too large has its size.
#[derive(Debug)]
pub struct SkippedFile {
    pub path: String,
    pub bytes: Option<u64>,
}

/// The model of a file that was not looked into.
pub struct Skip {
    pub path: Seq<char>,
    pub bytes: Option<nat>,
}

impl View for SkippedFile {
    type V = Skip;

    open spec fn view(&self) -> Skip {
        Skip {
            path: self.path@,
            bytes: match self.bytes {
                Some(bytes) => Some(bytes as nat),
                None => None,
            },
        }
    }
}

pub open spec fn skip_models(skips: Seq<SkippedFile>) -> Seq<Skip> {
    skips.map_values(|skip: SkippedFile| skip@)
}

/// The files that match, of those that were looked at.
pub open spec fn matches_in(scans: Seq<Scan>) -> Seq<MatchRow>
    decreases scans.len(),
{
    if scans.len() == 0 {
        Seq::empty()
    } else {
        let before = matches_in(scans.drop_last());
        match scans.last() {
            Scan::Matched { path, matching_lines, samples, omitted } => before.push(
                MatchRow { path, count: matching_lines, samples, omitted },
            ),
            _ => before,
        }
    }
}

/// The files that were not looked into.
pub open spec fn skips_in(scans: Seq<Scan>) -> Seq<Skip>
    decreases scans.len(),
{
    if scans.len() == 0 {
        Seq::empty()
    } else {
        let before = skips_in(scans.drop_last());
        match scans.last() {
            Scan::Large { path, bytes } => before.push(Skip { path, bytes: Some(bytes) }),
            Scan::Binary { path } => before.push(Skip { path, bytes: None }),
            _ => before,
        }
    }
}

/// How many of the files that were not looked into are too large.
pub open spec fn large_in(skips: Seq<Skip>) -> nat
    decreases skips.len(),
{
    if skips.len() == 0 {
        0
    } else {
        large_in(skips.drop_last()) + if skips.last().bytes is Some {
            1nat
        } else {
            0
        }
    }
}

/// How many lines match.
pub open spec fn lines_in(rows: Seq<MatchRow>) -> nat
    decreases rows.len(),
{
    if rows.len() == 0 {
        0
    } else {
        lines_in(rows.drop_last()) + rows.last().count
    }
}

/// How many matching lines of the first `n` files are not shown.
pub open spec fn omitted_in(rows: Seq<MatchRow>, n: nat) -> nat
    decreases n,
{
    if n == 0 || n > rows.len() {
        0
    } else {
        omitted_in(rows, (n - 1) as nat) + rows[n - 1].omitted
    }
}

/// How many samples the first `n` files have.
pub open spec fn samples_in(rows: Seq<MatchRow>, n: nat) -> nat
    decreases n,
{
    if n == 0 || n > rows.len() {
        0
    } else {
        samples_in(rows, (n - 1) as nat) + rows[n - 1].samples.len()
    }
}

/// No more matching lines of a file are left out than it has.
pub open spec fn rows_are_well_formed(rows: Seq<MatchRow>) -> bool {
    forall|i: int| 0 <= i < rows.len() ==> (#[trigger] rows[i]).omitted <= rows[i].count
}

/// What a search has found so far.
pub struct GrepTally {
    pub matches: Vec<FileMatch>,
    pub skipped: Vec<SkippedFile>,
    pub skipped_large: usize,
    pub matching_lines_total: usize,
    pub scanned: usize,
    pub seen: Ghost<Seq<Scan>>,
}

impl GrepTally {
    pub open spec fn rows(&self) -> Seq<MatchRow> {
        row_models(self.matches@)
    }

    pub open spec fn skips(&self) -> Seq<Skip> {
        skip_models(self.skipped@)
    }

    pub open spec fn well_formed(&self) -> bool {
        &&& self.rows() == matches_in(self.seen@)
        &&& self.skips() == skips_in(self.seen@)
        &&& self.skipped_large == large_in(self.skips())
        &&& self.skipped_large <= self.skipped@.len()
        &&& self.skipped@.len() <= self.scanned
        &&& self.matching_lines_total == lines_in(self.rows())
        &&& self.scanned == self.seen@.len()
        &&& rows_are_well_formed(self.rows())
    }

    pub fn new() -> (tally: GrepTally)
        ensures
            tally.well_formed(),
            tally.seen@ == Seq::<Scan>::empty(),
    {
        let tally = GrepTally {
            matches: Vec::new(),
            skipped: Vec::new(),
            skipped_large: 0,
            matching_lines_total: 0,
            scanned: 0,
            seen: Ghost(Seq::empty()),
        };
        assert(tally.rows() =~= Seq::empty());
        assert(tally.skips() =~= Seq::empty());
        tally
    }

    /// Takes in what the next file holds, and says whether enough files match.
    pub fn push(&mut self, scan: FileScan, max_matching_files: usize) -> (enough: bool)
        requires
            old(self).well_formed(),
            scan@.well_formed(),
            old(self).scanned < usize::MAX,
            scan@ matches Scan::Matched { matching_lines, .. } ==> old(self).matching_lines_total
                + matching_lines <= usize::MAX,
        ensures
            final(self).well_formed(),
            final(self).seen@ == old(self).seen@.push(scan@),
            enough == (final(self).rows().len() >= max_matching_files),
    {
        let ghost before = self.seen@;
        let ghost model = scan@;
        let ghost rows = self.rows();
        let ghost skips = self.skips();
        assert(before.push(model).drop_last() =~= before);
        match scan {
            FileScan::Matched { path, matching_lines, samples, sample_matching_lines_omitted } => {
                self.matching_lines_total = self.matching_lines_total + matching_lines;
                let row = FileMatch {
                    path,
                    count: matching_lines,
                    samples,
                    sample_matching_lines_omitted,
                };
                let ghost added = row@;
                self.matches.push(row);
                assert(self.rows() =~= rows.push(added));
                assert(self.rows().drop_last() =~= rows);
            },
            FileScan::SkippedLarge { path, bytes } => {
                self.skipped_large = self.skipped_large + 1;
                let skip = SkippedFile { path, bytes: Some(bytes) };
                let ghost added = skip@;
                self.skipped.push(skip);
                assert(self.skips() =~= skips.push(added));
                assert(self.skips().drop_last() =~= skips);
            },
            FileScan::SkippedBinary { path } => {
                let skip = SkippedFile { path, bytes: None };
                let ghost added = skip@;
                self.skipped.push(skip);
                assert(self.skips() =~= skips.push(added));
                assert(self.skips().drop_last() =~= skips);
            },
            FileScan::NoMatch => {},
        }
        self.scanned = self.scanned + 1;
        self.seen = Ghost(before.push(model));
        assert(self.rows().len() == self.matches@.len());
        self.matches.len() >= max_matching_files
    }
}

/// A search, once it is done.
pub struct GrepReport {
    /// `grep` or `grep-terms`.
    pub command: &'static str,
    pub label: String,
    /// Only the receipt is asked for.
    pub quiet: bool,
    pub caps: GrepCaps,
    pub candidate_files_total: usize,
    pub candidate_files_selected: usize,
    pub candidate_files_capped: bool,
    pub admission: ContentAdmission,
    pub nested_repos_entered: Vec<String>,
    pub tally: GrepTally,
    pub host: Host,
}

/// The path of a row as it is displayed.
pub open spec fn shown_path(path: Seq<char>, host: Host) -> Seq<char> {
    paths::normalized(path, host)
}

/// The samples of a file that are shown, where those of the files before it come
/// first.
pub open spec fn emitted(rows: Seq<MatchRow>, budget: nat, i: int) -> Seq<grep_scan::Sample> {
    let left = numbers::minus(budget, samples_in(rows, i as nat));
    rows[i].samples.take(numbers::least(rows[i].samples.len(), left) as int)
}

pub open spec fn some_emitted_is_cut(rows: Seq<MatchRow>, budget: nat, n: nat) -> bool {
    exists|i: int, k: int|
        0 <= i < n && 0 <= k < emitted(rows, budget, i).len() && (#[trigger] emitted(
            rows,
            budget,
            i,
        )[k]).cut
}

pub open spec fn sample_json(sample: grep_scan::Sample) -> Json {
    Json::Object(
        seq![
            ("line"@, json::count_json(sample.line)),
            ("text"@, Json::Text(sample.text)),
            ("is_match"@, Json::Bool(sample.is_match)),
        ],
    )
}

pub open spec fn row_json(row: MatchRow, path: Seq<char>, samples: Seq<grep_scan::Sample>) -> Json {
    Json::Object(
        seq![
            ("path"@, Json::Text(path)),
            ("matching_lines"@, json::count_json(row.count)),
            ("sample_matching_lines_omitted"@, json::count_json(row.omitted)),
            (
                "samples"@,
                Json::Array(samples.map_values(|sample: grep_scan::Sample| sample_json(sample))),
            ),
        ],
    )
}

pub open spec fn skip_reason(skip: Skip) -> Seq<char> {
    if skip.bytes is Some {
        "large"@
    } else {
        "binary"@
    }
}

pub open spec fn skip_json(skip: Skip, host: Host, max_chars: nat) -> Json {
    Json::Object(
        seq![
            ("path"@, Json::Text(output::clamped(shown_path(skip.path, host), max_chars))),
            ("reason"@, Json::Text(skip_reason(skip))),
            (
                "bytes"@,
                match skip.bytes {
                    Some(bytes) => json::count_json(bytes),
                    None => Json::Null,
                },
            ),
        ],
    )
}

/// The skipped files that are named.
pub open spec fn named_skips(skips: Seq<Skip>) -> Seq<Skip> {
    skips.take(numbers::least(skips.len(), SKIPPED_FILES_SAMPLE_LIMIT as nat) as int)
}

pub open spec fn skip_paths(skips: Seq<Skip>, host: Host) -> Seq<Seq<char>> {
    named_skips(skips).map_values(|skip: Skip| shown_path(skip.path, host))
}

/// What the text says of the files that were not looked into, before it is cut to
/// length.
pub open spec fn skip_list(skips: Seq<Skip>, host: Host) -> Seq<char> {
    strings::join_texts(
        named_skips(skips).map_values(
            |skip: Skip| shown_path(skip.path, host) + " ("@ + skip_reason(skip) + ")"@,
        ),
        ", "@,
    )
}

impl GrepReport {
    /// Only a bound on bytes keeps files from being read.
    pub open spec fn well_formed(&self) -> bool {
        &&& self.tally.well_formed()
        &&& self.admission.capped ==> self.caps.max_content_bytes is Some
    }

    pub open spec fn rows(&self) -> Seq<MatchRow> {
        self.tally.rows()
    }

    pub open spec fn skips(&self) -> Seq<Skip> {
        self.tally.skips()
    }

    /// Enough files match, and some were not looked at.
    pub open spec fn match_capped(&self) -> bool {
        self.rows().len() >= self.caps.max_matching_files && self.tally.scanned
            < self.admission.files
    }

    /// Something was not looked at that could hold more matches.
    pub open spec fn is_lower_bound(&self) -> bool {
        self.candidate_files_capped || self.match_capped() || self.admission.capped
            || self.tally.skipped_large > 0
    }

    pub open spec fn files_shown(&self) -> nat {
        if self.quiet {
            0
        } else {
            numbers::least(self.rows().len(), self.caps.show_files as nat)
        }
    }

    pub open spec fn samples_available(&self) -> nat {
        samples_in(self.rows(), self.files_shown())
    }

    pub open spec fn samples_shown(&self) -> nat {
        numbers::least(self.samples_available(), self.caps.show_lines as nat)
    }

    pub open spec fn omitted(&self) -> nat {
        omitted_in(self.rows(), self.files_shown())
    }

    /// The paths that are shown, before they are cut to length.
    pub open spec fn row_paths(&self) -> Seq<Seq<char>> {
        Seq::new(self.files_shown(), |i: int| shown_path(self.rows()[i].path, self.host))
    }

    /// Whether a text is cut to length; in text form the note on skipped files is
    /// one of them.
    pub open spec fn cuts_characters(&self, as_json: bool) -> bool {
        let max = self.caps.show_line_chars as nat;
        ||| self.label@.len() > max
        ||| output::some_is_longer(self.row_paths(), max)
        ||| some_emitted_is_cut(self.rows(), self.samples_shown(), self.files_shown())
        ||| output::some_is_longer(skip_paths(self.skips(), self.host), max)
        ||| !as_json && !self.quiet && self.skips().len() > 0 && skip_list(
            self.skips(),
            self.host,
        ).len() > max
    }

    pub open spec fn receipt_caps(&self, as_json: bool) -> Seq<output::Cap> {
        let caps = self.caps;
        Seq::empty() + output::when(
            self.candidate_files_capped,
            output::scope_cap("candidate_files"@, caps.max_content_files as nat),
        ) + output::when(
            self.match_capped(),
            output::scope_cap("matching_files"@, caps.max_matching_files as nat),
        ) + output::when(
            self.admission.capped && caps.max_content_bytes is Some,
            output::scope_cap("content_bytes"@, caps.max_content_bytes->Some_0 as nat),
        ) + output::when(
            self.tally.skipped_large > 0,
            output::scope_cap("file_bytes"@, caps.max_file_bytes as nat),
        ) + output::when(
            !self.quiet && self.files_shown() < self.rows().len(),
            output::output_cap("matching_files"@, caps.show_files as nat, "--show-files"@),
        ) + output::when(
            self.samples_shown() < self.samples_available(),
            output::output_cap("sample_lines"@, caps.show_lines as nat, "--show-lines"@),
        ) + output::when(
            self.omitted() > 0,
            output::output_cap(
                "sample_matching_lines_per_file"@,
                caps.show_lines_per_file as nat,
                "--show-lines-per-file"@,
            ),
        ) + output::when(
            self.cuts_characters(as_json),
            output::output_cap(
                "line_characters"@,
                caps.show_line_chars as nat,
                "--show-line-chars"@,
            ),
        )
    }

    /// A search without matches says whether everything was looked at.
    pub open spec fn no_match_scope(&self) -> Json {
        if self.rows().len() > 0 {
            Json::Null
        } else if self.is_lower_bound() {
            Json::Text("scanned_subset"@)
        } else {
            Json::Text("complete_scope"@)
        }
    }

    pub open spec fn skip_fields(&self) -> Seq<(Seq<char>, Json)> {
        let skips = self.skips();
        seq![
            ("skipped_large_or_binary"@, json::count_json(skips.len())),
            ("skipped_large"@, json::count_json(large_in(skips))),
            (
                "skipped_binary"@,
                json::count_json(numbers::minus(skips.len(), large_in(skips))),
            ),
            (
                "skipped_files_sample"@,
                Json::Array(
                    named_skips(skips).map_values(
                        |skip: Skip| skip_json(skip, self.host, self.caps.show_line_chars as nat),
                    ),
                ),
            ),
        ]
    }

    pub open spec fn rows_json(&self) -> Json {
        Json::Array(
            Seq::new(
                self.files_shown(),
                |i: int|
                    row_json(
                        self.rows()[i],
                        output::clamped(self.row_paths()[i], self.caps.show_line_chars as nat),
                        emitted(self.rows(), self.samples_shown(), i),
                    ),
            ),
        )
    }

    pub open spec fn head_fields(&self) -> Seq<(Seq<char>, Json)> {
        seq![
            (
                "pattern"@,
                Json::Text(output::clamped(self.label@, self.caps.show_line_chars as nat)),
            ),
            (
                "matching_lines_total"@,
                json::count_json(self.tally.matching_lines_total as nat),
            ),
            ("matching_lines_total_is_lower_bound"@, Json::Bool(self.is_lower_bound())),
            ("sample_lines_shown"@, json::count_json(self.samples_shown())),
            ("sample_matching_lines_omitted"@, json::count_json(self.omitted())),
            ("candidate_files_total"@, json::count_json(self.candidate_files_total as nat)),
            ("candidate_files_selected"@, json::count_json(self.candidate_files_selected as nat)),
            ("content_files_admitted"@, json::count_json(self.admission.files as nat)),
            ("content_files_scanned"@, json::count_json(self.tally.scanned as nat)),
        ]
    }

    pub open spec fn fields(&self, as_json: bool) -> Seq<(Seq<char>, Json)> {
        self.head_fields() + (match self.admission.bytes_admitted {
            Some(bytes) => seq![("content_bytes_admitted"@, json::count_json(bytes as nat))],
            None => Seq::empty(),
        }) + self.skip_fields() + files_report::nested_fields(
            strings::texts(self.nested_repos_entered@),
        ) + seq![("no_match_scope"@, self.no_match_scope())] + (if self.quiet {
            seq![("quiet"@, Json::Bool(true))]
        } else if as_json {
            seq![("matching_files"@, self.rows_json())]
        } else {
            Seq::empty()
        })
    }

    pub open spec fn receipt_model(&self, profile: Option<Seq<char>>, as_json: bool) -> ReceiptModel {
        ReceiptModel {
            command: self.command@,
            profile,
            result: output::ResultCount {
                unit: "matching_files"@,
                total: self.rows().len(),
                total_is_lower_bound: self.is_lower_bound(),
                shown: self.files_shown(),
            },
            caps: self.receipt_caps(as_json),
            fields: self.fields(as_json),
        }
    }

    /// What is shown, line by line.
    pub open spec fn shown_lines(&self) -> Seq<Seq<char>> {
        if self.quiet {
            Seq::empty()
        } else {
            self.head_lines() + self.match_lines() + self.sample_lines() + if self.receipt_model(
                None,
                false,
            ).complete() {
                Seq::empty()
            } else {
                seq![
                    "[contextmink] capped grep output or scan; narrow the path or pattern before treating this as complete."@,
                ]
            }
        }
    }

    pub open spec fn head_lines(&self) -> Seq<Seq<char>> {
        seq![
            "[contextmink] grep pattern="@ + output::clamped(
                self.label@,
                self.caps.show_line_chars as nat,
            ),
            "matching_files_total="@ + numbers::decimal(self.rows().len())
                + " matching_files_total_is_lower_bound="@ + strings::flag_text(
                self.is_lower_bound(),
            ) + " matching_lines_total="@ + numbers::decimal(
                self.tally.matching_lines_total as nat,
            ) + " matching_lines_total_is_lower_bound="@ + strings::flag_text(
                self.is_lower_bound(),
            ),
            "candidate_files_total="@ + numbers::decimal(self.candidate_files_total as nat)
                + " candidate_files_selected="@ + numbers::decimal(
                self.candidate_files_selected as nat,
            ) + " content_files_scanned="@ + numbers::decimal(self.tally.scanned as nat)
                + " skipped_large_or_binary="@ + numbers::decimal(self.skips().len()),
        ] + (match files_report::nested_note(strings::texts(self.nested_repos_entered@)) {
            Some(note) => seq![note],
            None => Seq::empty(),
        }) + (match skipped_note(
            self.skips(),
            self.host,
            self.caps.show_line_chars as nat,
        ) {
            Some(note) => seq![note],
            None => Seq::empty(),
        })
    }

    pub open spec fn match_lines(&self) -> Seq<Seq<char>> {
        if self.rows().len() == 0 {
            seq!["no_matches"@] + if self.is_lower_bound() {
                seq![
                    "[contextmink] scan was capped or skipped large files; no matches were found in the scanned subset only."@,
                ]
            } else {
                Seq::empty()
            }
        } else {
            seq!["file_counts:"@] + Seq::new(
                self.files_shown(),
                |i: int|
                    "  "@ + output::clamped(
                        self.row_paths()[i],
                        self.caps.show_line_chars as nat,
                    ) + ":"@ + numbers::decimal(self.rows()[i].count),
            )
        }
    }

    /// The lines of the samples of the first `n` files.
    pub open spec fn sample_rows(&self, n: nat) -> Seq<Seq<char>>
        decreases n,
    {
        if n == 0 {
            Seq::empty()
        } else {
            let i = n - 1;
            let path = output::clamped(self.row_paths()[i], self.caps.show_line_chars as nat);
            self.sample_rows(i as nat) + emitted(self.rows(), self.samples_shown(), i).map_values(
                |sample: grep_scan::Sample| sample_line(path, sample),
            )
        }
    }

    pub open spec fn sample_lines(&self) -> Seq<Seq<char>> {
        if self.caps.show_lines_per_file == 0 || self.files_shown() == 0 {
            Seq::empty()
        } else {
            seq!["sample_lines:"@] + self.sample_rows(self.files_shown()) + if self.samples_shown()
                < self.samples_available() {
                seq![
                    "[contextmink] capped sample lines at "@ + numbers::decimal(
                        self.caps.show_lines as nat,
                    ) + "; narrow the query."@,
                ]
            } else {
                Seq::empty()
            }
        }
    }
}

pub open spec fn sample_line(path: Seq<char>, sample: grep_scan::Sample) -> Seq<char> {
    "  "@ + path + ":"@ + numbers::decimal(sample.line) + (if sample.is_match {
        ":"@
    } else {
        "-"@
    }) + sample.text
}

/// What the text says of the files that were not looked into, if there are any.
pub open spec fn skipped_note(skips: Seq<Skip>, host: Host, max_chars: nat) -> Option<Seq<char>> {
    if skips.len() == 0 {
        None
    } else {
        Some(
            "[contextmink] skipped "@ + numbers::decimal(skips.len())
                + " file(s) without scanning: "@ + output::clamped(
                skip_list(skips, host),
                max_chars,
            ),
        )
    }
}

fn list_skips(skipped: &[SkippedFile], host: Host) -> (list: String)
    ensures
        list@ == skip_list(skip_models(skipped@), host),
{
    let ghost models = skip_models(skipped@);
    let bound = smaller(skipped.len(), SKIPPED_FILES_SAMPLE_LIMIT);
    let ghost wanted = named_skips(models).map_values(
        |skip: Skip| shown_path(skip.path, host) + " ("@ + skip_reason(skip) + ")"@,
    );
    let mut parts: Vec<String> = Vec::new();
    let mut i: usize = 0;
    assert(models.len() == skipped@.len());
    assert(strings::texts(parts@) =~= wanted.take(0));
    while i < bound
        invariant
            i <= bound <= skipped.len(),
            models == skip_models(skipped@),
            bound == named_skips(models).len(),
            wanted == named_skips(models).map_values(
                |skip: Skip| shown_path(skip.path, host) + " ("@ + skip_reason(skip) + ")"@,
            ),
            strings::texts(parts@) == wanted.take(i as int),
        decreases bound - i,
    {
        assert(named_skips(models)[i as int] == skipped@[i as int]@);
        let reason = if skipped[i].bytes.is_some() {
            "large"
        } else {
            "binary"
        };
        push_text(
            &mut parts,
            display_path(skipped[i].path.as_str(), host).concat(" (").concat(reason).concat(")"),
        );
        assert(wanted.take(i + 1) =~= wanted.take(i as int).push(wanted[i as int]));
        i += 1;
    }
    assert(wanted.take(i as int) =~= wanted);
    join(&parts, ", ")
}

/// What the text says of the files that were not looked into, if there are any, and
/// whether it is cut to length.
pub fn write_skipped_note(skipped: &[SkippedFile], host: Host, max_chars: usize) -> (note: Option<
    (String, bool),
>)
    ensures
        match note {
            Some((text, cut)) => {
                &&& skipped_note(skip_models(skipped@), host, max_chars as nat) == Some(text@)
                &&& cut == (skip_list(skip_models(skipped@), host).len() > max_chars)
            },
            None => skipped_note(skip_models(skipped@), host, max_chars as nat) is None,
        },
{
    assert(skip_models(skipped@).len() == skipped@.len());
    if skipped.len() == 0 {
        return None;
    }
    let list = list_skips(skipped, host);
    let status = clamp_text_with_status(list.as_str(), max_chars);
    Some(
        (
            "[contextmink] skipped ".to_owned().concat(count_text(skipped.len()).as_str()).concat(
                " file(s) without scanning: ",
            ).concat(status.text.as_str()),
            status.truncated,
        ),
    )
}

fn skip_value(skip: &SkippedFile, host: Host, max_chars: usize) -> (value: JsonValue)
    ensures
        value@ == skip_json(skip@, host, max_chars as nat),
{
    let mut members: Vec<(String, JsonValue)> = Vec::new();
    assert(json::member_models(members@) =~= Seq::empty());
    let path = display_path(skip.path.as_str(), host);
    add_member(&mut members, "path", json_text(clamp_text(path.as_str(), max_chars).as_str()));
    let reason = if skip.bytes.is_some() {
        "large"
    } else {
        "binary"
    };
    add_member(&mut members, "reason", json_text(reason));
    let bytes = match skip.bytes {
        Some(bytes) => json_number(bytes),
        None => JsonValue::Null,
    };
    add_member(&mut members, "bytes", bytes);
    let value = json_object(members);
    assert(value@->Object_0 =~= skip_json(skip@, host, max_chars as nat)->Object_0);
    value
}

fn sample_value(sample: &SampleLine) -> (value: JsonValue)
    ensures
        value@ == sample_json(sample@),
{
    let mut members: Vec<(String, JsonValue)> = Vec::new();
    assert(json::member_models(members@) =~= Seq::empty());
    add_member(&mut members, "line", json_count(sample.line));
    add_member(&mut members, "text", json_text(sample.text.as_str()));
    add_member(&mut members, "is_match", JsonValue::Bool(sample.is_match));
    let value = json_object(members);
    assert(value@->Object_0 =~= sample_json(sample@)->Object_0);
    value
}

fn row_value(row: &FileMatch, path: &str, shown: usize) -> (value: JsonValue)
    requires
        shown <= row.samples@.len(),
    ensures
        value@ == row_json(row@, path@, row@.samples.take(shown as int)),
{
    let ghost samples = row@.samples.take(shown as int);
    let ghost wanted = samples.map_values(|sample: grep_scan::Sample| sample_json(sample));
    let mut items: Vec<JsonValue> = Vec::new();
    let mut i: usize = 0;
    assert(json::item_models(items@) =~= wanted.take(0));
    while i < shown
        invariant
            i <= shown <= row.samples@.len(),
            samples == row@.samples.take(shown as int),
            wanted == samples.map_values(|sample: grep_scan::Sample| sample_json(sample)),
            json::item_models(items@) == wanted.take(i as int),
        decreases shown - i,
    {
        assert(samples[i as int] == row.samples@[i as int]@);
        add_item(&mut items, sample_value(&row.samples[i]));
        assert(wanted.take(i + 1) =~= wanted.take(i as int).push(wanted[i as int]));
        i += 1;
    }
    assert(wanted.take(i as int) =~= wanted);
    let mut members: Vec<(String, JsonValue)> = Vec::new();
    assert(json::member_models(members@) =~= Seq::empty());
    add_member(&mut members, "path", json_text(path));
    add_member(&mut members, "matching_lines", json_count(row.count));
    add_member(
        &mut members,
        "sample_matching_lines_omitted",
        json_count(row.sample_matching_lines_omitted),
    );
    add_member(&mut members, "samples", json_array(items));
    let value = json_object(members);
    assert(value@->Object_0 =~= row_json(row@, path@, samples)->Object_0);
    value
}

/// How many rows and samples are shown, and what is left out.
struct Counts {
    files_shown: usize,
    samples_shown: usize,
    samples_capped: bool,
    omitted: usize,
}

proof fn lemma_omitted_bound(rows: Seq<MatchRow>, n: nat)
    requires
        n <= rows.len(),
        rows_are_well_formed(rows),
    ensures
        omitted_in(rows, n) <= lines_in(rows),
    decreases rows.len(),
{
    if rows.len() > 0 {
        let fewer = rows.drop_last();
        assert(rows_are_well_formed(fewer)) by {
            assert forall|i: int| 0 <= i < fewer.len() implies (#[trigger] fewer[i]).omitted
                <= fewer[i].count by {
                assert(fewer[i] == rows[i]);
            }
        }
        if n < rows.len() {
            lemma_omitted_bound(fewer, n);
            lemma_omitted_prefix(rows, n);
        } else {
            lemma_omitted_bound(fewer, (n - 1) as nat);
            lemma_omitted_prefix(rows, (n - 1) as nat);
            assert(rows[n - 1].omitted <= rows[n - 1].count);
        }
    }
}

proof fn lemma_omitted_prefix(rows: Seq<MatchRow>, n: nat)
    requires
        n < rows.len(),
    ensures
        omitted_in(rows.drop_last(), n) == omitted_in(rows, n),
    decreases n,
{
    if n > 0 {
        lemma_omitted_prefix(rows, (n - 1) as nat);
        assert(rows.drop_last()[n - 1] == rows[n - 1]);
    }
}

proof fn lemma_omitted_grows(rows: Seq<MatchRow>, n: nat, m: nat)
    requires
        n <= m <= rows.len(),
    ensures
        omitted_in(rows, n) <= omitted_in(rows, m),
    decreases m - n,
{
    if n < m {
        lemma_omitted_grows(rows, n, (m - 1) as nat);
    }
}

impl GrepReport {
    fn counts(&self) -> (counts: Counts)
        requires
            self.well_formed(),
        ensures
            counts.files_shown == self.files_shown(),
            counts.files_shown <= self.tally.matches@.len(),
            counts.samples_shown == self.samples_shown(),
            counts.samples_capped == (self.samples_shown() < self.samples_available()),
            counts.omitted == self.omitted(),
    {
        let ghost rows = self.rows();
        assert(rows.len() == self.tally.matches@.len());
        let files_shown: usize = if self.quiet {
            0
        } else {
            smaller(self.tally.matches.len(), self.caps.show_files)
        };
        proof {
            lemma_omitted_bound(rows, files_shown as nat);
        }
        let mut samples: usize = 0;
        let mut capped = false;
        let mut omitted: usize = 0;
        let mut i: usize = 0;
        while i < files_shown
            invariant
                i <= files_shown <= self.tally.matches@.len(),
                self.well_formed(),
                rows == self.rows(),
                files_shown == self.files_shown(),
                omitted_in(rows, files_shown as nat) <= usize::MAX,
                omitted == omitted_in(rows, i as nat),
                samples == numbers::least(samples_in(rows, i as nat), self.caps.show_lines as nat),
                capped == (samples_in(rows, i as nat) > self.caps.show_lines),
            decreases files_shown - i,
        {
            assert(rows[i as int] == self.tally.matches@[i as int]@);
            assert(rows[i as int].samples.len() == self.tally.matches@[i as int].samples@.len());
            proof {
                lemma_omitted_grows(rows, (i + 1) as nat, files_shown as nat);
            }
            let more = self.tally.matches[i].samples.len();
            if capped || more > self.caps.show_lines - samples {
                capped = true;
                samples = self.caps.show_lines;
            } else {
                samples += more;
            }
            omitted += self.tally.matches[i].sample_matching_lines_omitted;
            i += 1;
        }
        Counts { files_shown, samples_shown: samples, samples_capped: capped, omitted }
    }

    /// The paths that are shown, before they are cut to length.
    fn list_paths(&self, files_shown: usize) -> (list: Vec<String>)
        requires
            files_shown == self.files_shown(),
            files_shown <= self.tally.matches@.len(),
        ensures
            strings::texts(list@) == self.row_paths(),
            list@.len() == files_shown,
    {
        let ghost rows = self.rows();
        let ghost wanted = self.row_paths();
        let mut list: Vec<String> = Vec::new();
        let mut i: usize = 0;
        assert(strings::texts(list@) =~= wanted.take(0));
        while i < files_shown
            invariant
                i <= files_shown <= self.tally.matches@.len(),
                files_shown == self.files_shown(),
                rows == self.rows(),
                wanted == self.row_paths(),
                strings::texts(list@) == wanted.take(i as int),
                list@.len() == i,
            decreases files_shown - i,
        {
            assert(rows[i as int] == self.tally.matches@[i as int]@);
            push_text(&mut list, display_path(self.tally.matches[i].path.as_str(), self.host));
            assert(wanted.take(i + 1) =~= wanted.take(i as int).push(wanted[i as int]));
            i += 1;
        }
        assert(wanted.take(i as int) =~= wanted);
        list
    }

    /// How many samples of each file are shown.
    fn quotas(&self, counts: &Counts) -> (quotas: Vec<usize>)
        requires
            self.well_formed(),
            counts.files_shown == self.files_shown(),
            counts.files_shown <= self.tally.matches@.len(),
            counts.samples_shown == self.samples_shown(),
        ensures
            quotas@.len() == counts.files_shown,
            forall|i: int|
                0 <= i < quotas@.len() ==> {
                    &&& #[trigger] quotas@[i] <= self.tally.matches@[i].samples@.len()
                    &&& self.rows()[i].samples.take(quotas@[i] as int) == emitted(
                        self.rows(),
                        self.samples_shown(),
                        i,
                    )
                },
    {
        let ghost rows = self.rows();
        let mut quotas: Vec<usize> = Vec::new();
        let mut left: usize = counts.samples_shown;
        let mut i: usize = 0;
        while i < counts.files_shown
            invariant
                i <= counts.files_shown <= self.tally.matches@.len(),
                rows == self.rows(),
                counts.samples_shown == self.samples_shown(),
                quotas@.len() == i,
                left == numbers::minus(self.samples_shown(), samples_in(rows, i as nat)),
                forall|k: int|
                    0 <= k < i ==> {
                        &&& #[trigger] quotas@[k] <= self.tally.matches@[k].samples@.len()
                        &&& rows[k].samples.take(quotas@[k] as int) == emitted(
                            rows,
                            self.samples_shown(),
                            k,
                        )
                    },
            decreases counts.files_shown - i,
        {
            assert(rows[i as int] == self.tally.matches@[i as int]@);
            assert(rows[i as int].samples.len() == self.tally.matches@[i as int].samples@.len());
            let quota = smaller(self.tally.matches[i].samples.len(), left);
            quotas.push(quota);
            left -= quota;
            i += 1;
        }
        quotas
    }

    fn cuts_samples(&self, quotas: &Vec<usize>) -> (held: bool)
        requires
            quotas@.len() == self.files_shown(),
            self.files_shown() <= self.tally.matches@.len(),
            forall|i: int|
                0 <= i < quotas@.len() ==> {
                    &&& #[trigger] quotas@[i] <= self.tally.matches@[i].samples@.len()
                    &&& self.rows()[i].samples.take(quotas@[i] as int) == emitted(
                        self.rows(),
                        self.samples_shown(),
                        i,
                    )
                },
        ensures
            held == some_emitted_is_cut(self.rows(), self.samples_shown(), self.files_shown()),
    {
        let ghost rows = self.rows();
        let ghost budget = self.samples_shown();
        let mut i: usize = 0;
        while i < quotas.len()
            invariant
                i <= quotas.len(),
                rows == self.rows(),
                budget == self.samples_shown(),
                quotas@.len() == self.files_shown(),
                self.files_shown() <= self.tally.matches@.len(),
                forall|i: int|
                    0 <= i < quotas@.len() ==> {
                        &&& #[trigger] quotas@[i] <= self.tally.matches@[i].samples@.len()
                        &&& rows[i].samples.take(quotas@[i] as int) == emitted(rows, budget, i)
                    },
                forall|j: int, k: int|
                    0 <= j < i && 0 <= k < emitted(rows, budget, j).len() ==> !(
                    #[trigger] emitted(rows, budget, j)[k]).cut,
            decreases quotas.len() - i,
        {
            let quota = quotas[i];
            assert(rows[i as int] == self.tally.matches@[i as int]@);
            let ghost samples = emitted(rows, budget, i as int);
            assert(samples == rows[i as int].samples.take(quota as int));
            let mut k: usize = 0;
            while k < quota
                invariant
                    k <= quota,
                    i < quotas@.len(),
                    quotas@.len() == self.files_shown(),
                    rows == self.rows(),
                    budget == self.samples_shown(),
                    quota == quotas@[i as int],
                    quota <= self.tally.matches@[i as int].samples@.len(),
                    i < self.tally.matches@.len(),
                    rows[i as int] == self.tally.matches@[i as int]@,
                    samples == emitted(rows, budget, i as int),
                    samples == rows[i as int].samples.take(quota as int),
                    forall|j: int| 0 <= j < k ==> !(#[trigger] samples[j]).cut,
                decreases quota - k,
            {
                assert(samples[k as int] == self.tally.matches@[i as int].samples@[k as int]@);
                if self.tally.matches[i].samples[k].text_truncated {
                    assert(emitted(rows, budget, i as int)[k as int].cut);
                    return true;
                }
                k += 1;
            }
            assert forall|j: int, k: int|
                0 <= j < i + 1 && 0 <= k < emitted(rows, budget, j).len() implies !(
            #[trigger] emitted(rows, budget, j)[k]).cut by {
                if j == i {
                    assert(samples[k] == emitted(rows, budget, j)[k]);
                }
            }
            i += 1;
        }
        false
    }

    fn list_skip_paths(&self) -> (list: Vec<String>)
        ensures
            strings::texts(list@) == skip_paths(self.skips(), self.host),
    {
        let ghost skips = self.skips();
        let ghost wanted = skip_paths(skips, self.host);
        assert(skips.len() == self.tally.skipped@.len());
        let bound = smaller(self.tally.skipped.len(), SKIPPED_FILES_SAMPLE_LIMIT);
        let mut list: Vec<String> = Vec::new();
        let mut i: usize = 0;
        assert(strings::texts(list@) =~= wanted.take(0));
        while i < bound
            invariant
                i <= bound <= self.tally.skipped@.len(),
                skips == self.skips(),
                bound == named_skips(skips).len(),
                wanted == skip_paths(skips, self.host),
                strings::texts(list@) == wanted.take(i as int),
            decreases bound - i,
        {
            assert(named_skips(skips)[i as int] == self.tally.skipped@[i as int]@);
            push_text(&mut list, display_path(self.tally.skipped[i].path.as_str(), self.host));
            assert(wanted.take(i + 1) =~= wanted.take(i as int).push(wanted[i as int]));
            i += 1;
        }
        assert(wanted.take(i as int) =~= wanted);
        list
    }

    fn add_skip_fields(&self, members: &mut Vec<(String, JsonValue)>)
        requires
            self.well_formed(),
        ensures
            json::member_models(final(members)@) == json::member_models(old(members)@)
                + self.skip_fields(),
    {
        let ghost before = json::member_models(members@);
        let ghost skips = self.skips();
        assert(skips.len() == self.tally.skipped@.len());
        let total = self.tally.skipped.len();
        add_member(members, "skipped_large_or_binary", json_count(total));
        add_member(members, "skipped_large", json_count(self.tally.skipped_large));
        add_member(
            members,
            "skipped_binary",
            json_count(cut_off(total, self.tally.skipped_large)),
        );
        let bound = smaller(total, SKIPPED_FILES_SAMPLE_LIMIT);
        let ghost wanted = named_skips(skips).map_values(
            |skip: Skip| skip_json(skip, self.host, self.caps.show_line_chars as nat),
        );
        let mut items: Vec<JsonValue> = Vec::new();
        let mut i: usize = 0;
        assert(json::item_models(items@) =~= wanted.take(0));
        while i < bound
            invariant
                i <= bound <= self.tally.skipped@.len(),
                skips == self.skips(),
                bound == named_skips(skips).len(),
                wanted == named_skips(skips).map_values(
                    |skip: Skip| skip_json(skip, self.host, self.caps.show_line_chars as nat),
                ),
                json::item_models(items@) == wanted.take(i as int),
            decreases bound - i,
        {
            assert(named_skips(skips)[i as int] == self.tally.skipped@[i as int]@);
            add_item(
                &mut items,
                skip_value(&self.tally.skipped[i], self.host, self.caps.show_line_chars),
            );
            assert(wanted.take(i + 1) =~= wanted.take(i as int).push(wanted[i as int]));
            i += 1;
        }
        assert(wanted.take(i as int) =~= wanted);
        add_member(members, "skipped_files_sample", json_array(items));
        assert(json::member_models(members@) =~= before + self.skip_fields());
    }

    fn rows_value(&self, paths: &[String], quotas: &Vec<usize>) -> (value: JsonValue)
        requires
            strings::texts(paths@) == output::clamp_all(
                self.row_paths(),
                self.caps.show_line_chars as nat,
            ),
            paths@.len() == self.files_shown(),
            quotas@.len() == self.files_shown(),
            self.files_shown() <= self.tally.matches@.len(),
            forall|i: int|
                0 <= i < quotas@.len() ==> {
                    &&& #[trigger] quotas@[i] <= self.tally.matches@[i].samples@.len()
                    &&& self.rows()[i].samples.take(quotas@[i] as int) == emitted(
                        self.rows(),
                        self.samples_shown(),
                        i,
                    )
                },
        ensures
            value@ == self.rows_json(),
    {
        let ghost wanted = self.rows_json()->Array_0;
        let ghost rows = self.rows();
        let ghost texts = strings::texts(paths@);
        let mut items: Vec<JsonValue> = Vec::new();
        let mut i: usize = 0;
        assert(json::item_models(items@) =~= wanted.take(0));
        while i < quotas.len()
            invariant
                i <= quotas.len(),
                wanted == self.rows_json()->Array_0,
                rows == self.rows(),
                texts == strings::texts(paths@),
                texts == output::clamp_all(self.row_paths(), self.caps.show_line_chars as nat),
                paths@.len() == self.files_shown(),
                quotas@.len() == self.files_shown(),
                self.files_shown() <= self.tally.matches@.len(),
                forall|i: int|
                    0 <= i < quotas@.len() ==> {
                        &&& #[trigger] quotas@[i] <= self.tally.matches@[i].samples@.len()
                        &&& rows[i].samples.take(quotas@[i] as int) == emitted(
                            rows,
                            self.samples_shown(),
                            i,
                        )
                    },
                json::item_models(items@) == wanted.take(i as int),
            decreases quotas.len() - i,
        {
            assert(rows[i as int] == self.tally.matches@[i as int]@);
            assert(texts[i as int] == paths@[i as int]@);
            let quota = quotas[i];
            add_item(&mut items, row_value(&self.tally.matches[i], paths[i].as_str(), quota));
            assert(wanted.take(i + 1) =~= wanted.take(i as int).push(wanted[i as int]));
            i += 1;
        }
        assert(wanted.take(i as int) =~= wanted);
        json_array(items)
    }

    fn is_match_capped(&self) -> (held: bool)
        ensures
            held == self.match_capped(),
    {
        assert(self.rows().len() == self.tally.matches@.len());
        self.tally.matches.len() >= self.caps.max_matching_files && self.tally.scanned
            < self.admission.files
    }

    fn has_lower_bound(&self) -> (held: bool)
        ensures
            held == self.is_lower_bound(),
    {
        self.candidate_files_capped || self.is_match_capped() || self.admission.capped
            || self.tally.skipped_large > 0
    }

    fn cuts_texts(&self, paths_cut: bool, quotas: &Vec<usize>, as_json: bool) -> (held: bool)
        requires
            paths_cut == output::some_is_longer(
                self.row_paths(),
                self.caps.show_line_chars as nat,
            ),
            quotas@.len() == self.files_shown(),
            self.files_shown() <= self.tally.matches@.len(),
            forall|i: int|
                0 <= i < quotas@.len() ==> {
                    &&& #[trigger] quotas@[i] <= self.tally.matches@[i].samples@.len()
                    &&& self.rows()[i].samples.take(quotas@[i] as int) == emitted(
                        self.rows(),
                        self.samples_shown(),
                        i,
                    )
                },
        ensures
            held == self.cuts_characters(as_json),
    {
        let max = self.caps.show_line_chars;
        let label_cut = clamp_text_with_status(self.label.as_str(), max).truncated;
        let samples_cut = self.cuts_samples(quotas);
        let skip_paths = self.list_skip_paths();
        let (_, skips_cut) = clamp_texts(&skip_paths, max);
        assert(self.skips().len() == self.tally.skipped@.len());
        let note_cut = if as_json || self.quiet {
            false
        } else {
            match write_skipped_note(&self.tally.skipped, self.host, max) {
                Some((_, cut)) => cut,
                None => false,
            }
        };
        label_cut || paths_cut || samples_cut || skips_cut || note_cut
    }

    /// The receipt of the search; as JSON it holds the files that match.
    pub fn receipt(&self, profile: Option<&str>, as_json: bool) -> (receipt: Receipt)
        requires
            self.well_formed(),
        ensures
            receipt.model() == self.receipt_model(strings::opt_text(profile), as_json),
            receipt.model().well_formed(),
    {
        let caps = self.caps;
        let counts = self.counts();
        assert(self.rows().len() == self.tally.matches@.len());
        let total = self.tally.matches.len();
        let lower_bound = self.has_lower_bound();
        let mut receipt = Receipt::new(
            self.command,
            profile,
            ReceiptResult::new("matching_files", total, lower_bound, counts.files_shown),
        );
        let list = self.list_paths(counts.files_shown);
        let (clamped, paths_cut) = clamp_texts(&list, caps.show_line_chars);
        assert(strings::texts(clamped@).len() == clamped@.len());
        let quotas = self.quotas(&counts);
        let cut = self.cuts_texts(paths_cut, &quotas, as_json);
        receipt.add_cap_if(
            self.candidate_files_capped,
            ReceiptCap::scope("candidate_files", Some(caps.max_content_files)),
        );
        receipt.add_cap_if(
            self.is_match_capped(),
            ReceiptCap::scope("matching_files", Some(caps.max_matching_files)),
        );
        let content_bytes: u64 = match caps.max_content_bytes {
            Some(bytes) => bytes,
            None => 0,
        };
        receipt.add_cap_if(
            self.admission.capped && caps.max_content_bytes.is_some(),
            ReceiptCap::scope_bytes("content_bytes", content_bytes),
        );
        receipt.add_cap_if(
            self.tally.skipped_large > 0,
            ReceiptCap::scope_bytes("file_bytes", caps.max_file_bytes),
        );
        receipt.add_cap_if(
            !self.quiet && counts.files_shown < total,
            ReceiptCap::output("matching_files", Some(caps.show_files), "--show-files"),
        );
        receipt.add_cap_if(
            counts.samples_capped,
            ReceiptCap::output("sample_lines", Some(caps.show_lines), "--show-lines"),
        );
        receipt.add_cap_if(
            counts.omitted > 0,
            ReceiptCap::output(
                "sample_matching_lines_per_file",
                Some(caps.show_lines_per_file),
                "--show-lines-per-file",
            ),
        );
        receipt.add_cap_if(
            cut,
            ReceiptCap::output("line_characters", Some(caps.show_line_chars), "--show-line-chars"),
        );
        assert(receipt.model().caps == self.receipt_caps(as_json));
        let members = self.members(&counts, lower_bound, &clamped, &quotas, as_json);
        proof {
            self.lemma_names(as_json);
        }
        receipt.insert_all(members);
        receipt
    }

    fn members(
        &self,
        counts: &Counts,
        lower_bound: bool,
        paths: &[String],
        quotas: &Vec<usize>,
        as_json: bool,
    ) -> (members: Vec<(String, JsonValue)>)
        requires
            self.well_formed(),
            lower_bound == self.is_lower_bound(),
            counts.samples_shown == self.samples_shown(),
            counts.omitted == self.omitted(),
            strings::texts(paths@) == output::clamp_all(
                self.row_paths(),
                self.caps.show_line_chars as nat,
            ),
            paths@.len() == self.files_shown(),
            quotas@.len() == self.files_shown(),
            self.files_shown() <= self.tally.matches@.len(),
            forall|i: int|
                0 <= i < quotas@.len() ==> {
                    &&& #[trigger] quotas@[i] <= self.tally.matches@[i].samples@.len()
                    &&& self.rows()[i].samples.take(quotas@[i] as int) == emitted(
                        self.rows(),
                        self.samples_shown(),
                        i,
                    )
                },
        ensures
            json::member_models(members@) == self.fields(as_json),
    {
        let mut members: Vec<(String, JsonValue)> = Vec::new();
        assert(json::member_models(members@) =~= Seq::empty());
        let pattern = clamp_text(self.label.as_str(), self.caps.show_line_chars);
        add_member(&mut members, "pattern", json_text(pattern.as_str()));
        add_member(
            &mut members,
            "matching_lines_total",
            json_count(self.tally.matching_lines_total),
        );
        add_member(
            &mut members,
            "matching_lines_total_is_lower_bound",
            JsonValue::Bool(lower_bound),
        );
        add_member(&mut members, "sample_lines_shown", json_count(counts.samples_shown));
        add_member(&mut members, "sample_matching_lines_omitted", json_count(counts.omitted));
        add_member(
            &mut members,
            "candidate_files_total",
            json_count(self.candidate_files_total),
        );
        add_member(
            &mut members,
            "candidate_files_selected",
            json_count(self.candidate_files_selected),
        );
        add_member(&mut members, "content_files_admitted", json_count(self.admission.files));
        add_member(&mut members, "content_files_scanned", json_count(self.tally.scanned));
        assert(json::member_models(members@) =~= self.head_fields());
        let ghost head = json::member_models(members@);
        if let Some(bytes) = self.admission.bytes_admitted {
            add_member(&mut members, "content_bytes_admitted", json_number(bytes));
        }
        let ghost bytes = match self.admission.bytes_admitted {
            Some(bytes) => seq![("content_bytes_admitted"@, json::count_json(bytes as nat))],
            None => Seq::empty(),
        };
        assert(json::member_models(members@) =~= head + bytes);
        self.add_skip_fields(&mut members);
        nested_repos_receipt_fields(&mut members, &self.nested_repos_entered);
        let ghost middle = json::member_models(members@);
        assert(self.rows().len() == self.tally.matches@.len());
        let scope = if self.tally.matches.len() > 0 {
            JsonValue::Null
        } else if lower_bound {
            json_text("scanned_subset")
        } else {
            json_text("complete_scope")
        };
        add_member(&mut members, "no_match_scope", scope);
        if self.quiet {
            add_member(&mut members, "quiet", JsonValue::Bool(true));
        } else if as_json {
            add_member(&mut members, "matching_files", self.rows_value(paths, quotas));
        }
        assert(json::member_models(members@) =~= middle + seq![
            ("no_match_scope"@, self.no_match_scope()),
        ] + (if self.quiet {
            seq![("quiet"@, Json::Bool(true))]
        } else if as_json {
            seq![("matching_files"@, self.rows_json())]
        } else {
            Seq::empty()
        }));
        assert(json::member_models(members@) =~= self.fields(as_json));
        members
    }

    proof fn lemma_names(&self, as_json: bool)
        ensures
            output::fresh_names(output::field_names(self.fields(as_json))),
    {
        lemma_grep_fields();
        let all = grep_fields();
        let with_bytes = self.admission.bytes_admitted is Some;
        output::lemma_fresh_without(all, 9);
        let some = if with_bytes {
            all
        } else {
            all.remove(9)
        };
        let n = some.len() as int;
        output::lemma_fresh_without(some, n - 1);
        output::lemma_fresh_without(some, n - 2);
        output::lemma_fresh_without(some.remove(n - 1), n - 2);
        let names = output::field_names(self.fields(as_json));
        if self.quiet {
            assert(names =~= some.remove(n - 1));
        } else if as_json {
            assert(names =~= some.remove(n - 2));
        } else {
            assert(names =~= some.remove(n - 1).remove(n - 2));
        }
    }

    fn push_head(&self, lines: &mut Vec<String>)
        requires
            self.well_formed(),
            strings::texts(old(lines)@) == Seq::<Seq<char>>::empty(),
        ensures
            strings::texts(final(lines)@) == self.head_lines(),
    {
        assert(self.rows().len() == self.tally.matches@.len());
        assert(self.skips().len() == self.tally.skipped@.len());
        let lower_bound = flag_word(self.has_lower_bound());
        push_text(
            lines,
            "[contextmink] grep pattern=".to_owned().concat(
                clamp_text(self.label.as_str(), self.caps.show_line_chars).as_str(),
            ),
        );
        push_text(
            lines,
            "matching_files_total=".to_owned().concat(
                count_text(self.tally.matches.len()).as_str(),
            ).concat(" matching_files_total_is_lower_bound=").concat(lower_bound).concat(
                " matching_lines_total=",
            ).concat(count_text(self.tally.matching_lines_total).as_str()).concat(
                " matching_lines_total_is_lower_bound=",
            ).concat(lower_bound),
        );
        push_text(
            lines,
            "candidate_files_total=".to_owned().concat(
                count_text(self.candidate_files_total).as_str(),
            ).concat(" candidate_files_selected=").concat(
                count_text(self.candidate_files_selected).as_str(),
            ).concat(" content_files_scanned=").concat(
                count_text(self.tally.scanned).as_str(),
            ).concat(" skipped_large_or_binary=").concat(
                count_text(self.tally.skipped.len()).as_str(),
            ),
        );
        if let Some(note) = write_nested_repos_note(&self.nested_repos_entered) {
            push_text(lines, note);
        }
        if let Some((note, _)) = write_skipped_note(
            &self.tally.skipped,
            self.host,
            self.caps.show_line_chars,
        ) {
            push_text(lines, note);
        }
        assert(strings::texts(lines@) =~= self.head_lines());
    }

    fn push_matches(&self, lines: &mut Vec<String>, paths: &[String])
        requires
            strings::texts(paths@) == output::clamp_all(
                self.row_paths(),
                self.caps.show_line_chars as nat,
            ),
            paths@.len() == self.files_shown(),
            self.files_shown() <= self.tally.matches@.len(),
        ensures
            strings::texts(final(lines)@) == strings::texts(old(lines)@) + self.match_lines(),
    {
        let ghost before = strings::texts(lines@);
        let ghost rows = self.rows();
        let ghost texts = strings::texts(paths@);
        assert(rows.len() == self.tally.matches@.len());
        if self.tally.matches.len() == 0 {
            push_text(lines, "no_matches".to_owned());
            if self.has_lower_bound() {
                push_text(
                    lines,
                    "[contextmink] scan was capped or skipped large files; no matches were found in the scanned subset only.".to_owned(),
                );
            }
            assert(strings::texts(lines@) =~= before + self.match_lines());
            return ;
        }
        push_text(lines, "file_counts:".to_owned());
        let ghost wanted = self.match_lines();
        let mut i: usize = 0;
        assert(strings::texts(lines@) =~= before + wanted.take(1));
        while i < paths.len()
            invariant
                i <= paths.len(),
                rows == self.rows(),
                rows.len() > 0,
                texts == strings::texts(paths@),
                texts == output::clamp_all(self.row_paths(), self.caps.show_line_chars as nat),
                paths@.len() == self.files_shown(),
                self.files_shown() <= self.tally.matches@.len(),
                wanted == self.match_lines(),
                strings::texts(lines@) == before + wanted.take(i + 1),
            decreases paths.len() - i,
        {
            assert(rows[i as int] == self.tally.matches@[i as int]@);
            assert(texts[i as int] == paths@[i as int]@);
            push_text(
                lines,
                "  ".to_owned().concat(paths[i].as_str()).concat(":").concat(
                    count_text(self.tally.matches[i].count).as_str(),
                ),
            );
            assert(before + wanted.take(i + 2) =~= (before + wanted.take(i + 1)).push(
                wanted[i + 1],
            ));
            i += 1;
        }
        assert(wanted.take(i + 1) =~= wanted);
    }

    fn push_samples(
        &self,
        lines: &mut Vec<String>,
        paths: &[String],
        quotas: &Vec<usize>,
        capped: bool,
    )
        requires
            strings::texts(paths@) == output::clamp_all(
                self.row_paths(),
                self.caps.show_line_chars as nat,
            ),
            paths@.len() == self.files_shown(),
            quotas@.len() == self.files_shown(),
            capped == (self.samples_shown() < self.samples_available()),
            self.files_shown() <= self.tally.matches@.len(),
            forall|i: int|
                0 <= i < quotas@.len() ==> {
                    &&& #[trigger] quotas@[i] <= self.tally.matches@[i].samples@.len()
                    &&& self.rows()[i].samples.take(quotas@[i] as int) == emitted(
                        self.rows(),
                        self.samples_shown(),
                        i,
                    )
                },
        ensures
            strings::texts(final(lines)@) == strings::texts(old(lines)@) + self.sample_lines(),
    {
        let ghost before = strings::texts(lines@);
        let ghost rows = self.rows();
        let ghost texts = strings::texts(paths@);
        if self.caps.show_lines_per_file == 0 || paths.len() == 0 {
            assert(strings::texts(lines@) =~= before + self.sample_lines());
            return ;
        }
        push_text(lines, "sample_lines:".to_owned());
        let ghost head = before + seq!["sample_lines:"@];
        let mut i: usize = 0;
        assert(strings::texts(lines@) =~= head + self.sample_rows(0));
        while i < paths.len()
            invariant
                i <= paths.len(),
                rows == self.rows(),
                texts == strings::texts(paths@),
                texts == output::clamp_all(self.row_paths(), self.caps.show_line_chars as nat),
                paths@.len() == self.files_shown(),
                quotas@.len() == self.files_shown(),
                self.files_shown() <= self.tally.matches@.len(),
                forall|i: int|
                    0 <= i < quotas@.len() ==> {
                        &&& #[trigger] quotas@[i] <= self.tally.matches@[i].samples@.len()
                        &&& rows[i].samples.take(quotas@[i] as int) == emitted(
                            rows,
                            self.samples_shown(),
                            i,
                        )
                    },
                strings::texts(lines@) == head + self.sample_rows(i as nat),
            decreases paths.len() - i,
        {
            assert(rows[i as int] == self.tally.matches@[i as int]@);
            assert(texts[i as int] == paths@[i as int]@);
            let quota = quotas[i];
            let ghost path = paths@[i as int]@;
            let ghost samples = emitted(rows, self.samples_shown(), i as int);
            assert(samples == rows[i as int].samples.take(quota as int));
            let ghost wanted = samples.map_values(
                |sample: grep_scan::Sample| sample_line(path, sample),
            );
            let ghost done = strings::texts(lines@);
            let mut k: usize = 0;
            assert(done + wanted.take(0) =~= done);
            while k < quota
                invariant
                    k <= quota,
                    i < paths@.len(),
                    path == paths@[i as int]@,
                    i < self.tally.matches@.len(),
                    rows[i as int] == self.tally.matches@[i as int]@,
                    quota <= self.tally.matches@[i as int].samples@.len(),
                    samples == rows[i as int].samples.take(quota as int),
                    wanted == samples.map_values(
                        |sample: grep_scan::Sample| sample_line(path, sample),
                    ),
                    strings::texts(lines@) == done + wanted.take(k as int),
                decreases quota - k,
            {
                let sample = &self.tally.matches[i].samples[k];
                assert(samples[k as int] == sample@);
                let separator = if sample.is_match {
                    ":"
                } else {
                    "-"
                };
                push_text(
                    lines,
                    "  ".to_owned().concat(paths[i].as_str()).concat(":").concat(
                        count_text(sample.line).as_str(),
                    ).concat(separator).concat(sample.text.as_str()),
                );
                assert(done + wanted.take(k + 1) =~= (done + wanted.take(k as int)).push(
                    wanted[k as int],
                ));
                k += 1;
            }
            assert(wanted.take(k as int) =~= wanted);
            assert(path == output::clamped(
                self.row_paths()[i as int],
                self.caps.show_line_chars as nat,
            ));
            assert(strings::texts(lines@) =~= head + self.sample_rows((i + 1) as nat));
            i += 1;
        }
        if capped {
            push_text(
                lines,
                "[contextmink] capped sample lines at ".to_owned().concat(
                    count_text(self.caps.show_lines).as_str(),
                ).concat("; narrow the query."),
            );
        }
        assert(strings::texts(lines@) =~= before + self.sample_lines());
    }

    /// What is shown, line by line.
    pub fn lines(&self) -> (lines: Vec<String>)
        requires
            self.well_formed(),
        ensures
            strings::texts(lines@) == self.shown_lines(),
    {
        let mut lines: Vec<String> = Vec::new();
        assert(strings::texts(lines@) =~= Seq::empty());
        if self.quiet {
            return lines;
        }
        let counts = self.counts();
        let list = self.list_paths(counts.files_shown);
        let (clamped, _) = clamp_texts(&list, self.caps.show_line_chars);
        assert(strings::texts(clamped@).len() == clamped@.len());
        let quotas = self.quotas(&counts);
        self.push_head(&mut lines);
        self.push_matches(&mut lines, &clamped);
        self.push_samples(&mut lines, &clamped, &quotas, counts.samples_capped);
        let receipt = self.receipt(None, false);
        if !receipt.complete() {
            push_text(
                &mut lines,
                "[contextmink] capped grep output or scan; narrow the path or pattern before treating this as complete.".to_owned(),
            );
        }
        assert(strings::texts(lines@) =~= self.shown_lines());
        lines
    }
}

/// The totals of a search are exact if and only if its receipt says that its scope
/// is complete, and a search without matches names its scope accordingly. What is
/// held back on purpose is not reported as cut off.
pub proof fn search_says_what_it_covered(
    report: GrepReport,
    profile: Option<Seq<char>>,
    as_json: bool,
)
    requires
        report.well_formed(),
    ensures
        ({
            let receipt = report.receipt_model(profile, as_json);
            &&& receipt.scope_complete() == !receipt.result.total_is_lower_bound
            &&& report.rows().len() == 0 ==> report.no_match_scope() == Json::Text(
                if receipt.scope_complete() {
                    "complete_scope"@
                } else {
                    "scanned_subset"@
                },
            )
            &&& report.quiet ==> receipt.result.shown == 0 && (receipt.output_truncated()
                == report.cuts_characters(as_json))
        }),
{
    lemma_caps(report, as_json, output::ReceiptCapBoundary::Scope);
    lemma_caps(report, as_json, output::ReceiptCapBoundary::Output);
}

proof fn lemma_caps(report: GrepReport, as_json: bool, boundary: output::ReceiptCapBoundary)
    requires
        report.well_formed(),
    ensures
        boundary == output::ReceiptCapBoundary::Scope ==> output::some_cap_is(
            report.receipt_caps(as_json),
            boundary,
        ) == report.is_lower_bound(),
        boundary == output::ReceiptCapBoundary::Output ==> output::some_cap_is(
            report.receipt_caps(as_json),
            boundary,
        ) == ((!report.quiet && report.files_shown() < report.rows().len())
            || report.samples_shown() < report.samples_available() || report.omitted() > 0
            || report.cuts_characters(as_json)),
{
    let caps = report.caps;
    let none = Seq::<output::Cap>::empty();
    let candidates = output::scope_cap("candidate_files"@, caps.max_content_files as nat);
    let matching = output::scope_cap("matching_files"@, caps.max_matching_files as nat);
    let content = output::scope_cap("content_bytes"@, caps.max_content_bytes->Some_0 as nat);
    let bytes = output::scope_cap("file_bytes"@, caps.max_file_bytes as nat);
    let files = output::output_cap("matching_files"@, caps.show_files as nat, "--show-files"@);
    let samples = output::output_cap("sample_lines"@, caps.show_lines as nat, "--show-lines"@);
    let per_file = output::output_cap(
        "sample_matching_lines_per_file"@,
        caps.show_lines_per_file as nat,
        "--show-lines-per-file"@,
    );
    let characters = output::output_cap(
        "line_characters"@,
        caps.show_line_chars as nat,
        "--show-line-chars"@,
    );
    let content_capped = report.admission.capped && caps.max_content_bytes is Some;
    let large = report.tally.skipped_large > 0;
    let files_capped = !report.quiet && report.files_shown() < report.rows().len();
    let samples_capped = report.samples_shown() < report.samples_available();
    let c1 = none + output::when(report.candidate_files_capped, candidates);
    let c2 = c1 + output::when(report.match_capped(), matching);
    let c3 = c2 + output::when(content_capped, content);
    let c4 = c3 + output::when(large, bytes);
    let c5 = c4 + output::when(files_capped, files);
    let c6 = c5 + output::when(samples_capped, samples);
    let c7 = c6 + output::when(report.omitted() > 0, per_file);
    output::lemma_when(none, report.candidate_files_capped, candidates, boundary);
    output::lemma_when(c1, report.match_capped(), matching, boundary);
    output::lemma_when(c2, content_capped, content, boundary);
    output::lemma_when(c3, large, bytes, boundary);
    output::lemma_when(c4, files_capped, files, boundary);
    output::lemma_when(c5, samples_capped, samples, boundary);
    output::lemma_when(c6, report.omitted() > 0, per_file, boundary);
    output::lemma_when(c7, report.cuts_characters(as_json), characters, boundary);
}

/// The samples that are shown of all files together are as many as the receipt
/// says, and no more than were asked for.
pub proof fn samples_are_bounded(rows: Seq<MatchRow>, files: nat, budget: nat, n: nat)
    requires
        n <= files <= rows.len(),
        budget <= samples_in(rows, files),
    ensures
        emitted_total(rows, budget, n) == numbers::least(samples_in(rows, n), budget),
        emitted_total(rows, budget, files) == budget,
    decreases files,
{
    lemma_emitted_total(rows, budget, n);
    lemma_emitted_total(rows, budget, files);
}

/// How many samples are shown of the first `n` files.
pub open spec fn emitted_total(rows: Seq<MatchRow>, budget: nat, n: nat) -> nat
    decreases n,
{
    if n == 0 {
        0
    } else {
        emitted_total(rows, budget, (n - 1) as nat) + emitted(rows, budget, n - 1).len()
    }
}

proof fn lemma_emitted_total(rows: Seq<MatchRow>, budget: nat, n: nat)
    requires
        n <= rows.len(),
    ensures
        emitted_total(rows, budget, n) == numbers::least(samples_in(rows, n), budget),
    decreases n,
{
    if n > 0 {
        lemma_emitted_total(rows, budget, (n - 1) as nat);
    }
}

pub open spec fn grep_fields() -> Seq<Seq<char>> {
    seq![
        "pattern"@,
        "matching_lines_total"@,
        "matching_lines_total_is_lower_bound"@,
        "sample_lines_shown"@,
        "sample_matching_lines_omitted"@,
        "candidate_files_total"@,
        "candidate_files_selected"@,
        "content_files_admitted"@,
        "content_files_scanned"@,
        "content_bytes_admitted"@,
        "skipped_large_or_binary"@,
        "skipped_large"@,
        "skipped_binary"@,
        "skipped_files_sample"@,
        "nested_repos_entered_total"@,
        "nested_repos_entered_sample"@,
        "no_match_scope"@,
        "quiet"@,
        "matching_files"@,
    ]
}

/// The field names can stand beside each other.
proof fn lemma_grep_fields()
    ensures
        output::fresh_names(grep_fields()),
{
    reveal_strlit("schema");
    reveal_strlit("tool");
    reveal_strlit("command");
    reveal_strlit("profile");
    reveal_strlit("duration_ms");
    reveal_strlit("scope_complete");
    reveal_strlit("output_truncated");
    reveal_strlit("complete");
    reveal_strlit("caps");
    reveal_strlit("result");
    reveal_strlit("output_cap_arguments");
    reveal_strlit("pattern");
    reveal_strlit("matching_lines_total");
    reveal_strlit("matching_lines_total_is_lower_bound");
    reveal_strlit("sample_lines_shown");
    reveal_strlit("sample_matching_lines_omitted");
    reveal_strlit("candidate_files_total");
    reveal_strlit("candidate_files_selected");
    reveal_strlit("content_files_admitted");
    reveal_strlit("content_files_scanned");
    reveal_strlit("content_bytes_admitted");
    reveal_strlit("skipped_large_or_binary");
    reveal_strlit("skipped_large");
    reveal_strlit("skipped_binary");
    reveal_strlit("skipped_files_sample");
    reveal_strlit("nested_repos_entered_total");
    reveal_strlit("nested_repos_entered_sample");
    reveal_strlit("no_match_scope");
    reveal_strlit("quiet");
    reveal_strlit("matching_files");
    assert("candidate_files_selected"@.len() == 24);
    assert("candidate_files_total"@.len() == 21);
    assert("candidate_files_total"@[1] == 'a');
    assert("caps"@.len() == 4);
    assert("command"@.len() == 7);
    assert("command"@[0] == 'c');
    assert("complete"@.len() == 8);
    assert("content_bytes_admitted"@.len() == 22);
    assert("content_bytes_admitted"@[8] == 'b');
    assert("content_files_admitted"@.len() == 22);
    assert("content_files_admitted"@[8] == 'f');
    assert("content_files_scanned"@.len() == 21);
    assert("content_files_scanned"@[1] == 'o');
    assert("duration_ms"@.len() == 11);
    assert("matching_files"@.len() == 14);
    assert("matching_files"@[0] == 'm');
    assert("matching_lines_total"@.len() == 20);
    assert("matching_lines_total"@[0] == 'm');
    assert("matching_lines_total_is_lower_bound"@.len() == 35);
    assert("nested_repos_entered_sample"@.len() == 27);
    assert("nested_repos_entered_total"@.len() == 26);
    assert("no_match_scope"@.len() == 14);
    assert("no_match_scope"@[0] == 'n');
    assert("output_cap_arguments"@.len() == 20);
    assert("output_cap_arguments"@[0] == 'o');
    assert("output_truncated"@.len() == 16);
    assert("pattern"@.len() == 7);
    assert("pattern"@[0] == 'p');
    assert("pattern"@[1] == 'a');
    assert("profile"@.len() == 7);
    assert("profile"@[1] == 'r');
    assert("quiet"@.len() == 5);
    assert("result"@.len() == 6);
    assert("sample_lines_shown"@.len() == 18);
    assert("sample_matching_lines_omitted"@.len() == 29);
    assert("schema"@.len() == 6);
    assert("scope_complete"@.len() == 14);
    assert("scope_complete"@[0] == 's');
    assert("scope_complete"@[1] == 'c');
    assert("skipped_binary"@.len() == 14);
    assert("skipped_binary"@[0] == 's');
    assert("skipped_binary"@[1] == 'k');
    assert("skipped_files_sample"@.len() == 20);
    assert("skipped_files_sample"@[0] == 's');
    assert("skipped_large"@.len() == 13);
    assert("skipped_large_or_binary"@.len() == 23);
    assert("tool"@.len() == 4);
}

/// The files that are let in are the longest beginning of the list whose bytes together
/// stay within the bound: none is let in behind one that does not fit.
pub proof fn admitted_files_are_the_longest_beginning(sizes: Seq<u64>, max: nat, n: nat)
    requires
        n <= sizes.len(),
    ensures
        fitting(sizes, max, 0) <= sizes.len(),
        bytes_of(sizes, fitting(sizes, max, 0)) <= max,
        n <= fitting(sizes, max, 0) <==> bytes_of(sizes, n) <= max,
{
    lemma_fitting(sizes, max, 0);
    lemma_bytes_grow(sizes, n, sizes.len());
    let files = fitting(sizes, max, 0);
    if n <= files {
        lemma_bytes_grow(sizes, n, files);
    } else {
        lemma_bytes_grow(sizes, files + 1, n);
    }
}

proof fn lemma_fitting(sizes: Seq<u64>, max: nat, n: nat)
    requires
        n <= sizes.len(),
        bytes_of(sizes, n) <= max,
    ensures
        n <= fitting(sizes, max, n) <= sizes.len(),
        bytes_of(sizes, fitting(sizes, max, n)) <= max,
        fitting(sizes, max, n) < sizes.len() ==> bytes_of(sizes, fitting(sizes, max, n) + 1) > max,
    decreases sizes.len() - n,
{
    if n < sizes.len() && bytes_of(sizes, n + 1) <= max {
        lemma_fitting(sizes, max, n + 1);
    }
}

proof fn lemma_bytes_grow(sizes: Seq<u64>, n: nat, m: nat)
    requires
        n <= m <= sizes.len(),
    ensures
        bytes_of(sizes, n) <= bytes_of(sizes, m),
    decreases m,
{
    if n < m {
        lemma_bytes_grow(sizes, n, (m - 1) as nat);
    }
}

/// The bytes of files add up.
pub proof fn bytes_add_up(a: Seq<u64>, b: Seq<u64>)
    ensures
        bytes_of(a + b, (a + b).len()) == bytes_of(a, a.len()) + bytes_of(b, b.len()),
        forall|size: u64| #[trigger] bytes_of(seq![size], 1) == size,
    decreases b.len(),
{
    let both = a + b;
    if b.len() > 0 {
        bytes_add_up(a, b.drop_last());
        let less = a + b.drop_last();
        lemma_bytes_alike(both, less, less.len());
        lemma_bytes_alike(b, b.drop_last(), (b.len() - 1) as nat);
    } else {
        assert(both =~= a);
    }
    assert forall|size: u64| #[trigger] bytes_of(seq![size], 1) == size by {
        assert(bytes_of(seq![size], 0) == 0);
    }
}

proof fn lemma_bytes_alike(a: Seq<u64>, b: Seq<u64>, n: nat)
    requires
        n <= a.len(),
        n <= b.len(),
        forall|i: int| 0 <= i < n ==> a[i] == b[i],
    ensures
        bytes_of(a, n) == bytes_of(b, n),
    decreases n,
{
    if n > 0 {
        lemma_bytes_alike(a, b, (n - 1) as nat);
    }
}

/// What was found is the sum of what was found in each file: the files that match come
/// in the order in which they were looked at, and so do those that were not looked into.
pub proof fn findings_add_up(a: Seq<Scan>, b: Seq<Scan>)
    ensures
        matches_in(a + b) == matches_in(a) + matches_in(b),
        skips_in(a + b) == skips_in(a) + skips_in(b),
        matches_in(a).len() + skips_in(a).len() <= a.len(),
    decreases b.len() + a.len(),
{
    if a.len() > 0 {
        findings_add_up(a.drop_last(), Seq::empty());
    }
    if b.len() > 0 {
        assert((a + b).drop_last() =~= a + b.drop_last());
        findings_add_up(a, b.drop_last());
        assert(matches_in(a + b) =~= matches_in(a) + matches_in(b));
        assert(skips_in(a + b) =~= skips_in(a) + skips_in(b));
    } else {
        assert(a + b =~= a);
        assert(matches_in(a + b) =~= matches_in(a) + matches_in(b));
        assert(skips_in(a + b) =~= skips_in(a) + skips_in(b));
    }
}

/// A file is among those that match, with its path and its count, if and only if its
/// scan found matching lines; one that was too large or no text is among those that were
/// not looked into.
pub proof fn each_file_is_reported_once(scan: Scan)
    ensures
        scan matches Scan::Matched { path, matching_lines, samples, omitted } ==> matches_in(
            seq![scan],
        ) == seq![MatchRow { path, count: matching_lines, samples, omitted }] && skips_in(
            seq![scan],
        ).len() == 0,
        scan is NoMatch ==> matches_in(seq![scan]).len() == 0 && skips_in(seq![scan]).len() == 0,
        scan matches Scan::Large { path, bytes } ==> matches_in(seq![scan]).len() == 0 && skips_in(
            seq![scan],
        ) == seq![Skip { path, bytes: Some(bytes) }],
        scan matches Scan::Binary { path } ==> matches_in(seq![scan]).len() == 0 && skips_in(
            seq![scan],
        ) == seq![Skip { path, bytes: None }],
{
    assert(seq![scan].drop_last() =~= Seq::empty());
    assert(seq![scan].last() == scan);
    assert(matches_in(Seq::empty()) =~= Seq::empty());
    assert(skips_in(Seq::empty()) =~= Seq::empty());
}

/// The samples that are shown of a file are its first ones, as many as those of the
/// files before it leave of the budget.
pub proof fn earlier_files_are_sampled_first(rows: Seq<MatchRow>, budget: nat, i: int)
    requires
        0 <= i < rows.len(),
    ensures
        emitted(rows, budget, i).is_prefix_of(rows[i].samples),
        samples_in(rows, i as nat) >= budget ==> emitted(rows, budget, i).len() == 0,
        samples_in(rows, i as nat) + rows[i].samples.len() <= budget ==> emitted(rows, budget, i)
            == rows[i].samples,
        emitted(rows, budget, i).len() < rows[i].samples.len() ==> samples_in(rows, i as nat)
            + emitted(rows, budget, i).len() >= budget,
{
    if samples_in(rows, i as nat) + rows[i].samples.len() <= budget {
        assert(emitted(rows, budget, i) =~= rows[i].samples);
    }
}

} // verus!
