//! What is reported of the files that a scan has selected, and of the repositories
//! that it has crossed.
use vstd::prelude::*;

use crate::files::CollectedFiles;
use crate::json;
use crate::json::{add_member, json_count, json_texts, Json, JsonValue};
use crate::numbers;
use crate::numbers::{count_text, smaller};
use crate::output;
use crate::output::{clamp_texts, Receipt, ReceiptCap, ReceiptModel, ReceiptResult};
use crate::paths;
use crate::paths::{display_path, Host};
use crate::strings;
use crate::strings::{join, push_text};

verus! {

/// How many crossed repositories a receipt names.
pub const NESTED_REPOS_RECEIPT_LIMIT: usize = 12;

/// How many crossed repositories are named in the text.
pub const NESTED_REPOS_HUMAN_LIMIT: usize = 8;

/// The first texts of a list.
pub open spec fn first_of(list: Seq<Seq<char>>, n: nat) -> Seq<Seq<char>> {
    list.take(numbers::least(list.len(), n) as int)
}

/// The first texts of a list.
pub fn first_texts(list: &[String], n: usize) -> (head: Vec<String>)
    ensures
        strings::texts(head@) == first_of(strings::texts(list@), n as nat),
{
    let ghost texts = strings::texts(list@);
    assert(texts.len() == list@.len());
    let bound = smaller(list.len(), n);
    let mut head: Vec<String> = Vec::new();
    let mut i: usize = 0;
    assert(strings::texts(head@) =~= texts.take(0));
    while i < bound
        invariant
            i <= bound <= list.len(),
            texts == strings::texts(list@),
            strings::texts(head@) == texts.take(i as int),
        decreases bound - i,
    {
        assert(texts[i as int] == list@[i as int]@);
        push_text(&mut head, list[i].clone());
        assert(texts.take(i + 1) =~= texts.take(i as int).push(texts[i as int]));
        i += 1;
    }
    head
}

/// What a receipt says of the repositories that were crossed.
pub open spec fn nested_fields(nested: Seq<Seq<char>>) -> Seq<(Seq<char>, Json)> {
    seq![
        ("nested_repos_entered_total"@, json::count_json(nested.len())),
        (
            "nested_repos_entered_sample"@,
            json::text_array(first_of(nested, NESTED_REPOS_RECEIPT_LIMIT as nat)),
        ),
    ]
}

/// Adds what a receipt says of the repositories that were crossed.
pub fn nested_repos_receipt_fields(members: &mut Vec<(String, JsonValue)>, nested: &[String])
    ensures
        json::member_models(final(members)@) == json::member_models(old(members)@) + nested_fields(
            strings::texts(nested@),
        ),
{
    let ghost before = json::member_models(members@);
    assert(strings::texts(nested@).len() == nested@.len());
    add_member(members, "nested_repos_entered_total", json_count(nested.len()));
    let sample = first_texts(nested, NESTED_REPOS_RECEIPT_LIMIT);
    add_member(members, "nested_repos_entered_sample", json_texts(&sample));
    assert(json::member_models(members@) =~= before + nested_fields(strings::texts(nested@)));
}

/// What the text says of the repositories that were crossed, if any were.
pub open spec fn nested_note(nested: Seq<Seq<char>>) -> Option<Seq<char>> {
    if nested.len() == 0 {
        None
    } else {
        Some(
            "[contextmink] entered "@ + numbers::decimal(nested.len()) + " nested Git repo(s): "@
                + strings::join_texts(first_of(nested, NESTED_REPOS_HUMAN_LIMIT as nat), ", "@) + (
            if nested.len() > NESTED_REPOS_HUMAN_LIMIT {
                ", ... and "@ + numbers::decimal(
                    (nested.len() - NESTED_REPOS_HUMAN_LIMIT) as nat,
                ) + " more"@
            } else {
                Seq::empty()
            }),
        )
    }
}

/// What the text says of the repositories that were crossed, if any were.
pub fn write_nested_repos_note(nested: &[String]) -> (note: Option<String>)
    ensures
        strings::text_option(note) == nested_note(strings::texts(nested@)),
{
    assert(strings::texts(nested@).len() == nested@.len());
    if nested.len() == 0 {
        return None;
    }
    let head = first_texts(nested, NESTED_REPOS_HUMAN_LIMIT);
    let listed = join(&head, ", ");
    let rest = if nested.len() > NESTED_REPOS_HUMAN_LIMIT {
        ", ... and ".to_owned().concat(
            count_text(nested.len() - NESTED_REPOS_HUMAN_LIMIT).as_str(),
        ).concat(" more")
    } else {
        let empty = String::new();
        assert(empty@ =~= Seq::empty());
        empty
    };
    Some(
        "[contextmink] entered ".to_owned().concat(count_text(nested.len()).as_str()).concat(
            " nested Git repo(s): ",
        ).concat(listed.as_str()).concat(rest.as_str()),
    )
}

/// Paths as they are displayed.
pub open spec fn displayed(list: Seq<Seq<char>>, host: Host) -> Seq<Seq<char>> {
    list.map_values(|path: Seq<char>| paths::normalized(path, host))
}

/// Paths as they are displayed.
pub fn display_paths(list: &[String], host: Host) -> (shown: Vec<String>)
    ensures
        strings::texts(shown@) == displayed(strings::texts(list@), host),
{
    let ghost texts = strings::texts(list@);
    let ghost wanted = displayed(texts, host);
    let mut shown: Vec<String> = Vec::new();
    let mut i: usize = 0;
    assert(strings::texts(shown@) =~= wanted.take(0));
    while i < list.len()
        invariant
            i <= list.len(),
            texts == strings::texts(list@),
            wanted == displayed(texts, host),
            strings::texts(shown@) == wanted.take(i as int),
        decreases list.len() - i,
    {
        assert(texts[i as int] == list@[i as int]@);
        push_text(&mut shown, display_path(list[i].as_str(), host));
        assert(wanted.take(i + 1) =~= wanted.take(i as int).push(wanted[i as int]));
        i += 1;
    }
    assert(wanted.take(i as int) =~= wanted);
    shown
}

/// The list of files that is reported.
#[derive(Debug)]
pub struct FilesReport {
    pub collected: CollectedFiles,
    pub show_files: usize,
    pub show_line_chars: usize,
    /// Only the receipt is asked for.
    pub quiet: bool,
    pub host: Host,
}

/// How many files a scan keeps: as many as are shown, and one at least.
pub open spec fn retained(show_files: nat) -> nat {
    if show_files == 0 {
        1
    } else {
        show_files
    }
}

/// How many files a scan keeps.
pub fn retained_files(show_files: usize) -> (kept: usize)
    ensures
        kept == retained(show_files as nat),
{
    if show_files == 0 {
        1
    } else {
        show_files
    }
}

impl FilesReport {
    /// No more files are kept than there are.
    pub open spec fn well_formed(&self) -> bool {
        self.collected.files@.len() <= self.collected.total_seen
    }

    pub open spec fn shown(&self) -> nat {
        if self.quiet {
            0
        } else {
            numbers::least(self.collected.files@.len(), self.show_files as nat)
        }
    }

    /// The paths that are shown, before they are cut to length.
    pub open spec fn paths(&self) -> Seq<Seq<char>> {
        displayed(first_of(strings::texts(self.collected.files@), self.shown()), self.host)
    }

    fn shown_paths(&self) -> (list: Vec<String>)
        ensures
            strings::texts(list@) == self.paths(),
    {
        let shown = self.count_shown();
        display_paths(&first_texts(&self.collected.files, shown), self.host)
    }

    fn count_shown(&self) -> (shown: usize)
        ensures
            shown == self.shown(),
    {
        if self.quiet {
            0
        } else {
            smaller(self.collected.files.len(), self.show_files)
        }
    }

    /// Paths that are held back on purpose are not omitted.
    pub open spec fn caps(&self) -> Seq<output::Cap> {
        Seq::empty() + output::when(
            self.collected.selection_capped && !self.quiet,
            output::output_cap(
                "candidate_files"@,
                retained(self.show_files as nat),
                "--show-files"@,
            ),
        ) + output::when(
            !self.quiet && self.shown() < self.collected.files@.len(),
            output::output_cap("files"@, self.show_files as nat, "--show-files"@),
        ) + output::when(
            output::some_is_longer(self.paths(), self.show_line_chars as nat),
            output::output_cap(
                "line_characters"@,
                self.show_line_chars as nat,
                "--show-line-chars"@,
            ),
        )
    }

    pub open spec fn fields(&self, with_files: bool) -> Seq<(Seq<char>, Json)> {
        seq![("candidate_files_selected"@, json::count_json(self.collected.files@.len()))]
            + nested_fields(strings::texts(self.collected.nested_repos_entered@)) + (if self.quiet {
            seq![("quiet"@, Json::Bool(true))]
        } else if with_files {
            seq![
                (
                    "files"@,
                    json::text_array(
                        output::clamp_all(self.paths(), self.show_line_chars as nat),
                    ),
                ),
            ]
        } else {
            Seq::empty()
        })
    }

    /// The receipt of the list; `with_files` puts the files into it.
    pub fn receipt(&self, profile: Option<&str>, with_files: bool) -> (receipt: Receipt)
        requires
            self.well_formed(),
        ensures
            receipt.model() == (ReceiptModel {
                command: "files"@,
                profile: strings::opt_text(profile),
                result: output::ResultCount {
                    unit: "files"@,
                    total: self.collected.total_seen as nat,
                    total_is_lower_bound: false,
                    shown: self.shown(),
                },
                caps: self.caps(),
                fields: self.fields(with_files),
            }),
            receipt.model().well_formed(),
    {
        let shown = self.count_shown();
        let mut receipt = Receipt::new(
            "files",
            profile,
            ReceiptResult::new("files", self.collected.total_seen, false, shown),
        );
        let (clamped, cut) = clamp_texts(&self.shown_paths(), self.show_line_chars);
        receipt.add_cap_if(
            self.collected.selection_capped && !self.quiet,
            ReceiptCap::output(
                "candidate_files",
                Some(retained_files(self.show_files)),
                "--show-files",
            ),
        );
        receipt.add_cap_if(
            !self.quiet && shown < self.collected.files.len(),
            ReceiptCap::output("files", Some(self.show_files), "--show-files"),
        );
        receipt.add_cap_if(
            cut,
            ReceiptCap::output("line_characters", Some(self.show_line_chars), "--show-line-chars"),
        );
        let mut members: Vec<(String, JsonValue)> = Vec::new();
        assert(json::member_models(members@) =~= Seq::empty());
        add_member(&mut members, "candidate_files_selected", json_count(self.collected.files.len()));
        nested_repos_receipt_fields(&mut members, &self.collected.nested_repos_entered);
        if self.quiet {
            add_member(&mut members, "quiet", JsonValue::Bool(true));
        } else if with_files {
            add_member(&mut members, "files", json_texts(&clamped));
        }
        let ghost fields = json::member_models(members@);
        proof {
            assert(fields =~= self.fields(with_files));
            lemma_files_fields();
            output::lemma_fresh_without(files_fields(), 4);
            output::lemma_fresh_without(files_fields(), 3);
            output::lemma_fresh_without(files_fields().remove(4), 3);
            if self.quiet {
                assert(output::field_names(fields) =~= files_fields().remove(4));
            } else if with_files {
                assert(output::field_names(fields) =~= files_fields().remove(3));
            } else {
                assert(output::field_names(fields) =~= files_fields().remove(4).remove(3));
            }
        }
        receipt.insert_all(members);
        receipt
    }

    /// What is shown, line by line.
    pub open spec fn shown_lines(&self) -> Seq<Seq<char>> {
        if self.quiet {
            Seq::empty()
        } else {
            output::clamp_all(self.paths(), self.show_line_chars as nat) + (match nested_note(
                strings::texts(self.collected.nested_repos_entered@),
            ) {
                Some(note) => seq![note],
                None => Seq::empty(),
            }) + (if self.collected.selection_capped {
                seq![
                    "[contextmink] capped displayed file paths at "@ + numbers::decimal(
                        retained(self.show_files as nat),
                    ) + "; narrow the path or filters to inspect the omitted paths."@,
                ]
            } else {
                Seq::empty()
            })
        }
    }

    /// What is shown, line by line.
    pub fn lines(&self) -> (lines: Vec<String>)
        ensures
            strings::texts(lines@) == self.shown_lines(),
    {
        if self.quiet {
            let none: Vec<String> = Vec::new();
            assert(strings::texts(none@) =~= Seq::empty());
            return none;
        }
        let (mut lines, _) = clamp_texts(&self.shown_paths(), self.show_line_chars);
        if let Some(note) = write_nested_repos_note(&self.collected.nested_repos_entered) {
            push_text(&mut lines, note);
        }
        if self.collected.selection_capped {
            push_text(
                &mut lines,
                "[contextmink] capped displayed file paths at ".to_owned().concat(
                    count_text(retained_files(self.show_files)).as_str(),
                ).concat("; narrow the path or filters to inspect the omitted paths."),
            );
        }
        assert(strings::texts(lines@) =~= self.shown_lines());
        lines
    }
}

/// Holding the list back on purpose is not reported as cutting it off.
pub proof fn quiet_listing_is_not_truncated(report: FilesReport)
    requires
        report.quiet,
    ensures
        report.shown() == 0,
        report.caps() == Seq::<output::Cap>::empty(),
{
    assert(report.paths() =~= Seq::empty());
    assert(report.caps() =~= Seq::empty());
}

pub open spec fn files_fields() -> Seq<Seq<char>> {
    seq![
        "candidate_files_selected"@,
        "nested_repos_entered_total"@,
        "nested_repos_entered_sample"@,
        "quiet"@,
        "files"@,
    ]
}

/// The field names can stand beside each other.
proof fn lemma_files_fields()
    ensures
        output::fresh_names(files_fields()),
{
    reveal_strlit("schema");
    reveal_strlit("tool");
    reveal_strlit("command");
    reveal_strlit("profile");
    reveal_strlit("duration_ms");
    reveal_strlit("scope_complete");
    reveal_strlit("output_truncated");
    reveal_strlit("complete");
    reveal_strlit("caps");
    reveal_strlit("result");
    reveal_strlit("output_cap_arguments");
    reveal_strlit("candidate_files_selected");
    reveal_strlit("nested_repos_entered_total");
    reveal_strlit("nested_repos_entered_sample");
    reveal_strlit("quiet");
    reveal_strlit("files");
    assert("candidate_files_selected"@.len() == 24);
    assert("caps"@.len() == 4);
    assert("command"@.len() == 7);
    assert("complete"@.len() == 8);
    assert("duration_ms"@.len() == 11);
    assert("files"@.len() == 5);
    assert("files"@[0] == 'f');
    assert("nested_repos_entered_sample"@.len() == 27);
    assert("nested_repos_entered_total"@.len() == 26);
    assert("output_cap_arguments"@.len() == 20);
    assert("output_truncated"@.len() == 16);
    assert("profile"@.len() == 7);
    assert("quiet"@.len() == 5);
    assert("quiet"@[0] == 'q');
    assert("result"@.len() == 6);
    assert("schema"@.len() == 6);
    assert("scope_complete"@.len() == 14);
    assert("tool"@.len() == 4);
}

/// A listing whose receipt names no limit shows every file that was found, in order and
/// in full.
pub proof fn unlimited_listing_shows_every_file(report: FilesReport)
    requires
        report.well_formed(),
        !report.quiet,
        report.collected.selection_capped == (report.collected.files@.len()
            < report.collected.total_seen),
        report.caps().len() == 0,
    ensures
        report.paths().len() == report.collected.total_seen,
        forall|i: int|
            0 <= i < report.paths().len() ==> #[trigger] report.paths()[i] == paths::normalized(
                report.collected.files@[i]@,
                report.host,
            ) && report.paths()[i].len() <= report.show_line_chars,
{
    let files = strings::texts(report.collected.files@);
    assert(files.len() == report.collected.files@.len());
    assert(report.shown() == report.collected.files@.len());
    let paths = report.paths();
    assert(!output::some_is_longer(paths, report.show_line_chars as nat));
    assert forall|i: int| 0 <= i < paths.len() implies #[trigger] paths[i] == paths::normalized(
        report.collected.files@[i]@,
        report.host,
    ) && paths[i].len() <= report.show_line_chars by {
        assert(files[i] == report.collected.files@[i]@);
    }
}

} // verus!
