//! How many files the directories of a scan hold.
use std::collections::HashSet;

use vstd::prelude::*;

use crate::files;
use crate::files::{distinct_found, FoundFile};
use crate::files_report;
use crate::files_report::{nested_repos_receipt_fields, write_nested_repos_note};
use crate::json;
use crate::json::{
    add_item, add_member, json_array, json_count, json_object, json_text, Json, JsonValue,
};
use crate::numbers;
use crate::numbers::{count_text, smaller};
use crate::ordering;
use crate::ordering::sort_texts;
use crate::output;
use crate::output::{
    clamp_text, Receipt, ReceiptCap, ReceiptModel, ReceiptResult,
};
use crate::paths;
use crate::paths::{display_path, Host};
use crate::strings;
use crate::strings::{chars_of, occurs_in_at, push_all, push_text};

verus! {

/// Why no directories are counted.
#[derive(Debug)]
pub enum DirsFault {
    ZeroDepth,
    ZeroFilesCounted,
    /// A root is a file.
    File { path: String },
}

impl DirsFault {
    pub open spec fn text(&self) -> Seq<char> {
        match self {
            DirsFault::ZeroDepth => "dirs --depth must be greater than zero"@,
            DirsFault::ZeroFilesCounted => "dirs --max-files-counted must be greater than zero"@,
            DirsFault::File { path } => "dirs requires directory inputs; use `files` to inspect "@
                + path@,
        }
    }

    pub fn message(&self) -> (message: String)
        ensures
            message@ == self.text(),
    {
        match self {
            DirsFault::ZeroDepth => "dirs --depth must be greater than zero".to_owned(),
            DirsFault::ZeroFilesCounted =>
                "dirs --max-files-counted must be greater than zero".to_owned(),
            DirsFault::File { path } =>
                "dirs requires directory inputs; use `files` to inspect ".to_owned().concat(
                path.as_str(),
            ),
        }
    }
}

/// The first root from here on that is a file.
pub open spec fn first_file(roots: Seq<files::ScanRoot>, at: int) -> Option<Seq<char>>
    decreases roots.len() - at,
{
    if at < 0 || at >= roots.len() {
        None
    } else if roots[at].is_file {
        Some(roots[at].path@)
    } else {
        first_file(roots, at + 1)
    }
}

/// Directories are counted below directories, and something is counted.
pub fn validate_dirs(roots: &[files::ScanRoot], depth: usize, max_files_counted: usize) -> (verdict:
    Result<(), DirsFault>)
    ensures
        match verdict {
            Ok(_) => depth > 0 && max_files_counted > 0 && first_file(roots@, 0) is None,
            Err(DirsFault::ZeroDepth) => depth == 0,
            Err(DirsFault::ZeroFilesCounted) => depth > 0 && max_files_counted == 0,
            Err(DirsFault::File { path }) => depth > 0 && max_files_counted > 0 && first_file(
                roots@,
                0,
            ) == Some(path@),
        },
{
    if depth == 0 {
        return Err(DirsFault::ZeroDepth);
    }
    if max_files_counted == 0 {
        return Err(DirsFault::ZeroFilesCounted);
    }
    let mut i: usize = 0;
    while i < roots.len()
        invariant
            i <= roots.len(),
            depth > 0,
            max_files_counted > 0,
            first_file(roots@, i as int) == first_file(roots@, 0),
        decreases roots.len() - i,
    {
        if roots[i].is_file {
            return Err(DirsFault::File { path: roots[i].path.clone() });
        }
        i += 1;
    }
    Ok(())
}

/// Whether a path lies below a directory, both as they are displayed; below the
/// current directory lies what neither starts at the root nor leaves it.
pub open spec fn lies_below(directory: Seq<char>, path: Seq<char>) -> bool {
    if directory == "."@ {
        !"/"@.is_prefix_of(path) && !"../"@.is_prefix_of(path)
    } else {
        (directory + "/"@).is_prefix_of(path)
    }
}

/// The directory as it is listed.
pub open spec fn listed(path: Seq<char>, host: Host) -> Seq<char> {
    let trimmed = paths::trimmed_path(paths::normalized(path, host));
    if trimmed.len() == 0 {
        "."@
    } else {
        trimmed
    }
}

fn list_directory(path: &str, host: Host) -> (text: String)
    ensures
        text@ == listed(path@, host),
{
    let trimmed = paths::trim_normalized_path(display_path(path, host).as_str());
    if trimmed.as_str().is_empty() {
        ".".to_owned()
    } else {
        trimmed
    }
}

pub open spec fn all_listed(directories: Seq<Seq<char>>, host: Host) -> Seq<Seq<char>> {
    directories.map_values(|path: Seq<char>| listed(path, host))
}

/// The directories in order, each once.
pub open spec fn listing(directories: Seq<Seq<char>>, host: Host) -> Seq<Seq<char>> {
    ordering::sorted_set(all_listed(directories, host), directories.len())
}

/// The files that are counted: the first so many.
pub open spec fn counted(found: Seq<files::Found>, max: nat, host: Host) -> Seq<files::Found> {
    let all = files::distinct_files(found, host);
    all.take(numbers::least(all.len(), max) as int)
}

/// The counted files that the first `n` spellings put below a directory.
pub open spec fn held_by(
    directory: Seq<char>,
    found: Seq<files::Found>,
    counted: Set<u128>,
    host: Host,
    n: nat,
) -> Set<u128>
    decreases n,
{
    if n == 0 || n > found.len() {
        Set::empty()
    } else {
        let before = held_by(directory, found, counted, host, (n - 1) as nat);
        let key = files::file_key(found[n - 1]) as u128;
        if counted.contains(key) && lies_below(
            directory,
            paths::trimmed_path(paths::normalized(found[n - 1].path, host)),
        ) {
            before.insert(key)
        } else {
            before
        }
    }
}

/// How many of the counted files lie below a directory, however often they are
/// spelled.
pub open spec fn file_count(
    directory: Seq<char>,
    found: Seq<files::Found>,
    max: nat,
    host: Host,
) -> nat {
    held_by(
        directory,
        found,
        files::file_keys(counted(found, max, host)),
        host,
        found.len(),
    ).len()
}

/// The directories of a scan and how many files they hold.
#[derive(Debug)]
pub struct DirectoryCounts {
    pub directories: Vec<String>,
    pub counts: Vec<usize>,
    pub files_counted: usize,
    /// Not all files are counted.
    pub capped: bool,
}

fn is_below(directory: &Vec<char>, path: &Vec<char>) -> (held: bool)
    ensures
        held == lies_below(directory@, path@),
{
    proof {
        reveal_strlit(".");
        reveal_strlit("/");
        reveal_strlit("../");
        assert("."@ =~= seq!['.']);
        assert("/"@ =~= seq!['/']);
        assert("../"@ =~= seq!['.', '.', '/']);
    }
    if directory.len() == 1 && directory[0] == '.' {
        assert(directory@ =~= "."@);
        let rooted = path.len() >= 1 && path[0] == '/';
        let leaves = path.len() >= 3 && path[0] == '.' && path[1] == '.' && path[2] == '/';
        assert(rooted == "/"@.is_prefix_of(path@)) by {
            if rooted {
                assert(path@.subrange(0, 1) =~= "/"@);
            } else if "/"@.is_prefix_of(path@) {
                assert(path@.subrange(0, 1)[0] == "/"@[0]);
            }
        }
        assert(leaves == "../"@.is_prefix_of(path@)) by {
            if leaves {
                assert(path@.subrange(0, 3) =~= "../"@);
            } else if "../"@.is_prefix_of(path@) {
                assert(path@.subrange(0, 3)[0] == "../"@[0]);
                assert(path@.subrange(0, 3)[1] == "../"@[1]);
                assert(path@.subrange(0, 3)[2] == "../"@[2]);
            }
        }
        return !rooted && !leaves;
    }
    assert(directory@ != "."@);
    let n: usize = directory.len();
    if path.len() <= n || path[n] != '/' {
        assert(!(directory@ + "/"@).is_prefix_of(path@)) by {
            if (directory@ + "/"@).is_prefix_of(path@) {
                assert((directory@ + "/"@)[n as int] == path@[n as int]);
            }
        }
        return false;
    }
    let same = occurs_in_at(path, directory, 0);
    assert(same == (directory@ + "/"@).is_prefix_of(path@)) by {
        if same {
            assert(path@.take(n + 1) =~= directory@ + "/"@);
        } else if (directory@ + "/"@).is_prefix_of(path@) {
            assert(path@.subrange(0, n as int) =~= directory@);
        }
    }
    same
}

fn keys_of(files: &[FoundFile], n: usize) -> (keys: HashSet<u128>)
    requires
        n <= files@.len(),
    ensures
        keys@ == files::file_keys(files::found_models(files@).take(n as int)),
{
    broadcast use vstd::std_specs::hash::group_hash_axioms;

    let ghost models = files::found_models(files@);
    let mut keys: HashSet<u128> = HashSet::new();
    let mut i: usize = 0;
    assert(keys@ =~= Set::empty());
    assert(models.take(0) =~= Seq::empty());
    while i < n
        invariant
            i <= n <= files@.len(),
            models == files::found_models(files@),
            keys@ == files::file_keys(models.take(i as int)),
        decreases n - i,
    {
        assert(models[i as int] == files@[i as int]@);
        assert(models.take(i + 1).drop_last() =~= models.take(i as int));
        keys.insert(files::number_of(&files[i]));
        i += 1;
    }
    keys
}

/// Counts the files below every directory.
pub fn count_directories(
    directories: &[String],
    found: &[FoundFile],
    max_files_counted: usize,
    host: Host,
) -> (counts: DirectoryCounts)
    ensures
        ({
            let models = files::found_models(found@);
            let all = listing(strings::texts(directories@), host);
            &&& strings::texts(counts.directories@) == all
            &&& counts.counts@.len() == all.len()
            &&& forall|i: int|
                0 <= i < all.len() ==> #[trigger] counts.counts@[i] == file_count(
                    all[i],
                    models,
                    max_files_counted as nat,
                    host,
                )
            &&& counts.files_counted == counted(models, max_files_counted as nat, host).len()
            &&& counts.capped == (files::distinct_files(models, host).len() > max_files_counted)
        }),
{
    let ghost given = strings::texts(directories@);
    let ghost models = files::found_models(found@);
    let ghost wanted = all_listed(given, host);
    let mut shown: Vec<String> = Vec::new();
    let mut i: usize = 0;
    assert(strings::texts(shown@) =~= wanted.take(0));
    while i < directories.len()
        invariant
            i <= directories.len(),
            given == strings::texts(directories@),
            wanted == all_listed(given, host),
            strings::texts(shown@) == wanted.take(i as int),
        decreases directories.len() - i,
    {
        assert(given[i as int] == directories@[i as int]@);
        push_text(&mut shown, list_directory(directories[i].as_str(), host));
        assert(wanted.take(i + 1) =~= wanted.take(i as int).push(wanted[i as int]));
        i += 1;
    }
    assert(wanted.take(i as int) =~= wanted);
    assert(strings::texts(shown@).len() == shown@.len());
    let sorted = sort_texts(&shown);
    let ghost all = strings::texts(sorted@);
    assert(all.len() == sorted@.len());
    let distinct = distinct_found(found, host);
    assert(files::found_models(distinct@).len() == distinct@.len());
    let files_counted = smaller(distinct.len(), max_files_counted);
    let keys = keys_of(&distinct, files_counted);
    let texts = path_texts(found, host);
    let ghost key_set = keys@;
    let mut counts: Vec<usize> = Vec::new();
    let mut k: usize = 0;
    while k < sorted.len()
        invariant
            k <= sorted.len(),
            all == strings::texts(sorted@),
            models == files::found_models(found@),
            key_set == keys@,
            key_set == files::file_keys(counted(models, max_files_counted as nat, host)),
            texts@.len() == found@.len(),
            forall|j: int|
                0 <= j < found@.len() ==> #[trigger] texts@[j]@ == paths::trimmed_path(
                    paths::normalized(models[j].path, host),
                ),
            counts@.len() == k,
            forall|j: int|
                0 <= j < k ==> #[trigger] counts@[j] == file_count(
                    all[j],
                    models,
                    max_files_counted as nat,
                    host,
                ),
        decreases sorted.len() - k,
    {
        assert(all[k as int] == sorted@[k as int]@);
        let directory = chars_of(sorted[k].as_str());
        let count = count_below(&directory, found, &texts, &keys, host);
        counts.push(count);
        k += 1;
    }
    DirectoryCounts {
        directories: sorted,
        counts,
        files_counted,
        capped: distinct.len() > max_files_counted,
    }
}

fn path_texts(found: &[FoundFile], host: Host) -> (texts: Vec<Vec<char>>)
    ensures
        texts@.len() == found@.len(),
        forall|j: int|
            0 <= j < found@.len() ==> #[trigger] texts@[j]@ == paths::trimmed_path(
                paths::normalized(files::found_models(found@)[j].path, host),
            ),
{
    let ghost models = files::found_models(found@);
    let mut texts: Vec<Vec<char>> = Vec::new();
    let mut i: usize = 0;
    while i < found.len()
        invariant
            i <= found.len(),
            models == files::found_models(found@),
            texts@.len() == i,
            forall|j: int|
                0 <= j < i ==> #[trigger] texts@[j]@ == paths::trimmed_path(
                    paths::normalized(models[j].path, host),
                ),
        decreases found.len() - i,
    {
        assert(models[i as int] == found@[i as int]@);
        let shown = display_path(found[i].path.as_str(), host);
        let chars = chars_of(paths::trim_normalized_path(shown.as_str()).as_str());
        texts.push(chars);
        i += 1;
    }
    texts
}

fn count_below(
    directory: &Vec<char>,
    found: &[FoundFile],
    texts: &Vec<Vec<char>>,
    keys: &HashSet<u128>,
    host: Host,
) -> (count: usize)
    requires
        texts@.len() == found@.len(),
        forall|j: int|
            0 <= j < found@.len() ==> #[trigger] texts@[j]@ == paths::trimmed_path(
                paths::normalized(files::found_models(found@)[j].path, host),
            ),
    ensures
        count == held_by(
            directory@,
            files::found_models(found@),
            keys@,
            host,
            found@.len(),
        ).len(),
{
    broadcast use vstd::std_specs::hash::group_hash_axioms;

    let ghost models = files::found_models(found@);
    let mut held: HashSet<u128> = HashSet::new();
    let mut i: usize = 0;
    assert(held@ =~= Set::empty());
    while i < found.len()
        invariant
            i <= found.len(),
            models == files::found_models(found@),
            texts@.len() == found@.len(),
            forall|j: int|
                0 <= j < found@.len() ==> #[trigger] texts@[j]@ == paths::trimmed_path(
                    paths::normalized(models[j].path, host),
                ),
            held@ == held_by(directory@, models, keys@, host, i as nat),
        decreases found.len() - i,
    {
        assert(models[i as int] == found@[i as int]@);
        assert(texts@[i as int]@ == paths::trimmed_path(
            paths::normalized(models[i as int].path, host),
        ));
        let key = files::number_of(&found[i]);
        if keys.contains(&key) && is_below(directory, &texts[i]) {
            held.insert(key);
        }
        i += 1;
    }
    held.len()
}

/// The directories that are reported.
#[derive(Debug)]
pub struct DirsReport {
    pub counts: DirectoryCounts,
    pub depth: usize,
    pub show_dirs: usize,
    pub show_line_chars: usize,
    pub max_files_counted: usize,
    pub nested_repos_entered: Vec<String>,
}

/// A directory and its count as they are displayed.
pub open spec fn dir_row(directory: Seq<char>, count: nat, capped: bool) -> Seq<char> {
    directory + (if capped {
        " files>="@
    } else {
        " files="@
    }) + numbers::decimal(count)
}

fn row_text(directory: &str, count: usize, capped: bool) -> (text: String)
    ensures
        text@ == dir_row(directory@, count as nat, capped),
{
    let sign = if capped {
        " files>="
    } else {
        " files="
    };
    directory.to_owned().concat(sign).concat(count_text(count).as_str())
}

pub open spec fn dir_json(directory: Seq<char>, count: nat, capped: bool, max: nat) -> Json {
    Json::Object(
        seq![
            ("path"@, Json::Text(output::clamped(directory, max))),
            ("display"@, Json::Text(output::clamped(dir_row(directory, count, capped), max))),
            ("files"@, json::count_json(count)),
        ],
    )
}

fn dir_value(directory: &str, count: usize, capped: bool, max: usize) -> (value: JsonValue)
    ensures
        value@ == dir_json(directory@, count as nat, capped, max as nat),
{
    let mut members: Vec<(String, JsonValue)> = Vec::new();
    assert(json::member_models(members@) =~= Seq::empty());
    add_member(&mut members, "path", json_text(clamp_text(directory, max).as_str()));
    let row = row_text(directory, count, capped);
    add_member(&mut members, "display", json_text(clamp_text(row.as_str(), max).as_str()));
    add_member(&mut members, "files", json_count(count));
    let value = json_object(members);
    assert(value@->Object_0 =~= dir_json(
        directory@,
        count as nat,
        capped,
        max as nat,
    )->Object_0);
    value
}

impl DirsReport {
    pub open spec fn well_formed(&self) -> bool {
        self.counts.counts@.len() == self.counts.directories@.len()
    }

    pub open spec fn total(&self) -> nat {
        self.counts.directories@.len()
    }

    pub open spec fn shown(&self) -> nat {
        numbers::least(self.total(), self.show_dirs as nat)
    }

    /// The rows that are shown, before they are cut to length.
    pub open spec fn rows(&self) -> Seq<Seq<char>> {
        Seq::new(
            self.shown(),
            |i: int|
                dir_row(
                    self.counts.directories@[i]@,
                    self.counts.counts@[i] as nat,
                    self.counts.capped,
                ),
        )
    }

    pub open spec fn caps(&self) -> Seq<output::Cap> {
        Seq::empty() + output::when(
            self.counts.capped,
            output::scope_cap("candidate_files"@, self.max_files_counted as nat),
        ) + output::when(
            self.shown() < self.total(),
            output::output_cap("dirs"@, self.show_dirs as nat, "--show-dirs"@),
        ) + output::when(
            output::some_is_longer(self.rows(), self.show_line_chars as nat),
            output::output_cap(
                "line_characters"@,
                self.show_line_chars as nat,
                "--show-line-chars"@,
            ),
        )
    }

    pub open spec fn rows_json(&self) -> Json {
        Json::Array(
            Seq::new(
                self.shown(),
                |i: int|
                    dir_json(
                        self.counts.directories@[i]@,
                        self.counts.counts@[i] as nat,
                        self.counts.capped,
                        self.show_line_chars as nat,
                    ),
            ),
        )
    }

    pub open spec fn fields(&self, with_rows: bool) -> Seq<(Seq<char>, Json)> {
        seq![
            ("depth"@, json::count_json(self.depth as nat)),
            ("files_counted"@, json::count_json(self.counts.files_counted as nat)),
            ("file_counts_are_lower_bounds"@, Json::Bool(self.counts.capped)),
        ] + files_report::nested_fields(strings::texts(self.nested_repos_entered@)) + (
        if with_rows {
            seq![("dirs"@, self.rows_json())]
        } else {
            Seq::empty()
        })
    }

    /// Directories are counted exactly even where files are not.
    pub open spec fn receipt_model(&self, profile: Option<Seq<char>>, with_rows: bool) -> ReceiptModel {
        ReceiptModel {
            command: "dirs"@,
            profile,
            result: output::ResultCount {
                unit: "dirs"@,
                total: self.total(),
                total_is_lower_bound: false,
                shown: self.shown(),
            },
            caps: self.caps(),
            fields: self.fields(with_rows),
        }
    }

    fn list_rows(&self) -> (rows: (Vec<String>, bool))
        requires
            self.well_formed(),
        ensures
            strings::texts(rows.0@) == output::clamp_all(
                self.rows(),
                self.show_line_chars as nat,
            ),
            rows.1 == output::some_is_longer(self.rows(), self.show_line_chars as nat),
    {
        let shown = smaller(self.counts.directories.len(), self.show_dirs);
        let ghost wanted = self.rows();
        let mut rows: Vec<String> = Vec::new();
        let mut i: usize = 0;
        assert(strings::texts(rows@) =~= wanted.take(0));
        while i < shown
            invariant
                i <= shown <= self.counts.directories@.len(),
                self.well_formed(),
                shown == self.shown(),
                wanted == self.rows(),
                strings::texts(rows@) == wanted.take(i as int),
            decreases shown - i,
        {
            push_text(
                &mut rows,
                row_text(
                    self.counts.directories[i].as_str(),
                    self.counts.counts[i],
                    self.counts.capped,
                ),
            );
            assert(wanted.take(i + 1) =~= wanted.take(i as int).push(wanted[i as int]));
            i += 1;
        }
        assert(wanted.take(i as int) =~= wanted);
        output::clamp_texts(&rows, self.show_line_chars)
    }

    fn rows_value(&self) -> (value: JsonValue)
        requires
            self.well_formed(),
        ensures
            value@ == self.rows_json(),
    {
        let shown = smaller(self.counts.directories.len(), self.show_dirs);
        let ghost wanted = self.rows_json()->Array_0;
        let mut items: Vec<JsonValue> = Vec::new();
        let mut i: usize = 0;
        assert(json::item_models(items@) =~= wanted.take(0));
        while i < shown
            invariant
                i <= shown <= self.counts.directories@.len(),
                self.well_formed(),
                shown == self.shown(),
                wanted == self.rows_json()->Array_0,
                json::item_models(items@) == wanted.take(i as int),
            decreases shown - i,
        {
            add_item(
                &mut items,
                dir_value(
                    self.counts.directories[i].as_str(),
                    self.counts.counts[i],
                    self.counts.capped,
                    self.show_line_chars,
                ),
            );
            assert(wanted.take(i + 1) =~= wanted.take(i as int).push(wanted[i as int]));
            i += 1;
        }
        assert(wanted.take(i as int) =~= wanted);
        json_array(items)
    }

    /// The receipt of the overview; `with_rows` puts the directories into it.
    pub fn receipt(&self, profile: Option<&str>, with_rows: bool) -> (receipt: Receipt)
        requires
            self.well_formed(),
        ensures
            receipt.model() == self.receipt_model(strings::opt_text(profile), with_rows),
            receipt.model().well_formed(),
    {
        let total = self.counts.directories.len();
        let shown = smaller(total, self.show_dirs);
        let (_, cut) = self.list_rows();
        let mut receipt = Receipt::new(
            "dirs",
            profile,
            ReceiptResult::new("dirs", total, false, shown),
        );
        receipt.add_cap_if(
            self.counts.capped,
            ReceiptCap::scope("candidate_files", Some(self.max_files_counted)),
        );
        receipt.add_cap_if(
            shown < total,
            ReceiptCap::output("dirs", Some(self.show_dirs), "--show-dirs"),
        );
        receipt.add_cap_if(
            cut,
            ReceiptCap::output("line_characters", Some(self.show_line_chars), "--show-line-chars"),
        );
        let mut members: Vec<(String, JsonValue)> = Vec::new();
        assert(json::member_models(members@) =~= Seq::empty());
        add_member(&mut members, "depth", json_count(self.depth));
        add_member(&mut members, "files_counted", json_count(self.counts.files_counted));
        add_member(
            &mut members,
            "file_counts_are_lower_bounds",
            JsonValue::Bool(self.counts.capped),
        );
        nested_repos_receipt_fields(&mut members, &self.nested_repos_entered);
        if with_rows {
            add_member(&mut members, "dirs", self.rows_value());
        }
        let ghost fields = json::member_models(members@);
        proof {
            assert(fields =~= self.fields(with_rows));
            lemma_dirs_fields();
            output::lemma_fresh_without(dirs_fields(), 5);
            if with_rows {
                assert(output::field_names(fields) =~= dirs_fields());
            } else {
                assert(output::field_names(fields) =~= dirs_fields().remove(5));
            }
        }
        receipt.insert_all(members);
        receipt
    }

    /// What is shown, line by line.
    pub open spec fn shown_lines(&self) -> Seq<Seq<char>> {
        seq!["[contextmink] dirs depth="@ + numbers::decimal(self.depth as nat)] + (if self.total()
            == 0 {
            seq!["no_files"@]
        } else {
            Seq::empty()
        }) + output::clamp_all(self.rows(), self.show_line_chars as nat) + (
        match files_report::nested_note(strings::texts(self.nested_repos_entered@)) {
            Some(note) => seq![note],
            None => Seq::empty(),
        }) + (if self.receipt_model(None, false).complete() {
            Seq::empty()
        } else {
            seq![
                "[contextmink] capped dirs output; narrow the path or lower --depth before treating this as complete."@,
            ]
        })
    }

    /// What is shown, line by line.
    pub fn lines(&self) -> (lines: Vec<String>)
        requires
            self.well_formed(),
        ensures
            strings::texts(lines@) == self.shown_lines(),
    {
        let mut lines: Vec<String> = Vec::new();
        assert(strings::texts(lines@) =~= Seq::empty());
        push_text(
            &mut lines,
            "[contextmink] dirs depth=".to_owned().concat(count_text(self.depth).as_str()),
        );
        if self.counts.directories.len() == 0 {
            push_text(&mut lines, "no_files".to_owned());
        }
        let (rows, _) = self.list_rows();
        push_all(&mut lines, &rows);
        if let Some(note) = write_nested_repos_note(&self.nested_repos_entered) {
            push_text(&mut lines, note);
        }
        let receipt = self.receipt(None, false);
        if !receipt.complete() {
            push_text(
                &mut lines,
                "[contextmink] capped dirs output; narrow the path or lower --depth before treating this as complete.".to_owned(),
            );
        }
        assert(strings::texts(lines@) =~= self.shown_lines());
        lines
    }
}

/// A directory holds no fewer of the counted files than a directory below it, which
/// has a name other than the parent's.
pub proof fn directories_hold_what_lies_below(
    outer: Seq<char>,
    inner: Seq<char>,
    found: Seq<files::Found>,
    max: nat,
    host: Host,
)
    requires
        lies_below(outer, inner),
        inner.len() > 0,
        inner != ".."@,
    ensures
        file_count(inner, found, max, host) <= file_count(outer, found, max, host),
{
    let keys = files::file_keys(counted(found, max, host));
    lemma_held_is_monotone(outer, inner, found, keys, host, found.len());
    let small = held_by(inner, found, keys, host, found.len());
    let large = held_by(outer, found, keys, host, found.len());
    vstd::set_lib::lemma_len_subset(small, large);
}

proof fn lemma_below_is_transitive(outer: Seq<char>, inner: Seq<char>, path: Seq<char>)
    requires
        lies_below(outer, inner),
        inner.len() > 0,
        inner != ".."@,
        lies_below(inner, path),
    ensures
        lies_below(outer, path),
{
    reveal_strlit(".");
    reveal_strlit("..");
    reveal_strlit("/");
    reveal_strlit("../");
    if inner == "."@ {
        if outer != "."@ {
            let short = outer + "/"@;
            assert(inner.subrange(0, short.len() as int)[short.len() - 1] == short[short.len() - 1]);
        }
    } else {
        let long = inner + "/"@;
        assert forall|i: int| 0 <= i < long.len() implies path[i] == long[i] by {
            assert(path.subrange(0, long.len() as int)[i] == long[i]);
        }
        if outer == "."@ {
            if "/"@.is_prefix_of(path) {
                assert(path.subrange(0, 1)[0] == '/');
                assert(inner.subrange(0, 1) =~= "/"@);
            }
            if "../"@.is_prefix_of(path) {
                assert(path.subrange(0, 3)[0] == '.');
                assert(path.subrange(0, 3)[1] == '.');
                assert(path.subrange(0, 3)[2] == '/');
                if inner.len() >= 3 {
                    assert(inner.subrange(0, 3) =~= "../"@);
                } else if inner.len() == 2 {
                    assert(inner =~= ".."@);
                }
            }
        } else {
            let short = outer + "/"@;
            assert forall|i: int| 0 <= i < short.len() implies path[i] == short[i] by {
                assert(inner.subrange(0, short.len() as int)[i] == short[i]);
            }
            assert(path.subrange(0, short.len() as int) =~= short);
        }
    }
}

proof fn lemma_held_is_monotone(
    outer: Seq<char>,
    inner: Seq<char>,
    found: Seq<files::Found>,
    keys: Set<u128>,
    host: Host,
    n: nat,
)
    requires
        lies_below(outer, inner),
        inner.len() > 0,
        inner != ".."@,
    ensures
        held_by(inner, found, keys, host, n).subset_of(held_by(outer, found, keys, host, n)),
        held_by(outer, found, keys, host, n).finite(),
    decreases n,
{
    if n > 0 && n <= found.len() {
        lemma_held_is_monotone(outer, inner, found, keys, host, (n - 1) as nat);
        let path = paths::trimmed_path(paths::normalized(found[n - 1].path, host));
        if lies_below(inner, path) {
            lemma_below_is_transitive(outer, inner, path);
        }
    }
}

pub open spec fn dirs_fields() -> Seq<Seq<char>> {
    seq![
        "depth"@,
        "files_counted"@,
        "file_counts_are_lower_bounds"@,
        "nested_repos_entered_total"@,
        "nested_repos_entered_sample"@,
        "dirs"@,
    ]
}

/// The field names can stand beside each other.
proof fn lemma_dirs_fields()
    ensures
        output::fresh_names(dirs_fields()),
{
    reveal_strlit("schema");
    reveal_strlit("tool");
    reveal_strlit("command");
    reveal_strlit("profile");
    reveal_strlit("duration_ms");
    reveal_strlit("scope_complete");
    reveal_strlit("output_truncated");
    reveal_strlit("complete");
    reveal_strlit("caps");
    reveal_strlit("result");
    reveal_strlit("output_cap_arguments");
    reveal_strlit("depth");
    reveal_strlit("files_counted");
    reveal_strlit("file_counts_are_lower_bounds");
    reveal_strlit("nested_repos_entered_total");
    reveal_strlit("nested_repos_entered_sample");
    reveal_strlit("dirs");
    assert("caps"@.len() == 4);
    assert("caps"@[0] == 'c');
    assert("command"@.len() == 7);
    assert("complete"@.len() == 8);
    assert("depth"@.len() == 5);
    assert("dirs"@.len() == 4);
    assert("dirs"@[0] == 'd');
    assert("duration_ms"@.len() == 11);
    assert("file_counts_are_lower_bounds"@.len() == 28);
    assert("files_counted"@.len() == 13);
    assert("nested_repos_entered_sample"@.len() == 27);
    assert("nested_repos_entered_total"@.len() == 26);
    assert("output_cap_arguments"@.len() == 20);
    assert("output_truncated"@.len() == 16);
    assert("profile"@.len() == 7);
    assert("result"@.len() == 6);
    assert("schema"@.len() == 6);
    assert("scope_complete"@.len() == 14);
    assert("tool"@.len() == 4);
    assert("tool"@[0] == 't');
}

/// A path lies below a directory if and only if it is the directory, a slash and
/// something more or nothing; directories whose names only begin alike hold nothing of
/// each other.
pub proof fn below_is_behind_the_slash(directory: Seq<char>, path: Seq<char>)
    requires
        directory != "."@,
    ensures
        lies_below(directory, path) <==> (exists|rest: Seq<char>|
            path == #[trigger] (directory + seq!['/'] + rest)),
        !lies_below(directory, directory),
{
    reveal_strlit("/");
    assert("/"@ =~= seq!['/']);
    let front = directory + "/"@;
    if lies_below(directory, path) {
        let rest = path.skip(front.len() as int);
        assert(path =~= directory + seq!['/'] + rest);
    }
    if exists|rest: Seq<char>| path == #[trigger] (directory + seq!['/'] + rest) {
        let rest = choose|rest: Seq<char>| path == #[trigger] (directory + seq!['/'] + rest);
        assert(front =~= path.take(front.len() as int));
    }
}

/// A counted file is counted for a directory if and only if one of its spellings lies
/// below it, and it is counted once however many do.
pub proof fn files_are_counted_once(
    directory: Seq<char>,
    found: Seq<files::Found>,
    counted: Set<u128>,
    host: Host,
    n: nat,
    key: u128,
)
    requires
        n <= found.len(),
    ensures
        held_by(directory, found, counted, host, n).contains(key) <==> counted.contains(key) && (
        exists|i: int|
            0 <= i < n && files::file_key(#[trigger] found[i]) as u128 == key && lies_below(
                directory,
                paths::trimmed_path(paths::normalized(found[i].path, host)),
            )),
        held_by(directory, found, counted, host, n).subset_of(counted),
    decreases n,
{
    if n > 0 {
        files_are_counted_once(directory, found, counted, host, (n - 1) as nat, key);
        let last = files::file_key(found[n - 1]) as u128;
        assert(files::file_key(found[n - 1]) as u128 == last);
    }
}

/// Below the current directory lies every path that neither starts at the root nor
/// leaves it.
pub proof fn the_current_directory_holds_relative_paths(path: Seq<char>)
    ensures
        path.len() > 0 && path[0] != '/' && path[0] != '.' ==> lies_below("."@, path),
        path.len() > 0 && path[0] == '/' ==> !lies_below("."@, path),
        path.len() >= 3 && path[0] == '.' && path[1] == '.' && path[2] == '/' ==> !lies_below(
            "."@,
            path,
        ),
{
    reveal_strlit("/");
    reveal_strlit("../");
    assert("/"@ =~= seq!['/']);
    assert("../"@ =~= seq!['.', '.', '/']);
    if "/"@.is_prefix_of(path) {
        assert(path[0] == "/"@[0]);
    }
    if "../"@.is_prefix_of(path) {
        assert(path[0] == "../"@[0]);
    }
    if path.len() > 0 && path[0] == '/' {
        assert("/"@ =~= path.take(1));
    }
    if path.len() >= 3 && path[0] == '.' && path[1] == '.' && path[2] == '/' {
        assert("../"@ =~= path.take(3));
    }
}

} // verus!
