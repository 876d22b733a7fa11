//! A personal installation: what of a home belongs to it, and what installing and
//! removing it would do. It never touches projects or the settings of a harness.
use vstd::prelude::*;

use crate::json;
use crate::json::{
    add_item, add_member, json_array, json_object, json_text, json_texts, pretty_object,
    read_document, Json, JsonValue,
};
use crate::json_select::has_text;
use crate::paths;
use crate::paths::{components_of, to_slashes, Host};
use crate::project_files::same_bytes;
use crate::project_receipt;
use crate::strings;
use crate::strings::{
    contains, debug_text, push_all, push_text, replace_text, same_text,
};
use crate::versions;
use crate::versions::{is_newer, VERSION};

verus! {

pub const USER_RECEIPT_SCHEMA: &'static str = "contextmink.user_install.v2";

/// The schema of the release before, which is read as the current one.
pub const PREVIOUS_USER_RECEIPT_SCHEMA: &'static str = "contextmink.user_install.v1";

/// What stands in a skill for the command that is installed.
pub const COMMAND_MARK: &'static str = "<!-- installed-command -->";

/// Where a personal installation keeps its files, below the home.
pub fn personal_root() -> (path: &'static str)
    ensures
        path@ == ".local/share/contextmink"@,
{
    ".local/share/contextmink"
}

pub open spec fn binary(windows: bool) -> Seq<char> {
    if windows {
        ".local/share/contextmink/bin/contextmink.exe"@
    } else {
        ".local/share/contextmink/bin/contextmink"@
    }
}

pub fn binary_path(windows: bool) -> (path: &'static str)
    ensures
        path@ == binary(windows),
{
    if windows {
        ".local/share/contextmink/bin/contextmink.exe"
    } else {
        ".local/share/contextmink/bin/contextmink"
    }
}

pub fn bridge_path() -> (path: &'static str)
    ensures
        path@ == ".local/share/contextmink/bin/contextmink-bridge.exe"@,
{
    ".local/share/contextmink/bin/contextmink-bridge.exe"
}

/// The executables of an installation.
pub open spec fn runtimes(windows: bool) -> Seq<Seq<char>> {
    if windows {
        seq![binary(windows), ".local/share/contextmink/bin/contextmink-bridge.exe"@]
    } else {
        seq![binary(windows)]
    }
}

pub fn runtime_paths(windows: bool) -> (list: Vec<String>)
    ensures
        strings::texts(list@) == runtimes(windows),
{
    let mut list: Vec<String> = Vec::new();
    assert(strings::texts(list@) =~= Seq::empty());
    push_text(&mut list, binary_path(windows).to_owned());
    if windows {
        push_text(&mut list, bridge_path().to_owned());
    }
    assert(strings::texts(list@) =~= runtimes(windows));
    list
}

/// The skills and the reference of an installation; `harness` is the name of the
/// harness that has skills of its own.
pub open spec fn texts(windows: bool, harness: Seq<char>) -> Seq<Seq<char>> {
    seq![
        ".local/share/contextmink/agent_integration.md"@,
        ".agents/skills/contextmink/SKILL.md"@,
        "."@ + harness + "/skills/contextmink/SKILL.md"@,
    ] + (if windows {
        seq![
            ".agents/skills/contextmink-bridge/SKILL.md"@,
            "."@ + harness + "/skills/contextmink-bridge/SKILL.md"@,
        ]
    } else {
        Seq::empty()
    })
}

fn own_skill(harness: &str) -> (path: String)
    ensures
        path@ == "."@ + harness@ + "/skills/contextmink/SKILL.md"@,
{
    ".".to_owned().concat(harness).concat("/skills/contextmink/SKILL.md")
}

fn own_bridge_skill(harness: &str) -> (path: String)
    ensures
        path@ == "."@ + harness@ + "/skills/contextmink-bridge/SKILL.md"@,
{
    ".".to_owned().concat(harness).concat("/skills/contextmink-bridge/SKILL.md")
}

pub fn text_paths(windows: bool, harness: &str) -> (list: Vec<String>)
    ensures
        strings::texts(list@) == texts(windows, harness@),
{
    let mut list: Vec<String> = Vec::new();
    assert(strings::texts(list@) =~= Seq::empty());
    push_text(&mut list, ".local/share/contextmink/agent_integration.md".to_owned());
    push_text(&mut list, ".agents/skills/contextmink/SKILL.md".to_owned());
    push_text(&mut list, own_skill(harness));
    if windows {
        push_text(&mut list, ".agents/skills/contextmink-bridge/SKILL.md".to_owned());
        push_text(&mut list, own_bridge_skill(harness));
    }
    assert(strings::texts(list@) =~= texts(windows, harness@));
    list
}

/// All paths of an installation, the executables first.
pub open spec fn all_owned(windows: bool, harness: Seq<char>) -> Seq<Seq<char>> {
    runtimes(windows) + texts(windows, harness)
}

/// All paths of an installation, the executables first.
pub fn owned_paths(windows: bool, harness: &str) -> (list: Vec<String>)
    ensures
        strings::texts(list@) == all_owned(windows, harness@),
{
    let mut list = runtime_paths(windows);
    push_all(&mut list, &text_paths(windows, harness));
    list
}

/// What of a home belongs to an installation. It records no digests: the paths are
/// owned whatever is at them.
#[derive(Debug)]
pub struct UserReceipt {
    pub version: String,
    pub home: String,
    pub installed: bool,
    pub runtime_files: Vec<String>,
    pub text_files: Vec<String>,
}

/// The model of a receipt.
#[verifier::ext_equal]
pub struct Personal {
    pub version: Seq<char>,
    pub home: Seq<char>,
    pub installed: bool,
    pub runtime_files: Seq<Seq<char>>,
    pub text_files: Seq<Seq<char>>,
}

impl View for UserReceipt {
    type V = Personal;

    open spec fn view(&self) -> Personal {
        Personal {
            version: self.version@,
            home: self.home@,
            installed: self.installed,
            runtime_files: strings::texts(self.runtime_files@),
            text_files: strings::texts(self.text_files@),
        }
    }
}

/// Whether the lists hold the same texts, each once.
pub open spec fn same_paths(paths: Seq<Seq<char>>, wanted: Seq<Seq<char>>) -> bool {
    &&& paths.len() == wanted.len()
    &&& forall|i: int| 0 <= i < wanted.len() ==> paths.contains(#[trigger] wanted[i])
}

impl Personal {
    /// Every path that belongs to the installation, executables first.
    pub open spec fn owned(self) -> Seq<Seq<char>> {
        self.runtime_files + self.text_files
    }

    /// The paths are those of this release on this host.
    pub open spec fn owns_current(self, windows: bool, harness: Seq<char>) -> bool {
        same_paths(self.runtime_files, runtimes(windows)) && same_paths(
            self.text_files,
            texts(windows, harness),
        )
    }

    /// The receipt is one for the home, and its paths are those of an installation,
    /// or none once it is removed.
    pub open spec fn fits(self, home: Seq<char>, windows: bool, harness: Seq<char>) -> bool {
        &&& self.home == home
        &&& self.installed ==> self.owns_current(windows, harness)
        &&& !self.installed ==> self.owned().len() == 0
    }
}

fn paths_agree(list: &[String], wanted: &[String]) -> (held: bool)
    ensures
        held == same_paths(strings::texts(list@), strings::texts(wanted@)),
{
    let ghost given = strings::texts(list@);
    let ghost models = strings::texts(wanted@);
    assert(models.len() == wanted@.len());
    assert(given.len() == list@.len());
    if list.len() != wanted.len() {
        return false;
    }
    let mut i: usize = 0;
    while i < wanted.len()
        invariant
            i <= wanted.len(),
            given == strings::texts(list@),
            models == strings::texts(wanted@),
            forall|k: int| 0 <= k < i ==> given.contains(#[trigger] models[k]),
        decreases wanted.len() - i,
    {
        assert(models[i as int] == wanted@[i as int]@);
        if !has_text(list, wanted[i].as_str()) {
            assert(!given.contains(models[i as int]));
            return false;
        }
        i += 1;
    }
    true
}

impl UserReceipt {
    /// Every path that belongs to the installation, executables first.
    pub fn owned_files(&self) -> (list: Vec<String>)
        ensures
            strings::texts(list@) == self@.owned(),
    {
        let mut list: Vec<String> = Vec::new();
        assert(strings::texts(list@) =~= Seq::empty());
        push_all(&mut list, &self.runtime_files);
        push_all(&mut list, &self.text_files);
        assert(strings::texts(list@) =~= self@.owned());
        list
    }

    /// The paths are those of this release on this host.
    pub fn owns_current_paths(&self, windows: bool, harness: &str) -> (held: bool)
        ensures
            held == self@.owns_current(windows, harness@),
    {
        paths_agree(&self.runtime_files, &runtime_paths(windows)) && paths_agree(
            &self.text_files,
            &text_paths(windows, harness),
        )
    }
}

/// Why an installation or a removal is refused.
#[derive(Debug)]
pub enum UserFault {
    /// The receipt is none.
    InvalidReceipt,
    UnknownSchema { schema: String },
    /// The receipt is one for another home, or names other paths.
    ForeignReceipt,
    /// The version in the receipt is none.
    InvalidVersion { version: String },
    NewerInstallation { version: String },
    NothingOwned { path: String },
    /// The installed executable is the one that is running.
    RunningInstalled { path: String },
    /// A skill of the release has no place for the command.
    NoBinding { bridge: bool },
    /// The receipt does not name this release and this home.
    ForeignInstallation,
}

/// The model of why an installation is refused.
pub enum Fault {
    InvalidReceipt,
    UnknownSchema(Seq<char>),
    ForeignReceipt,
    InvalidVersion(Seq<char>),
    NewerInstallation(Seq<char>),
    NothingOwned(Seq<char>),
    RunningInstalled(Seq<char>),
    NoBinding(bool),
    ForeignInstallation,
}

impl View for UserFault {
    type V = Fault;

    open spec fn view(&self) -> Fault {
        match self {
            UserFault::InvalidReceipt => Fault::InvalidReceipt,
            UserFault::UnknownSchema { schema } => Fault::UnknownSchema(schema@),
            UserFault::ForeignReceipt => Fault::ForeignReceipt,
            UserFault::InvalidVersion { version } => Fault::InvalidVersion(version@),
            UserFault::NewerInstallation { version } => Fault::NewerInstallation(version@),
            UserFault::NothingOwned { path } => Fault::NothingOwned(path@),
            UserFault::RunningInstalled { path } => Fault::RunningInstalled(path@),
            UserFault::NoBinding { bridge } => Fault::NoBinding(*bridge),
            UserFault::ForeignInstallation => Fault::ForeignInstallation,
        }
    }
}

impl Fault {
    pub open spec fn text(self) -> Seq<char> {
        match self {
            Fault::InvalidReceipt =>
                "invalid user-install.json; restore its verified backup or move it aside, then rerun setup-user from a verified release"@,
            Fault::UnknownSchema(schema) => "unsupported personal receipt schema "@
                + strings::debug_quoted(schema)
                + "; move user-install.json aside, then rerun setup-user from a verified release to reinstall"@,
            Fault::ForeignReceipt =>
                "personal receipt identity or paths are invalid; restore user-install.json for this home, or move it aside and rerun setup-user to reinstall"@,
            Fault::InvalidVersion(version) => "personal receipt version "@ + strings::debug_quoted(
                version,
            ) + " is not a release version"@,
            Fault::NewerInstallation(version) =>
                "personal installation is newer; run setup-user with version "@ + version
                + " or newer"@,
            Fault::NothingOwned(path) => "no personal receipt at "@ + path
                + "; nothing is owned for uninstall-user"@,
            Fault::RunningInstalled(path) =>
                "run setup-user/uninstall-user from an external release binary, outside "@ + path,
            Fault::NoBinding(bridge) => if bridge {
                "release bridge skill has no command binding; use a complete verified Windows release"@
            } else {
                "release skill has no command binding; use a complete verified release"@
            },
            Fault::ForeignInstallation =>
                "personal installation identity differs; run contextmink setup-user from a verified external release"@,
        }
    }
}

impl UserFault {
    pub fn message(&self) -> (message: String)
        ensures
            message@ == self@.text(),
    {
        match self {
            UserFault::InvalidReceipt =>
                "invalid user-install.json; restore its verified backup or move it aside, then rerun setup-user from a verified release".to_owned(),
            UserFault::UnknownSchema { schema } =>
                "unsupported personal receipt schema ".to_owned().concat(
                debug_text(schema.as_str()).as_str(),
            ).concat(
                "; move user-install.json aside, then rerun setup-user from a verified release to reinstall",
            ),
            UserFault::ForeignReceipt =>
                "personal receipt identity or paths are invalid; restore user-install.json for this home, or move it aside and rerun setup-user to reinstall".to_owned(),
            UserFault::InvalidVersion { version } => "personal receipt version ".to_owned().concat(
                debug_text(version.as_str()).as_str(),
            ).concat(" is not a release version"),
            UserFault::NewerInstallation { version } =>
                "personal installation is newer; run setup-user with version ".to_owned().concat(
                version.as_str(),
            ).concat(" or newer"),
            UserFault::NothingOwned { path } => "no personal receipt at ".to_owned().concat(
                path.as_str(),
            ).concat("; nothing is owned for uninstall-user"),
            UserFault::RunningInstalled { path } =>
                "run setup-user/uninstall-user from an external release binary, outside ".to_owned().concat(
                path.as_str(),
            ),
            UserFault::NoBinding { bridge } => if *bridge {
                "release bridge skill has no command binding; use a complete verified Windows release".to_owned()
            } else {
                "release skill has no command binding; use a complete verified release".to_owned()
            },
            UserFault::ForeignInstallation =>
                "personal installation identity differs; run contextmink setup-user from a verified external release".to_owned(),
        }
    }
}

/// The members of a receipt.
pub open spec fn receipt_members(receipt: Personal) -> Seq<(Seq<char>, Json)> {
    seq![
        ("schema"@, Json::Text(USER_RECEIPT_SCHEMA@)),
        ("version"@, Json::Text(receipt.version)),
        ("home"@, Json::Text(receipt.home)),
        ("installed"@, Json::Bool(receipt.installed)),
        ("runtime_files"@, json::text_array(receipt.runtime_files)),
        ("text_files"@, json::text_array(receipt.text_files)),
    ]
}

/// A receipt as it is written.
pub open spec fn receipt_text(receipt: Personal) -> Seq<char> {
    json::pretty(receipt_members(receipt))
}

/// A receipt as it is written.
pub fn receipt_bytes(receipt: &UserReceipt) -> (text: String)
    ensures
        text@ == receipt_text(receipt@),
{
    let mut members: Vec<(String, JsonValue)> = Vec::new();
    assert(json::member_models(members@) =~= Seq::empty());
    add_member(&mut members, "schema", json_text(USER_RECEIPT_SCHEMA));
    add_member(&mut members, "version", json_text(receipt.version.as_str()));
    add_member(&mut members, "home", json_text(receipt.home.as_str()));
    add_member(&mut members, "installed", JsonValue::Bool(receipt.installed));
    add_member(&mut members, "runtime_files", json_texts(&receipt.runtime_files));
    add_member(&mut members, "text_files", json_texts(&receipt.text_files));
    assert(json::member_models(members@) =~= receipt_members(receipt@));
    pretty_object(&members)
}

proof fn lemma_keys_differ(receipt: Personal)
    ensures
        json::is_flat(receipt_members(receipt)),
{
    let members = receipt_members(receipt);
    reveal_strlit("schema");
    reveal_strlit("version");
    reveal_strlit("home");
    reveal_strlit("installed");
    reveal_strlit("runtime_files");
    reveal_strlit("text_files");
    assert(members[0].0.len() == 6);
    assert(members[1].0.len() == 7);
    assert(members[2].0.len() == 4);
    assert(members[3].0.len() == 9);
    assert(members[4].0.len() == 13);
    assert(members[5].0.len() == 10);
    assert(members[0].0[0] == 's');
    assert(members[1].0[0] == 'v');
    assert(members[2].0[0] == 'h');
    assert(members[3].0[0] == 'i');
    assert(members[4].0[0] == 'r');
    assert(members[5].0[0] == 't');
}

proof fn lemma_texts_in(list: Seq<Seq<char>>, n: nat)
    requires
        n <= list.len(),
    ensures
        texts_in(json::text_array(list)->Array_0, n) == Some(list.take(n as int)),
    decreases n,
{
    if n > 0 {
        lemma_texts_in(list, (n - 1) as nat);
        assert(list.take(n as int) =~= list.take(n - 1).push(list[n - 1]));
    } else {
        assert(list.take(0) =~= Seq::empty());
    }
}

/// A receipt is read from an object that has its members and no others.
proof fn lemma_members_are_read(
    receipt: Personal,
    windows: bool,
    found: Seq<(Seq<char>, Json)>,
)
    requires
        json::reads_as(receipt_members(receipt), found),
    ensures
        receipt_of(Json::Object(found), windows) == Ok::<Personal, Fault>(receipt),
{
    let members = receipt_members(receipt);
    assert(json::member_of(found, members[0].0) == Some(members[0].1));
    assert(json::member_of(found, members[1].0) == Some(members[1].1));
    assert(json::member_of(found, members[2].0) == Some(members[2].1));
    assert(json::member_of(found, members[3].0) == Some(members[3].1));
    assert(json::member_of(found, members[4].0) == Some(members[4].1));
    assert(json::member_of(found, members[5].0) == Some(members[5].1));
    lemma_texts_in(receipt.runtime_files, receipt.runtime_files.len());
    lemma_texts_in(receipt.text_files, receipt.text_files.len());
    assert(receipt.runtime_files.take(receipt.runtime_files.len() as int)
        =~= receipt.runtime_files);
    assert(receipt.text_files.take(receipt.text_files.len() as int) =~= receipt.text_files);
    assert forall|j: int| 0 <= j < found.len() implies is_key((#[trigger] found[j]).0, true) by {
        assert(members.contains(found[j]));
        let i = members.index_of(found[j]);
        assert(members[i] == found[j]);
    }
    assert(knows_every_key(Json::Object(found), true));
}

/// The texts of a list, if it is one of texts.
pub open spec fn texts_in(items: Seq<Json>, n: nat) -> Option<Seq<Seq<char>>>
    decreases n,
{
    if n == 0 || n > items.len() {
        Some(Seq::empty())
    } else {
        match (texts_in(items, (n - 1) as nat), items[n - 1]) {
            (Some(before), Json::Text(text)) => Some(before.push(text)),
            _ => None,
        }
    }
}

/// The keys of a table of texts, if it is one: the executables of an installation,
/// and the others.
pub open spec fn keys_in(members: Seq<(Seq<char>, Json)>, n: nat, windows: bool) -> Option<
    (Seq<Seq<char>>, Seq<Seq<char>>),
>
    decreases n,
{
    if n == 0 || n > members.len() {
        Some((Seq::empty(), Seq::empty()))
    } else {
        match (keys_in(members, (n - 1) as nat, windows), members[n - 1]) {
            (Some((runtime, text)), (key, Json::Text(_))) => if runtimes(windows).contains(key) {
                Some((runtime.push(key), text))
            } else {
                Some((runtime, text.push(key)))
            },
            _ => None,
        }
    }
}

pub open spec fn texts_at(value: Json, key: Seq<char>) -> Option<Seq<Seq<char>>> {
    match value {
        Json::Object(members) => match json::member_of(members, key) {
            Some(Json::Array(items)) => texts_in(items, items.len()),
            _ => None,
        },
        _ => None,
    }
}

/// The paths in a receipt; the release before kept one table of them, with a digest
/// for each.
pub open spec fn paths_in(value: Json, current: bool, windows: bool) -> Option<
    (Seq<Seq<char>>, Seq<Seq<char>>),
> {
    if current {
        match (texts_at(value, "runtime_files"@), texts_at(value, "text_files"@)) {
            (Some(runtime), Some(text)) => Some((runtime, text)),
            _ => None,
        }
    } else {
        match value {
            Json::Object(members) => match json::member_of(members, "files"@) {
                Some(Json::Object(files)) => keys_in(files, files.len(), windows),
                _ => None,
            },
            _ => None,
        }
    }
}

pub open spec fn is_key(key: Seq<char>, current: bool) -> bool {
    key == "schema"@ || key == "version"@ || key == "home"@ || key == "installed"@ || (if current {
        key == "runtime_files"@ || key == "text_files"@
    } else {
        key == "files"@
    })
}

pub open spec fn knows_every_key(value: Json, current: bool) -> bool {
    match value {
        Json::Object(members) => forall|i: int|
            0 <= i < members.len() ==> is_key((#[trigger] members[i]).0, current),
        _ => false,
    }
}

/// The receipt that a value is.
pub open spec fn receipt_in(value: Json, current: bool, windows: bool) -> Option<Personal> {
    match (
        project_receipt::text_member(value, "version"@),
        project_receipt::text_member(value, "home"@),
        project_receipt::bool_member(value, "installed"@),
        paths_in(value, current, windows),
    ) {
        (Some(version), Some(home), Some(installed), Some((runtime_files, text_files))) => if knows_every_key(
            value,
            current,
        ) {
            Some(Personal { version, home, installed, runtime_files, text_files })
        } else {
            None
        },
        _ => None,
    }
}

/// The schema that a value names, or none.
pub open spec fn schema_of(value: Json) -> Seq<char> {
    match project_receipt::text_member(value, "schema"@) {
        Some(schema) => schema,
        None => Seq::empty(),
    }
}

/// The receipt that a value is, or why it is none.
pub open spec fn receipt_of(value: Json, windows: bool) -> Result<Personal, Fault> {
    let schema = schema_of(value);
    let current = schema == USER_RECEIPT_SCHEMA@;
    if !current && schema != PREVIOUS_USER_RECEIPT_SCHEMA@ {
        Err(Fault::UnknownSchema(schema))
    } else {
        match receipt_in(value, current, windows) {
            Some(receipt) => Ok(receipt),
            None => Err(Fault::InvalidReceipt),
        }
    }
}

pub open spec fn read_receipt(bytes: Seq<u8>, windows: bool) -> Result<Personal, Fault> {
    match json::json_read(bytes) {
        Ok(value) => receipt_of(value, windows),
        Err(_) => Err(Fault::InvalidReceipt),
    }
}

fn read_texts(items: &Vec<JsonValue>) -> (list: Option<Vec<String>>)
    ensures
        match list {
            Some(list) => texts_in(json::item_models(items@), items@.len()) == Some(
                strings::texts(list@),
            ),
            None => texts_in(json::item_models(items@), items@.len()) is None,
        },
{
    let ghost models = json::item_models(items@);
    let mut list: Vec<String> = Vec::new();
    let mut i: usize = 0;
    assert(strings::texts(list@) =~= Seq::empty());
    while i < items.len()
        invariant
            i <= items.len(),
            models == json::item_models(items@),
            models.len() == items@.len(),
            texts_in(models, i as nat) == Some(strings::texts(list@)),
        decreases items.len() - i,
    {
        assert(models[i as int] == items@[i as int]@);
        match items[i].as_text() {
            Some(text) => {
                push_text(&mut list, text);
            },
            None => {
                assert(texts_in(models, (i + 1) as nat) is None);
                proof {
                    lemma_no_texts(models, (i + 1) as nat, models.len());
                }
                return None;
            },
        }
        i += 1;
    }
    Some(list)
}

proof fn lemma_no_texts(items: Seq<Json>, n: nat, m: nat)
    requires
        n <= m <= items.len(),
        texts_in(items, n) is None,
    ensures
        texts_in(items, m) is None,
    decreases m - n,
{
    if n < m {
        lemma_no_texts(items, n, (m - 1) as nat);
    }
}

proof fn lemma_no_keys(members: Seq<(Seq<char>, Json)>, n: nat, m: nat, windows: bool)
    requires
        n <= m <= members.len(),
        keys_in(members, n, windows) is None,
    ensures
        keys_in(members, m, windows) is None,
    decreases m - n,
{
    if n < m {
        lemma_no_keys(members, n, (m - 1) as nat, windows);
    }
}

fn read_keys(members: &Vec<(String, JsonValue)>, windows: bool) -> (lists: Option<
    (Vec<String>, Vec<String>),
>)
    ensures
        match lists {
            Some((runtime, text)) => keys_in(
                json::member_models(members@),
                members@.len(),
                windows,
            ) == Some((strings::texts(runtime@), strings::texts(text@))),
            None => keys_in(json::member_models(members@), members@.len(), windows) is None,
        },
{
    let ghost models = json::member_models(members@);
    let known = runtime_paths(windows);
    let mut runtime: Vec<String> = Vec::new();
    let mut text: Vec<String> = Vec::new();
    let mut i: usize = 0;
    assert(strings::texts(runtime@) =~= Seq::empty());
    assert(strings::texts(text@) =~= Seq::empty());
    while i < members.len()
        invariant
            i <= members.len(),
            models == json::member_models(members@),
            models.len() == members@.len(),
            strings::texts(known@) == runtimes(windows),
            keys_in(models, i as nat, windows) == Some(
                (strings::texts(runtime@), strings::texts(text@)),
            ),
        decreases members.len() - i,
    {
        assert(models[i as int] == (members@[i as int].0@, members@[i as int].1@));
        match members[i].1.as_text() {
            Some(_) => {
                if has_text(&known, members[i].0.as_str()) {
                    push_text(&mut runtime, members[i].0.clone());
                } else {
                    push_text(&mut text, members[i].0.clone());
                }
            },
            None => {
                assert(keys_in(models, (i + 1) as nat, windows) is None);
                proof {
                    lemma_no_keys(models, (i + 1) as nat, models.len(), windows);
                }
                return None;
            },
        }
        i += 1;
    }
    Some((runtime, text))
}

fn read_texts_at(value: &JsonValue, key: &str) -> (list: Option<Vec<String>>)
    ensures
        match list {
            Some(list) => texts_at(value@, key@) == Some(strings::texts(list@)),
            None => texts_at(value@, key@) is None,
        },
{
    match value.get(key) {
        Some(JsonValue::Array(items)) => {
            proof {
                json::lemma_array_view(*items);
                assert(json::item_models(items@).len() == items@.len());
            }
            read_texts(items)
        },
        _ => None,
    }
}

fn read_paths(value: &JsonValue, current: bool, windows: bool) -> (lists: Option<
    (Vec<String>, Vec<String>),
>)
    ensures
        match lists {
            Some((runtime, text)) => paths_in(value@, current, windows) == Some(
                (strings::texts(runtime@), strings::texts(text@)),
            ),
            None => paths_in(value@, current, windows) is None,
        },
{
    if current {
        match (read_texts_at(value, "runtime_files"), read_texts_at(value, "text_files")) {
            (Some(runtime), Some(text)) => Some((runtime, text)),
            _ => None,
        }
    } else {
        match value.get("files") {
            Some(JsonValue::Object(files)) => {
                proof {
                    json::lemma_object_view(*files);
                    assert(json::member_models(files@).len() == files@.len());
                }
                read_keys(files, windows)
            },
            _ => None,
        }
    }
}

fn keys_are_known(value: &JsonValue, current: bool) -> (held: bool)
    ensures
        held == knows_every_key(value@, current),
{
    match value {
        JsonValue::Object(members) => {
            proof {
                json::lemma_object_view(*members);
            }
            let ghost models = json::member_models(members@);
            let mut i: usize = 0;
            while i < members.len()
                invariant
                    i <= members.len(),
                    models == json::member_models(members@),
                    models.len() == members@.len(),
                    value@ == Json::Object(models),
                    forall|k: int| 0 <= k < i ==> is_key((#[trigger] models[k]).0, current),
                decreases members.len() - i,
            {
                assert(models[i as int].0 == members@[i as int].0@);
                let key = members[i].0.as_str();
                let own = if current {
                    same_text(key, "runtime_files") || same_text(key, "text_files")
                } else {
                    same_text(key, "files")
                };
                let known = same_text(key, "schema") || same_text(key, "version") || same_text(
                    key,
                    "home",
                ) || same_text(key, "installed") || own;
                if !known {
                    let ghost all = value@->Object_0;
                    assert(!is_key(all[i as int].0, current));
                    return false;
                }
                i += 1;
            }
            true
        },
        _ => false,
    }
}

/// The receipt that a value is, or why it is none.
pub fn user_receipt_of(value: &JsonValue, windows: bool) -> (receipt: Result<
    UserReceipt,
    UserFault,
>)
    ensures
        match receipt {
            Ok(receipt) => receipt_of(value@, windows) == Ok::<Personal, Fault>(receipt@),
            Err(fault) => receipt_of(value@, windows) == Err::<Personal, Fault>(fault@),
        },
{
    let schema = match project_receipt::text_at(value, "schema") {
        Some(schema) => schema,
        None => {
            let empty = String::new();
            assert(empty@ =~= Seq::empty());
            empty
        },
    };
    let current = same_text(schema.as_str(), USER_RECEIPT_SCHEMA);
    if !current && !same_text(schema.as_str(), PREVIOUS_USER_RECEIPT_SCHEMA) {
        return Err(UserFault::UnknownSchema { schema });
    }
    let version = project_receipt::text_at(value, "version");
    let home = project_receipt::text_at(value, "home");
    let installed = project_receipt::bool_at(value, "installed");
    let paths = read_paths(value, current, windows);
    match (version, home, installed, paths) {
        (Some(version), Some(home), Some(installed), Some((runtime_files, text_files))) => {
            if keys_are_known(value, current) {
                Ok(UserReceipt { version, home, installed, runtime_files, text_files })
            } else {
                Err(UserFault::InvalidReceipt)
            }
        },
        _ => Err(UserFault::InvalidReceipt),
    }
}

/// The receipt that bytes are, or why they are none.
pub fn parse_receipt(bytes: &[u8], windows: bool) -> (receipt: Result<UserReceipt, UserFault>)
    ensures
        match receipt {
            Ok(receipt) => read_receipt(bytes@, windows) == Ok::<Personal, Fault>(receipt@),
            Err(fault) => read_receipt(bytes@, windows) == Err::<Personal, Fault>(fault@),
        },
        // What is written as a receipt is read as that receipt.
        forall|written: Personal|
            bytes@ == vstd::utf8::encode_utf8(#[trigger] receipt_text(written)) ==> (
            receipt matches Ok(read) && read@ == written),
{
    let document = read_document(bytes);
    proof {
        assert forall|written: Personal|
            bytes@ == vstd::utf8::encode_utf8(
                #[trigger] receipt_text(written),
            ) implies read_receipt(bytes@, windows) == Ok::<Personal, Fault>(written) by {
            lemma_keys_differ(written);
            assert(json::pretty(receipt_members(written)) == receipt_text(written));
            let value = document->Ok_0@;
            lemma_members_are_read(written, windows, value->Object_0);
        }
    }
    match document {
        Ok(value) => user_receipt_of(&value, windows),
        Err(_) => Err(UserFault::InvalidReceipt),
    }
}

/// The home of a personal installation that an executable lies in:
/// `<home>/.local/share/contextmink/<directory>/<executable>`.
pub open spec fn home_of(exe: Seq<char>, host: Host) -> Option<Seq<Seq<char>>> {
    let list = paths::components(exe, host);
    let n = list.len() as int;
    if n >= 5 && list[n - 3] == "contextmink"@ && list[n - 4] == "share"@ && list[n - 5]
        == ".local"@ {
        Some(list.take(n - 5))
    } else {
        None
    }
}

/// The components of the home of the personal installation that an executable lies
/// in, if it lies in one.
pub fn personal_home(exe: &str, host: Host) -> (home: Option<Vec<String>>)
    ensures
        match home {
            Some(home) => home_of(exe@, host) == Some(strings::texts(home@)),
            None => home_of(exe@, host) is None,
        },
{
    let list = components_of(exe, host);
    let ghost all = strings::texts(list@);
    assert(all.len() == list@.len());
    let n: usize = list.len();
    if n < 5 {
        return None;
    }
    assert(all[n - 3] == list@[n - 3]@);
    assert(all[n - 4] == list@[n - 4]@);
    assert(all[n - 5] == list@[n - 5]@);
    if !same_text(list[n - 3].as_str(), "contextmink") || !same_text(list[n - 4].as_str(), "share")
        || !same_text(list[n - 5].as_str(), ".local") {
        return None;
    }
    let mut home: Vec<String> = Vec::new();
    let mut i: usize = 0;
    assert(strings::texts(home@) =~= all.take(0));
    while i < n - 5
        invariant
            i <= n - 5,
            n == list@.len(),
            n >= 5,
            all == strings::texts(list@),
            strings::texts(home@) == all.take(i as int),
        decreases n - i,
    {
        assert(all[i as int] == list@[i as int]@);
        push_text(&mut home, list[i].clone());
        assert(all.take(i + 1) =~= all.take(i as int).push(all[i as int]));
        i += 1;
    }
    Some(home)
}

/// Refuses to run from an installation whose receipt is not one of this release, for
/// this home; `same_home` says whether the receipt's home is where the executable is.
pub fn check_installation(
    receipt: &UserReceipt,
    same_home: bool,
    windows: bool,
    harness: &str,
) -> (verdict: Result<(), UserFault>)
    ensures
        match verdict {
            Ok(_) => receipt@.installed && receipt@.version == VERSION@ && same_home
                && receipt@.owns_current(windows, harness@),
            Err(fault) => fault@ == Fault::ForeignInstallation && !(receipt@.installed
                && receipt@.version == VERSION@ && same_home && receipt@.owns_current(windows, harness@)),
        },
{
    if receipt.installed && same_text(receipt.version.as_str(), VERSION) && same_home
        && receipt.owns_current_paths(windows, harness) {
        Ok(())
    } else {
        Err(UserFault::ForeignInstallation)
    }
}

/// What the release holds for the files that a personal installation writes.
#[derive(Debug)]
pub struct UserPayloads {
    pub binary: Vec<u8>,
    pub bridge: Vec<u8>,
    pub reference: Vec<u8>,
    pub skill: String,
    pub bridge_skill: String,
}

pub open spec fn binding(home: Seq<char>, windows: bool) -> Seq<char> {
    "Personal executable: `"@ + paths::slashes(home + "/"@ + binary(windows))
        + "`. Prefer a project-pinned runtime when one exists.\n"@
}

/// What a skill says of the command that is installed.
pub fn installed_binding(home: &str, windows: bool) -> (text: String)
    ensures
        text@ == binding(home@, windows),
{
    "Personal executable: `".to_owned().concat(
        to_slashes(home.to_owned().concat("/").concat(binary_path(windows)).as_str()).as_str(),
    ).concat("`. Prefer a project-pinned runtime when one exists.\n")
}

pub open spec fn bridge_binding(home: Seq<char>) -> Seq<char> {
    "Personal bridge: `"@ + paths::slashes(
        home + "/"@ + ".local/share/contextmink/bin/contextmink-bridge.exe"@,
    )
        + "`. Use an explicitly selected project bridge when the project pins its own runtime."@
}

/// The skill that is installed: it names the command and the reference in the home.
pub open spec fn bound_skill(skill: Seq<char>, home: Seq<char>, windows: bool) -> Seq<char> {
    strings::replaced(
        strings::replaced(
            strings::replaced(skill, "\r\n"@, "\n"@),
            COMMAND_MARK@,
            binding(home, windows),
        ),
        "../../../tools/contextmink/agent_integration.md"@,
        paths::slashes(home + "/"@ + ".local/share/contextmink/agent_integration.md"@),
    )
}

pub open spec fn bound_bridge_skill(skill: Seq<char>, home: Seq<char>) -> Seq<char> {
    strings::replaced(
        strings::replaced(skill, "\r\n"@, "\n"@),
        COMMAND_MARK@,
        bridge_binding(home),
    )
}

proof fn lemma_needles()
    ensures
        "\r\n"@.len() > 0,
        COMMAND_MARK@.len() > 0,
        "../../../tools/contextmink/agent_integration.md"@.len() > 0,
{
    reveal_strlit("\r\n");
    reveal_strlit("<!-- installed-command -->");
    reveal_strlit("../../../tools/contextmink/agent_integration.md");
    assert(COMMAND_MARK@ == "<!-- installed-command -->"@);
}

fn bind_skill(skill: &str, home: &str, windows: bool) -> (text: String)
    ensures
        text@ == bound_skill(skill@, home@, windows),
{
    proof {
        lemma_needles();
    }
    let plain = replace_text(skill, "\r\n", "\n");
    let bound = replace_text(
        plain.as_str(),
        COMMAND_MARK,
        installed_binding(home, windows).as_str(),
    );
    let reference = to_slashes(
        home.to_owned().concat("/").concat(
            ".local/share/contextmink/agent_integration.md",
        ).as_str(),
    );
    replace_text(
        bound.as_str(),
        "../../../tools/contextmink/agent_integration.md",
        reference.as_str(),
    )
}

fn bind_bridge_skill(skill: &str, home: &str) -> (text: String)
    ensures
        text@ == bound_bridge_skill(skill@, home@),
{
    proof {
        lemma_needles();
    }
    let plain = replace_text(skill, "\r\n", "\n");
    let place = "Personal bridge: `".to_owned().concat(
        to_slashes(home.to_owned().concat("/").concat(bridge_path()).as_str()).as_str(),
    ).concat(
        "`. Use an explicitly selected project bridge when the project pins its own runtime.",
    );
    replace_text(plain.as_str(), COMMAND_MARK, place.as_str())
}

/// What is done with a path of the home.
#[derive(Debug, Clone, Copy, PartialEq, Eq, Structural)]
pub enum UserActionKind {
    Unchanged,
    Replace,
    Create,
    Absent,
    Remove,
}

impl UserActionKind {
    pub open spec fn word(self) -> Seq<char> {
        match self {
            UserActionKind::Unchanged => "unchanged"@,
            UserActionKind::Replace => "replace"@,
            UserActionKind::Create => "create"@,
            UserActionKind::Absent => "absent"@,
            UserActionKind::Remove => "remove"@,
        }
    }

    pub fn verb(self) -> (verb: &'static str)
        ensures
            verb@ == self.word(),
    {
        match self {
            UserActionKind::Unchanged => "unchanged",
            UserActionKind::Replace => "replace",
            UserActionKind::Create => "create",
            UserActionKind::Absent => "absent",
            UserActionKind::Remove => "remove",
        }
    }
}

/// What is done with a path, by what is there and what is wanted there.
pub open spec fn action_for(existing: Option<Seq<u8>>, wanted: Option<Seq<u8>>) -> UserActionKind {
    match (existing, wanted) {
        (Some(old), Some(new)) => if old == new {
            UserActionKind::Unchanged
        } else {
            UserActionKind::Replace
        },
        (None, Some(_)) => UserActionKind::Create,
        (None, None) => UserActionKind::Absent,
        (Some(_), None) => UserActionKind::Remove,
    }
}

pub open spec fn bytes_of(bytes: Option<Vec<u8>>) -> Option<Seq<u8>> {
    match bytes {
        Some(bytes) => Some(bytes@),
        None => None,
    }
}

fn choose_action(existing: &Option<Vec<u8>>, wanted: Option<&Vec<u8>>) -> (action: UserActionKind)
    ensures
        action == action_for(
            bytes_of(*existing),
            match wanted {
                Some(wanted) => Some(wanted@),
                None => None,
            },
        ),
{
    match (existing, wanted) {
        (Some(old), Some(new)) => if same_bytes(old, new) {
            UserActionKind::Unchanged
        } else {
            UserActionKind::Replace
        },
        (None, Some(_)) => UserActionKind::Create,
        (None, None) => UserActionKind::Absent,
        (Some(_), None) => UserActionKind::Remove,
    }
}

/// A file that a personal installation writes.
#[derive(Debug)]
pub struct UserFile {
    pub path: String,
    pub content: Vec<u8>,
}

pub open spec fn file_models(files: Seq<UserFile>) -> Seq<(Seq<char>, Seq<u8>)> {
    files.map_values(|file: UserFile| (file.path@, file.content@))
}

/// The files that a personal installation writes, in order.
pub open spec fn installed_files(
    payloads: UserPayloads,
    home: Seq<char>,
    windows: bool,
    harness: Seq<char>,
) -> Seq<(Seq<char>, Seq<u8>)> {
    let skill = vstd::utf8::encode_utf8(bound_skill(payloads.skill@, home, windows));
    let bridge_skill = vstd::utf8::encode_utf8(bound_bridge_skill(payloads.bridge_skill@, home));
    seq![(binary(windows), payloads.binary@)] + (if windows {
        seq![(".local/share/contextmink/bin/contextmink-bridge.exe"@, payloads.bridge@)]
    } else {
        Seq::empty()
    }) + seq![
        (".local/share/contextmink/agent_integration.md"@, payloads.reference@),
        (".agents/skills/contextmink/SKILL.md"@, skill),
        ("."@ + harness + "/skills/contextmink/SKILL.md"@, skill),
    ] + (if windows {
        seq![
            (".agents/skills/contextmink-bridge/SKILL.md"@, bridge_skill),
            ("."@ + harness + "/skills/contextmink-bridge/SKILL.md"@, bridge_skill),
        ]
    } else {
        Seq::empty()
    })
}

/// An installation writes exactly the paths that it owns.
pub proof fn installation_writes_what_it_owns(
    payloads: UserPayloads,
    home: Seq<char>,
    windows: bool,
    harness: Seq<char>,
)
    ensures
        installed_files(payloads, home, windows, harness).map_values(
            |file: (Seq<char>, Seq<u8>)| file.0,
        ) == all_owned(windows, harness),
{
    assert(installed_files(payloads, home, windows, harness).map_values(
        |file: (Seq<char>, Seq<u8>)| file.0,
    ) =~= all_owned(windows, harness));
}

fn push_file(files: &mut Vec<UserFile>, path: &str, content: &[u8])
    ensures
        file_models(final(files)@) == file_models(old(files)@).push((path@, content@)),
{
    let ghost before = files@;
    let mut copy: Vec<u8> = Vec::new();
    let mut i: usize = 0;
    while i < content.len()
        invariant
            i <= content.len(),
            copy@ == content@.take(i as int),
        decreases content.len() - i,
    {
        copy.push(content[i]);
        assert(content@.take(i + 1) =~= content@.take(i as int).push(content@[i as int]));
        i += 1;
    }
    assert(content@.take(i as int) =~= content@);
    files.push(UserFile { path: path.to_owned(), content: copy });
    assert(file_models(files@) =~= file_models(before).push((path@, content@)));
}

/// Why the skills of a release cannot be installed.
pub open spec fn binding_fault(payloads: UserPayloads, windows: bool) -> Option<Fault> {
    if !strings::contains_text(payloads.skill@, COMMAND_MARK@) {
        Some(Fault::NoBinding(false))
    } else if windows && !strings::contains_text(payloads.bridge_skill@, COMMAND_MARK@) {
        Some(Fault::NoBinding(true))
    } else {
        None
    }
}

/// The files that a personal installation writes.
pub fn user_files(payloads: &UserPayloads, home: &str, windows: bool, harness: &str) -> (files:
    Result<Vec<UserFile>, UserFault>)
    ensures
        match files {
            Ok(files) => binding_fault(*payloads, windows) is None && file_models(files@)
                == installed_files(*payloads, home@, windows, harness@),
            Err(fault) => binding_fault(*payloads, windows) == Some(fault@),
        },
{
    if !contains(payloads.skill.as_str(), COMMAND_MARK) {
        return Err(UserFault::NoBinding { bridge: false });
    }
    if windows && !contains(payloads.bridge_skill.as_str(), COMMAND_MARK) {
        return Err(UserFault::NoBinding { bridge: true });
    }
    let skill = bind_skill(payloads.skill.as_str(), home, windows);
    let bridge_skill = bind_bridge_skill(payloads.bridge_skill.as_str(), home);
    let mut files: Vec<UserFile> = Vec::new();
    assert(file_models(files@) =~= Seq::empty());
    push_file(&mut files, binary_path(windows), &payloads.binary);
    if windows {
        push_file(&mut files, bridge_path(), &payloads.bridge);
    }
    push_file(
        &mut files,
        ".local/share/contextmink/agent_integration.md",
        &payloads.reference,
    );
    push_file(&mut files, ".agents/skills/contextmink/SKILL.md", skill.as_str().as_bytes());
    push_file(&mut files, own_skill(harness).as_str(), skill.as_str().as_bytes());
    if windows {
        push_file(
            &mut files,
            ".agents/skills/contextmink-bridge/SKILL.md",
            bridge_skill.as_str().as_bytes(),
        );
        push_file(
            &mut files,
            own_bridge_skill(harness).as_str(),
            bridge_skill.as_str().as_bytes(),
        );
    }
    assert(file_models(files@) =~= installed_files(*payloads, home@, windows, harness@));
    Ok(files)
}

/// Why an operation on a home is refused before it looks at the paths.
pub open spec fn prior_fault(
    prior: Option<Personal>,
    home: Seq<char>,
    receipt_path: Seq<char>,
    windows: bool,
    harness: Seq<char>,
    remove: bool,
) -> Option<Fault> {
    match prior {
        Some(receipt) => if !receipt.fits(home, windows, harness) {
            Some(Fault::ForeignReceipt)
        } else if !versions::is_version(receipt.version) || !versions::is_version(VERSION@) {
            Some(Fault::InvalidVersion(receipt.version))
        } else if versions::is_newer_version(receipt.version, VERSION@) {
            Some(Fault::NewerInstallation(receipt.version))
        } else {
            None
        },
        None => if remove {
            Some(Fault::NothingOwned(receipt_path))
        } else {
            None
        },
    }
}

pub open spec fn receipt_model(prior: Option<UserReceipt>) -> Option<Personal> {
    match prior {
        Some(receipt) => Some(receipt@),
        None => None,
    }
}

/// Checks the receipt that is there before anything is done.
pub fn check_prior(
    prior: &Option<UserReceipt>,
    home: &str,
    receipt_path: &str,
    windows: bool,
    harness: &str,
    remove: bool,
) -> (verdict: Result<(), UserFault>)
    ensures
        match verdict {
            Ok(_) => prior_fault(
                receipt_model(*prior),
                home@,
                receipt_path@,
                windows,
                harness@,
                remove,
            ) is None,
            Err(fault) => prior_fault(
                receipt_model(*prior),
                home@,
                receipt_path@,
                windows,
                harness@,
                remove,
            ) == Some(fault@),
        },
{
    match prior {
        Some(receipt) => {
            assert(receipt@.owned().len() == receipt.runtime_files@.len()
                + receipt.text_files@.len());
            let fits = same_text(receipt.home.as_str(), home) && (if receipt.installed {
                receipt.owns_current_paths(windows, harness)
            } else {
                receipt.runtime_files.len() == 0 && receipt.text_files.len() == 0
            });
            if !fits {
                return Err(UserFault::ForeignReceipt);
            }
            match is_newer(receipt.version.as_str(), VERSION) {
                None => Err(UserFault::InvalidVersion { version: receipt.version.clone() }),
                Some(newer) => if newer {
                    Err(UserFault::NewerInstallation { version: receipt.version.clone() })
                } else {
                    Ok(())
                },
            }
        },
        None => if remove {
            Err(UserFault::NothingOwned { path: receipt_path.to_owned() })
        } else {
            Ok(())
        },
    }
}

/// What is done with a path.
#[derive(Debug)]
pub struct UserAction {
    pub path: String,
    pub action: UserActionKind,
}

pub open spec fn action_models(actions: Seq<UserAction>) -> Seq<(Seq<char>, UserActionKind)> {
    actions.map_values(|action: UserAction| (action.path@, action.action))
}

/// What installing does with each path: every owned path is written, whatever is
/// there.
pub open spec fn install_actions(
    files: Seq<(Seq<char>, Seq<u8>)>,
    existing: Seq<Option<Seq<u8>>>,
) -> Seq<(Seq<char>, UserActionKind)> {
    Seq::new(
        files.len(),
        |i: int| (files[i].0, action_for(existing[i], Some(files[i].1))),
    )
}

/// What removing does with each path: every owned path is removed, whatever is there.
pub open spec fn remove_actions(owned: Seq<Seq<char>>, existing: Seq<Option<Seq<u8>>>) -> Seq<
    (Seq<char>, UserActionKind),
> {
    Seq::new(owned.len(), |i: int| (owned[i], action_for(existing[i], None)))
}

pub open spec fn existing_models(existing: Seq<Option<Vec<u8>>>) -> Seq<Option<Seq<u8>>> {
    existing.map_values(|bytes: Option<Vec<u8>>| bytes_of(bytes))
}

/// Plans an installation; `existing` is what is at each of the paths.
pub fn plan_install(files: &[UserFile], existing: &[Option<Vec<u8>>]) -> (actions: Vec<UserAction>)
    requires
        existing@.len() == files@.len(),
    ensures
        action_models(actions@) == install_actions(
            file_models(files@),
            existing_models(existing@),
        ),
{
    let ghost models = file_models(files@);
    let ghost there = existing_models(existing@);
    let ghost wanted = install_actions(models, there);
    let mut actions: Vec<UserAction> = Vec::new();
    let mut i: usize = 0;
    assert(action_models(actions@) =~= wanted.take(0));
    while i < files.len()
        invariant
            i <= files.len(),
            existing@.len() == files@.len(),
            models == file_models(files@),
            there == existing_models(existing@),
            wanted == install_actions(models, there),
            action_models(actions@) == wanted.take(i as int),
        decreases files.len() - i,
    {
        assert(models[i as int] == (files@[i as int].path@, files@[i as int].content@));
        assert(there[i as int] == bytes_of(existing@[i as int]));
        let action = UserAction {
            path: files[i].path.clone(),
            action: choose_action(&existing[i], Some(&files[i].content)),
        };
        let ghost before = actions@;
        actions.push(action);
        assert(action_models(actions@) =~= action_models(before).push(wanted[i as int]));
        assert(wanted.take(i + 1) =~= wanted.take(i as int).push(wanted[i as int]));
        i += 1;
    }
    assert(wanted.take(i as int) =~= wanted);
    actions
}

/// Plans a removal of the paths that a receipt names; `existing` is what is at each
/// of them.
pub fn plan_remove(owned: &[String], existing: &[Option<Vec<u8>>]) -> (actions: Vec<UserAction>)
    requires
        existing@.len() == owned@.len(),
    ensures
        action_models(actions@) == remove_actions(
            strings::texts(owned@),
            existing_models(existing@),
        ),
{
    let ghost models = strings::texts(owned@);
    let ghost there = existing_models(existing@);
    let ghost wanted = remove_actions(models, there);
    let mut actions: Vec<UserAction> = Vec::new();
    let mut i: usize = 0;
    assert(action_models(actions@) =~= wanted.take(0));
    while i < owned.len()
        invariant
            i <= owned.len(),
            existing@.len() == owned@.len(),
            models == strings::texts(owned@),
            there == existing_models(existing@),
            wanted == remove_actions(models, there),
            action_models(actions@) == wanted.take(i as int),
        decreases owned.len() - i,
    {
        assert(models[i as int] == owned@[i as int]@);
        assert(there[i as int] == bytes_of(existing@[i as int]));
        let action = UserAction {
            path: owned[i].clone(),
            action: choose_action(&existing[i], None),
        };
        let ghost before = actions@;
        actions.push(action);
        assert(action_models(actions@) =~= action_models(before).push(wanted[i as int]));
        assert(wanted.take(i + 1) =~= wanted.take(i as int).push(wanted[i as int]));
        i += 1;
    }
    assert(wanted.take(i as int) =~= wanted);
    actions
}

/// Once every file is as the installation writes it, installing again changes
/// nothing.
pub proof fn installing_again_changes_nothing(files: Seq<(Seq<char>, Seq<u8>)>, i: int)
    requires
        0 <= i < files.len(),
    ensures
        install_actions(
            files,
            files.map_values(|file: (Seq<char>, Seq<u8>)| Some(file.1)),
        )[i].1 == UserActionKind::Unchanged,
{
}

/// The receipt that is written: it stays once the installation is removed, and owns
/// nothing then.
pub fn next_receipt(home: &str, windows: bool, harness: &str, remove: bool) -> (receipt: UserReceipt)
    ensures
        receipt@ == written_receipt(home@, windows, harness@, remove),
{
    let empty: Vec<String> = Vec::new();
    let none: Vec<String> = Vec::new();
    let (runtime_files, text_files) = if remove {
        (empty, none)
    } else {
        (runtime_paths(windows), text_paths(windows, harness))
    };
    let receipt = UserReceipt {
        version: VERSION.to_owned(),
        home: home.to_owned(),
        installed: !remove,
        runtime_files,
        text_files,
    };
    assert(remove ==> receipt@.runtime_files =~= Seq::empty());
    assert(remove ==> receipt@.text_files =~= Seq::empty());
    receipt
}

pub open spec fn written_receipt(
    home: Seq<char>,
    windows: bool,
    harness: Seq<char>,
    remove: bool,
) -> Personal {
    Personal {
        version: VERSION@,
        home,
        installed: !remove,
        runtime_files: if remove {
            Seq::empty()
        } else {
            runtimes(windows)
        },
        text_files: if remove {
            Seq::empty()
        } else {
            texts(windows, harness)
        },
    }
}

/// The receipt that an operation writes is accepted by the operations after it, and
/// that of an installation by the runtime that is installed.
pub proof fn written_receipts_are_accepted(
    home: Seq<char>,
    windows: bool,
    harness: Seq<char>,
    remove: bool,
)
    ensures
        written_receipt(home, windows, harness, remove).fits(home, windows, harness),
        !remove ==> written_receipt(home, windows, harness, remove).owns_current(windows, harness),
{
    assert forall|i: int| 0 <= i < runtimes(windows).len() implies runtimes(windows).contains(
        #[trigger] runtimes(windows)[i],
    ) by {}
    assert forall|i: int| 0 <= i < texts(windows, harness).len() implies texts(windows, harness).contains(
        #[trigger] texts(windows, harness)[i],
    ) by {}
}

/// Whether an executable answers with this release's name and version.
pub fn answers_with_version(output: &str, tool: &str) -> (held: bool)
    ensures
        held == (strings::trim(output@) == tool@ + " "@ + VERSION@),
{
    let expected = tool.to_owned().concat(" ").concat(VERSION);
    same_text(strings::trim_of(output).as_str(), expected.as_str())
}

pub open spec fn user_advice() -> Seq<Seq<char>> {
    seq![
        "After installation, start a fresh agent session to refresh skill discovery. No agent-side copying or AGENTS.md edits are needed. Selection remains model-dependent."@,
        "Personal data and the lifecycle receipt survive uninstall-user. Project installations and project guidance are untouched."@,
    ]
}

pub open spec fn user_json(
    home: Seq<char>,
    dry_run: bool,
    remove: bool,
    actions: Seq<(Seq<char>, UserActionKind)>,
) -> Json {
    Json::Object(
        seq![
            ("schema"@, Json::Text("contextmink.user_setup.v1"@)),
            ("home"@, Json::Text(home)),
            ("dry_run"@, Json::Bool(dry_run)),
            (
                "operation"@,
                Json::Text(
                    if remove {
                        "remove"@
                    } else {
                        "install"@
                    },
                ),
            ),
            (
                "actions"@,
                Json::Array(
                    actions.map_values(
                        |action: (Seq<char>, UserActionKind)| action_json(home, action),
                    ),
                ),
            ),
            ("next_actions"@, json::text_array(user_advice())),
        ],
    )
}

pub open spec fn action_json(home: Seq<char>, action: (Seq<char>, UserActionKind)) -> Json {
    Json::Object(
        seq![
            ("path"@, Json::Text(home + "/"@ + action.0)),
            ("action"@, Json::Text(action.1.word())),
        ],
    )
}

/// What is reported of an installation or a removal.
pub fn user_report(home: &str, dry_run: bool, remove: bool, actions: &[UserAction]) -> (value:
    JsonValue)
    ensures
        value@ == user_json(home@, dry_run, remove, action_models(actions@)),
{
    let ghost models = action_models(actions@);
    let ghost wanted = models.map_values(
        |action: (Seq<char>, UserActionKind)| action_json(home@, action),
    );
    let mut items: Vec<JsonValue> = Vec::new();
    let mut i: usize = 0;
    assert(json::item_models(items@) =~= wanted.take(0));
    while i < actions.len()
        invariant
            i <= actions.len(),
            models == action_models(actions@),
            wanted == models.map_values(
                |action: (Seq<char>, UserActionKind)| action_json(home@, action),
            ),
            json::item_models(items@) == wanted.take(i as int),
        decreases actions.len() - i,
    {
        assert(models[i as int] == (actions@[i as int].path@, actions@[i as int].action));
        let mut members: Vec<(String, JsonValue)> = Vec::new();
        assert(json::member_models(members@) =~= Seq::empty());
        add_member(
            &mut members,
            "path",
            json_text(home.to_owned().concat("/").concat(actions[i].path.as_str()).as_str()),
        );
        add_member(&mut members, "action", json_text(actions[i].action.verb()));
        let item = json_object(members);
        assert(item@->Object_0 =~= action_json(home@, models[i as int])->Object_0);
        add_item(&mut items, item);
        assert(wanted.take(i + 1) =~= wanted.take(i as int).push(wanted[i as int]));
        i += 1;
    }
    assert(wanted.take(i as int) =~= wanted);
    let mut advice: Vec<String> = Vec::new();
    assert(strings::texts(advice@) =~= Seq::empty());
    push_text(
        &mut advice,
        "After installation, start a fresh agent session to refresh skill discovery. No agent-side copying or AGENTS.md edits are needed. Selection remains model-dependent.".to_owned(),
    );
    push_text(
        &mut advice,
        "Personal data and the lifecycle receipt survive uninstall-user. Project installations and project guidance are untouched.".to_owned(),
    );
    assert(strings::texts(advice@) =~= user_advice());
    let mut members: Vec<(String, JsonValue)> = Vec::new();
    assert(json::member_models(members@) =~= Seq::empty());
    add_member(&mut members, "schema", json_text("contextmink.user_setup.v1"));
    add_member(&mut members, "home", json_text(home));
    add_member(&mut members, "dry_run", JsonValue::Bool(dry_run));
    let operation = if remove {
        "remove"
    } else {
        "install"
    };
    add_member(&mut members, "operation", json_text(operation));
    add_member(&mut members, "actions", json_array(items));
    add_member(&mut members, "next_actions", json_texts(&advice));
    let value = json_object(members);
    assert(value@->Object_0 =~= user_json(home@, dry_run, remove, models)->Object_0);
    value
}

/// What is at a path once an action was taken.
pub open spec fn after_action(
    existing: Option<Seq<u8>>,
    wanted: Option<Seq<u8>>,
    action: UserActionKind,
) -> Option<Seq<u8>> {
    match action {
        UserActionKind::Create => wanted,
        UserActionKind::Replace => wanted,
        UserActionKind::Remove => None,
        UserActionKind::Unchanged => existing,
        UserActionKind::Absent => existing,
    }
}

/// Whatever was at a path, the action that is planned for it leaves what is wanted
/// there; nothing is done where that is there already, something that is there is
/// replaced or removed but never created, and what is missing never replaced.
pub proof fn actions_leave_what_is_wanted(existing: Option<Seq<u8>>, wanted: Option<Seq<u8>>)
    ensures
        after_action(existing, wanted, action_for(existing, wanted)) == wanted,
        (action_for(existing, wanted) == UserActionKind::Unchanged || action_for(existing, wanted)
            == UserActionKind::Absent) == (existing == wanted),
        action_for(existing, wanted) == UserActionKind::Create ==> existing is None,
        action_for(existing, wanted) == UserActionKind::Replace || action_for(existing, wanted)
            == UserActionKind::Remove ==> existing is Some,
        action_for(existing, wanted) == UserActionKind::Remove ==> wanted is None,
{
}

/// A removal acts on every path that is owned and on no other, and leaves none of them.
pub proof fn removal_leaves_nothing_owned(
    owned: Seq<Seq<char>>,
    existing: Seq<Option<Seq<u8>>>,
    i: int,
)
    requires
        owned.len() == existing.len(),
        0 <= i < owned.len(),
    ensures
        remove_actions(owned, existing).len() == owned.len(),
        remove_actions(owned, existing)[i].0 == owned[i],
        after_action(existing[i], None, remove_actions(owned, existing)[i].1) is None,
{
}

/// An installation acts on every file of the release, and leaves each as it is shipped.
pub proof fn installation_leaves_every_file(
    files: Seq<(Seq<char>, Seq<u8>)>,
    existing: Seq<Option<Seq<u8>>>,
    i: int,
)
    requires
        files.len() == existing.len(),
        0 <= i < files.len(),
    ensures
        install_actions(files, existing).len() == files.len(),
        install_actions(files, existing)[i].0 == files[i].0,
        after_action(existing[i], Some(files[i].1), install_actions(files, existing)[i].1) == Some(
            files[i].1,
        ),
{
}

} // verus!
