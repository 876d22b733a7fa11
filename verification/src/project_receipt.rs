//! The receipt of a project installation: what of the project belongs to it.
use vstd::prelude::*;

use crate::json;
use crate::json::{
    add_member, json_text, pretty_object, read_document, Json, JsonValue,
};
use crate::project_files::SkillTarget;
use crate::strings;
use crate::strings::{debug_text, same_text};
use crate::versions;
use crate::versions::{canonical_version, is_newer, VERSION};

verus! {

pub const INSTALL_RECEIPT_PATH: &'static str = "tools/contextmink/project-install.json";

pub const INSTALL_RECEIPT_SCHEMA: &'static str = "contextmink.project_install.v3";

/// The schema of the release before, which is read as the current one.
pub const PREVIOUS_INSTALL_RECEIPT_SCHEMA: &'static str = "contextmink.project_install.v2";

/// The receipt that the release before kept of its binaries. They belong to the
/// installation by their paths now, so it is removed.
pub const PREVIOUS_RUNTIME_RECEIPT_PATH: &'static str =
    "tools/contextmink/bin/runtime-install.json";

pub const PREVIOUS_RUNTIME_RECEIPT_SCHEMA: &'static str = "contextmink.runtime_install.v1";

/// What of a project belongs to an installation: the texts that its target implies,
/// and the entry in the list of ignored files, or that list as a whole.
#[derive(Debug)]
pub struct InstallReceipt {
    pub schema: String,
    pub contextmink_version: String,
    pub skill_target: SkillTarget,
    pub managed_gitignore_block: bool,
    pub managed_gitignore_file: bool,
}

/// The model of a receipt.
#[verifier::ext_equal]
pub struct Install {
    pub schema: Seq<char>,
    pub version: Seq<char>,
    pub target: SkillTarget,
    pub block: bool,
    pub file: bool,
}

impl View for InstallReceipt {
    type V = Install;

    open spec fn view(&self) -> Install {
        Install {
            schema: self.schema@,
            version: self.contextmink_version@,
            target: self.skill_target,
            block: self.managed_gitignore_block,
            file: self.managed_gitignore_file,
        }
    }
}

/// The receipt of an installation by this release.
pub open spec fn current_receipt(target: SkillTarget, block: bool, file: bool) -> Install {
    Install { schema: INSTALL_RECEIPT_SCHEMA@, version: VERSION@, target, block, file }
}

/// The receipt of an installation by this release.
pub fn build_install_receipt(
    skill_target: SkillTarget,
    managed_gitignore_block: bool,
    managed_gitignore_file: bool,
) -> (receipt: InstallReceipt)
    ensures
        receipt@ == current_receipt(skill_target, managed_gitignore_block, managed_gitignore_file),
{
    InstallReceipt {
        schema: INSTALL_RECEIPT_SCHEMA.to_owned(),
        contextmink_version: VERSION.to_owned(),
        skill_target,
        managed_gitignore_block,
        managed_gitignore_file,
    }
}

/// The members of a receipt.
pub open spec fn receipt_members(receipt: Install, harness: Seq<char>) -> Seq<(Seq<char>, Json)> {
    seq![
        ("schema"@, Json::Text(receipt.schema)),
        ("contextmink_version"@, Json::Text(receipt.version)),
        ("skill_target"@, Json::Text(receipt.target.word(harness))),
        ("managed_gitignore_block"@, Json::Bool(receipt.block)),
        ("managed_gitignore_file"@, Json::Bool(receipt.file)),
    ]
}

/// A receipt as it is written.
pub open spec fn receipt_text(receipt: Install, harness: Seq<char>) -> Seq<char> {
    json::pretty(receipt_members(receipt, harness)) + "\n"@
}

/// A receipt as it is written.
pub fn receipt_bytes(receipt: &InstallReceipt, harness: &str) -> (text: String)
    ensures
        text@ == receipt_text(receipt@, harness@),
{
    let mut members: Vec<(String, JsonValue)> = Vec::new();
    assert(json::member_models(members@) =~= Seq::empty());
    add_member(&mut members, "schema", json_text(receipt.schema.as_str()));
    add_member(
        &mut members,
        "contextmink_version",
        json_text(receipt.contextmink_version.as_str()),
    );
    add_member(&mut members, "skill_target", json_text(receipt.skill_target.as_str(harness)));
    add_member(
        &mut members,
        "managed_gitignore_block",
        JsonValue::Bool(receipt.managed_gitignore_block),
    );
    add_member(
        &mut members,
        "managed_gitignore_file",
        JsonValue::Bool(receipt.managed_gitignore_file),
    );
    assert(json::member_models(members@) =~= receipt_members(receipt@, harness@));
    pretty_object(&members).concat("\n")
}

/// Why a receipt is refused.
#[derive(Debug)]
pub enum ReceiptFault {
    /// It is not a file.
    NotFile,
    /// It is no JSON.
    Unreadable { detail: String },
    NoSchema,
    /// It is not what its schema says.
    Malformed { current: bool },
    UnknownSchema { schema: String },
    /// Its version is no semantic version.
    BadVersion { version: String },
    UnresolvedTarget,
}

/// The model of why a receipt is refused.
pub enum Fault {
    NotFile,
    Unreadable(Seq<char>),
    NoSchema,
    Malformed(bool),
    UnknownSchema(Seq<char>),
    BadVersion(Seq<char>),
    UnresolvedTarget,
}

impl View for ReceiptFault {
    type V = Fault;

    open spec fn view(&self) -> Fault {
        match self {
            ReceiptFault::NotFile => Fault::NotFile,
            ReceiptFault::Unreadable { detail } => Fault::Unreadable(detail@),
            ReceiptFault::NoSchema => Fault::NoSchema,
            ReceiptFault::Malformed { current } => Fault::Malformed(*current),
            ReceiptFault::UnknownSchema { schema } => Fault::UnknownSchema(schema@),
            ReceiptFault::BadVersion { version } => Fault::BadVersion(version@),
            ReceiptFault::UnresolvedTarget => Fault::UnresolvedTarget,
        }
    }
}

impl Fault {
    pub open spec fn text(self, path: Seq<char>) -> Seq<char> {
        match self {
            Fault::NotFile => "project-install receipt is not a file: "@ + path,
            Fault::Unreadable(detail) => "parse project-install receipt "@ + path + ": "@ + detail,
            Fault::NoSchema => "project-install receipt "@ + path
                + " has no string schema; restore a valid receipt or move it aside deliberately"@,
            Fault::Malformed(current) => "parse "@ + path + "; restore a valid "@ + (if current {
                INSTALL_RECEIPT_SCHEMA@
            } else {
                PREVIOUS_INSTALL_RECEIPT_SCHEMA@
            }) + " receipt or move it aside deliberately"@,
            Fault::UnknownSchema(schema) => "unsupported project-install receipt schema "@
                + strings::debug_quoted(schema) + " in "@ + path
                + "; move it aside deliberately, then rerun setup-project to reinstall"@,
            Fault::BadVersion(version) =>
                "project-install receipt contextmink_version must be a canonical semantic version, found "@
                + strings::debug_quoted(version),
            Fault::UnresolvedTarget =>
                "project-install receipt skill_target must be resolved, not auto"@,
        }
    }
}

impl ReceiptFault {
    pub fn message(&self, path: &str) -> (message: String)
        ensures
            message@ == self@.text(path@),
    {
        match self {
            ReceiptFault::NotFile => "project-install receipt is not a file: ".to_owned().concat(
                path,
            ),
            ReceiptFault::Unreadable { detail } => "parse project-install receipt ".to_owned().concat(
                path,
            ).concat(": ").concat(detail.as_str()),
            ReceiptFault::NoSchema => "project-install receipt ".to_owned().concat(path).concat(
                " has no string schema; restore a valid receipt or move it aside deliberately",
            ),
            ReceiptFault::Malformed { current } => {
                let schema = if *current {
                    INSTALL_RECEIPT_SCHEMA
                } else {
                    PREVIOUS_INSTALL_RECEIPT_SCHEMA
                };
                "parse ".to_owned().concat(path).concat("; restore a valid ").concat(
                    schema,
                ).concat(" receipt or move it aside deliberately")
            },
            ReceiptFault::UnknownSchema { schema } =>
                "unsupported project-install receipt schema ".to_owned().concat(
                debug_text(schema.as_str()).as_str(),
            ).concat(" in ").concat(path).concat(
                "; move it aside deliberately, then rerun setup-project to reinstall",
            ),
            ReceiptFault::BadVersion { version } =>
                "project-install receipt contextmink_version must be a canonical semantic version, found ".to_owned().concat(
                debug_text(version.as_str()).as_str(),
            ),
            ReceiptFault::UnresolvedTarget =>
                "project-install receipt skill_target must be resolved, not auto".to_owned(),
        }
    }
}

/// The text of a member of an object.
pub open spec fn text_member(value: Json, key: Seq<char>) -> Option<Seq<char>> {
    match value {
        Json::Object(members) => match json::member_of(members, key) {
            Some(Json::Text(text)) => Some(text),
            _ => None,
        },
        _ => None,
    }
}

/// Whether a member of an object is true or false.
pub open spec fn bool_member(value: Json, key: Seq<char>) -> Option<bool> {
    match value {
        Json::Object(members) => match json::member_of(members, key) {
            Some(Json::Bool(held)) => Some(held),
            _ => None,
        },
        _ => None,
    }
}

pub open spec fn has_member(value: Json, key: Seq<char>) -> bool {
    value matches Json::Object(members) && json::member_of(members, key) is Some
}

/// The target of that name.
pub open spec fn target_of(word: Seq<char>, harness: Seq<char>) -> Option<SkillTarget> {
    if word == "auto"@ {
        Some(SkillTarget::Auto)
    } else if word == "agents"@ {
        Some(SkillTarget::Agents)
    } else if word == harness {
        Some(SkillTarget::Claude)
    } else if word == "both"@ {
        Some(SkillTarget::Both)
    } else if word == "none"@ {
        Some(SkillTarget::Unselected)
    } else {
        None
    }
}

/// The keys of a receipt; the release before kept a list of files in it.
pub open spec fn is_key(key: Seq<char>, current: bool) -> bool {
    key == "schema"@ || key == "contextmink_version"@ || key == "skill_target"@ || key
        == "managed_gitignore_block"@ || key == "managed_gitignore_file"@ || (!current && key
        == "managed_files"@)
}

pub open spec fn knows_every_key(value: Json, current: bool) -> bool {
    match value {
        Json::Object(members) => forall|i: int|
            0 <= i < members.len() ==> is_key((#[trigger] members[i]).0, current),
        _ => false,
    }
}

/// The receipt that a value is, read as one of the current schema.
pub open spec fn receipt_in(value: Json, current: bool, harness: Seq<char>) -> Option<Install> {
    let target = match text_member(value, "skill_target"@) {
        Some(word) => target_of(word, harness),
        None => None,
    };
    match (
        text_member(value, "contextmink_version"@),
        target,
        bool_member(value, "managed_gitignore_block"@),
        bool_member(value, "managed_gitignore_file"@),
    ) {
        (Some(version), Some(target), Some(block), Some(file)) => if knows_every_key(
            value,
            current,
        ) && (current || has_member(value, "managed_files"@)) {
            Some(
                Install { schema: INSTALL_RECEIPT_SCHEMA@, version, target, block, file },
            )
        } else {
            None
        },
        _ => None,
    }
}

/// Why a receipt cannot be one.
pub open spec fn receipt_fault(receipt: Install) -> Option<Fault> {
    if receipt.schema != INSTALL_RECEIPT_SCHEMA@ {
        Some(Fault::UnknownSchema(receipt.schema))
    } else if !versions::is_version(receipt.version) {
        Some(Fault::BadVersion(receipt.version))
    } else if receipt.target == SkillTarget::Auto {
        Some(Fault::UnresolvedTarget)
    } else {
        None
    }
}

/// A receipt has a version, and says where the skills are.
pub fn validate_install_receipt(receipt: &InstallReceipt) -> (verdict: Result<(), ReceiptFault>)
    ensures
        match verdict {
            Ok(_) => receipt_fault(receipt@) is None,
            Err(fault) => receipt_fault(receipt@) == Some(fault@),
        },
{
    if !same_text(receipt.schema.as_str(), INSTALL_RECEIPT_SCHEMA) {
        return Err(ReceiptFault::UnknownSchema { schema: receipt.schema.clone() });
    }
    match canonical_version(receipt.contextmink_version.as_str()) {
        Some(_) => {},
        None => {
            return Err(
                ReceiptFault::BadVersion { version: receipt.contextmink_version.clone() },
            );
        },
    }
    if receipt.skill_target == SkillTarget::Auto {
        return Err(ReceiptFault::UnresolvedTarget);
    }
    Ok(())
}

/// The receipt that bytes are, or why they are none.
pub open spec fn read_receipt(bytes: Seq<u8>, harness: Seq<char>) -> Result<Install, Fault> {
    match json::json_read(bytes) {
        Err(detail) => Err(Fault::Unreadable(detail)),
        Ok(value) => receipt_of(value, harness),
    }
}

/// The receipt that a value is, or why it is none.
pub open spec fn receipt_of(value: Json, harness: Seq<char>) -> Result<Install, Fault> {
    match text_member(value, "schema"@) {
        None => Err(Fault::NoSchema),
        Some(schema) => {
            let current = schema == INSTALL_RECEIPT_SCHEMA@;
            if !current && schema != PREVIOUS_INSTALL_RECEIPT_SCHEMA@ {
                Err(Fault::UnknownSchema(schema))
            } else {
                match receipt_in(value, current, harness) {
                    None => Err(Fault::Malformed(current)),
                    Some(receipt) => match receipt_fault(receipt) {
                        Some(fault) => Err(fault),
                        None => Ok(receipt),
                    },
                }
            }
        },
    }
}

pub(crate) fn text_at(value: &JsonValue, key: &str) -> (text: Option<String>)
    ensures
        strings::text_option(text) == text_member(value@, key@),
{
    match value.get(key) {
        Some(member) => member.as_text(),
        None => None,
    }
}

pub(crate) fn bool_at(value: &JsonValue, key: &str) -> (held: Option<bool>)
    ensures
        held == bool_member(value@, key@),
{
    match value.get(key) {
        Some(JsonValue::Bool(held)) => Some(*held),
        _ => None,
    }
}

fn keys_are_known(value: &JsonValue, current: bool) -> (held: bool)
    ensures
        held == knows_every_key(value@, current),
{
    match value {
        JsonValue::Object(members) => {
            proof {
                json::lemma_object_view(*members);
            }
            let ghost models = json::member_models(members@);
            let mut i: usize = 0;
            while i < members.len()
                invariant
                    i <= members.len(),
                    models == json::member_models(members@),
                    models.len() == members@.len(),
                    value@ == Json::Object(models),
                    forall|k: int| 0 <= k < i ==> is_key((#[trigger] models[k]).0, current),
                decreases members.len() - i,
            {
                assert(models[i as int].0 == members@[i as int].0@);
                let key = members[i].0.as_str();
                let known = same_text(key, "schema") || same_text(key, "contextmink_version")
                    || same_text(key, "skill_target") || same_text(key, "managed_gitignore_block")
                    || same_text(key, "managed_gitignore_file") || (!current && same_text(
                    key,
                    "managed_files",
                ));
                if !known {
                    assert(!is_key(models[i as int].0, current));
                    let ghost all = value@->Object_0;
                    assert(!is_key(all[i as int].0, current));
                    return false;
                }
                i += 1;
            }
            true
        },
        _ => false,
    }
}

/// The receipt that a value is, or why it is none.
pub fn install_receipt_of(value: &JsonValue, harness: &str) -> (receipt: Result<
    InstallReceipt,
    ReceiptFault,
>)
    ensures
        match receipt {
            Ok(receipt) => receipt_of(value@, harness@) == Ok::<Install, Fault>(receipt@),
            Err(fault) => receipt_of(value@, harness@) == Err::<Install, Fault>(fault@),
        },
{
    let schema = match text_at(value, "schema") {
        Some(schema) => schema,
        None => {
            return Err(ReceiptFault::NoSchema);
        },
    };
    let current = same_text(schema.as_str(), INSTALL_RECEIPT_SCHEMA);
    if !current && !same_text(schema.as_str(), PREVIOUS_INSTALL_RECEIPT_SCHEMA) {
        return Err(ReceiptFault::UnknownSchema { schema });
    }
    let version = text_at(value, "contextmink_version");
    let target = match text_at(value, "skill_target") {
        Some(word) => read_target(word.as_str(), harness),
        None => None,
    };
    let block = bool_at(value, "managed_gitignore_block");
    let file = bool_at(value, "managed_gitignore_file");
    match (version, target, block, file) {
        (Some(version), Some(target), Some(block), Some(file)) => {
            let listed = current || value.get("managed_files").is_some();
            if !keys_are_known(value, current) || !listed {
                return Err(ReceiptFault::Malformed { current });
            }
            let receipt = InstallReceipt {
                schema: INSTALL_RECEIPT_SCHEMA.to_owned(),
                contextmink_version: version,
                skill_target: target,
                managed_gitignore_block: block,
                managed_gitignore_file: file,
            };
            match validate_install_receipt(&receipt) {
                Ok(_) => Ok(receipt),
                Err(fault) => Err(fault),
            }
        },
        _ => Err(ReceiptFault::Malformed { current }),
    }
}

fn read_target(word: &str, harness: &str) -> (target: Option<SkillTarget>)
    ensures
        target == target_of(word@, harness@),
{
    if same_text(word, "auto") {
        Some(SkillTarget::Auto)
    } else if same_text(word, "agents") {
        Some(SkillTarget::Agents)
    } else if same_text(word, harness) {
        Some(SkillTarget::Claude)
    } else if same_text(word, "both") {
        Some(SkillTarget::Both)
    } else if same_text(word, "none") {
        Some(SkillTarget::Unselected)
    } else {
        None
    }
}

/// The receipt of a project, if it has one; `bytes` is missing where there is none.
pub fn load_install_receipt(bytes: Option<&[u8]>, harness: &str) -> (receipt: Result<
    Option<InstallReceipt>,
    ReceiptFault,
>)
    ensures
        match bytes {
            None => receipt matches Ok(None),
            Some(bytes) => match receipt {
                Ok(receipt) => receipt is Some && read_receipt(bytes@, harness@) == Ok::<Install, Fault>(
                    receipt->Some_0@,
                ),
                Err(fault) => read_receipt(bytes@, harness@) == Err::<Install, Fault>(fault@),
            },
        },
        // What is written as a receipt is read as that receipt.
        forall|written: Install|
            is_current(written) && is_harness_name(harness@) && bytes is Some
                && bytes->Some_0@ == vstd::utf8::encode_utf8(
                #[trigger] receipt_text(written, harness@),
            ) ==> (receipt matches Ok(Some(read)) && read@ == written),
{
    let bytes = match bytes {
        Some(bytes) => bytes,
        None => {
            return Ok(None);
        },
    };
    let document = read_document(bytes);
    proof {
        assert forall|written: Install|
            is_current(written) && is_harness_name(harness@) && bytes@
                == vstd::utf8::encode_utf8(
                #[trigger] receipt_text(written, harness@),
            ) implies read_receipt(bytes@, harness@) == Ok::<Install, Fault>(written) by {
            lemma_keys_differ(written, harness@);
            let members = receipt_members(written, harness@);
            assert(json::pretty(members) + "\n"@ == receipt_text(written, harness@));
            let value = document->Ok_0@;
            lemma_members_are_read(written, harness@, value->Object_0);
        }
    }
    match document {
        Err(detail) => Err(ReceiptFault::Unreadable { detail }),
        Ok(value) => match install_receipt_of(&value, harness) {
            Ok(receipt) => Ok(Some(receipt)),
            Err(fault) => Err(fault),
        },
    }
}

/// Whether bytes are the receipt that the release before kept of its binaries.
pub open spec fn is_runtime_receipt(bytes: Seq<u8>) -> bool {
    json::json_read(bytes) matches Ok(value) && text_member(value, "schema"@) == Some(
        PREVIOUS_RUNTIME_RECEIPT_SCHEMA@,
    )
}

/// Whether bytes are the receipt that the release before kept of its binaries.
pub fn recognizes_runtime_receipt(bytes: &[u8]) -> (held: bool)
    ensures
        held == is_runtime_receipt(bytes@),
{
    match read_document(bytes) {
        Ok(value) => match text_at(&value, "schema") {
            Some(schema) => same_text(schema.as_str(), PREVIOUS_RUNTIME_RECEIPT_SCHEMA),
            None => false,
        },
        Err(_) => false,
    }
}

/// What to say of an installation that this release may not touch: one by a newer
/// release, or one whose version is none.
pub open spec fn downgrade_refusal(version: Seq<char>, operation: Seq<char>) -> Option<Seq<char>> {
    if !versions::is_version(version) {
        Some("parse validated project-install receipt version"@)
    } else if !versions::is_version(VERSION@) {
        Some("parse running Contextmink package version"@)
    } else if versions::is_newer_version(version, VERSION@) {
        Some(
            operation + " refuses receipt version "@ + version
                + " with older running Contextmink "@ + VERSION@ + "; use Contextmink "@ + version
                + " or newer"@,
        )
    } else {
        None
    }
}

/// What to say of an installation that this release may not touch; one by the same
/// release is never refused for being newer.
pub fn refuse_release_downgrade(receipt: &InstallReceipt, operation: &str) -> (refusal: Option<String>)
    ensures
        strings::text_option(refusal) == downgrade_refusal(
            receipt.contextmink_version@,
            operation@,
        ),
        receipt.contextmink_version@ == VERSION@ && versions::is_version(VERSION@)
            ==> refusal is None,
{
    let version = receipt.contextmink_version.as_str();
    if canonical_version(version).is_none() {
        return Some("parse validated project-install receipt version".to_owned());
    }
    if canonical_version(VERSION).is_none() {
        return Some("parse running Contextmink package version".to_owned());
    }
    match is_newer(version, VERSION) {
        Some(newer) => if newer {
            Some(
                operation.to_owned().concat(" refuses receipt version ").concat(version).concat(
                    " with older running Contextmink ",
                ).concat(VERSION).concat("; use Contextmink ").concat(version).concat(
                    " or newer",
                ),
            )
        } else {
            None
        },
        None => None,
    }
}

/// Whether a harness can be told from the other targets by its name.
pub open spec fn is_harness_name(harness: Seq<char>) -> bool {
    harness != "auto"@ && harness != "agents"@ && harness != "both"@ && harness != "none"@
}

/// Whether a receipt is one of this release, and names its target.
pub open spec fn is_current(receipt: Install) -> bool {
    &&& receipt.schema == INSTALL_RECEIPT_SCHEMA@
    &&& versions::is_version(receipt.version)
    &&& receipt.target != SkillTarget::Auto
}

proof fn lemma_keys_differ(receipt: Install, harness: Seq<char>)
    ensures
        json::is_flat(receipt_members(receipt, harness)),
{
    let members = receipt_members(receipt, harness);
    reveal_strlit("schema");
    reveal_strlit("contextmink_version");
    reveal_strlit("skill_target");
    reveal_strlit("managed_gitignore_block");
    reveal_strlit("managed_gitignore_file");
    assert(members[0].0.len() == 6);
    assert(members[1].0.len() == 19);
    assert(members[2].0.len() == 12);
    assert(members[3].0.len() == 23);
    assert(members[4].0.len() == 22);
    assert(members[0].0[0] == 's');
    assert(members[1].0[0] == 'c');
    assert(members[2].0[0] == 's');
    assert(members[3].0[0] == 'm');
    assert(members[4].0[0] == 'm');
}

/// A receipt is read from an object that has its members and no others.
proof fn lemma_members_are_read(
    receipt: Install,
    harness: Seq<char>,
    found: Seq<(Seq<char>, Json)>,
)
    requires
        is_harness_name(harness),
        is_current(receipt),
        json::reads_as(receipt_members(receipt, harness), found),
    ensures
        receipt_of(Json::Object(found), harness) == Ok::<Install, Fault>(receipt),
{
    let members = receipt_members(receipt, harness);
    assert(json::member_of(found, members[0].0) == Some(members[0].1));
    assert(json::member_of(found, members[1].0) == Some(members[1].1));
    assert(json::member_of(found, members[2].0) == Some(members[2].1));
    assert(json::member_of(found, members[3].0) == Some(members[3].1));
    assert(json::member_of(found, members[4].0) == Some(members[4].1));
    reveal_strlit("auto");
    reveal_strlit("agents");
    reveal_strlit("both");
    reveal_strlit("none");
    assert("auto"@.len() == 4 && "auto"@[0] == 'a');
    assert("agents"@.len() == 6);
    assert("both"@[0] == 'b');
    assert("none"@[0] == 'n');
    assert(target_of(receipt.target.word(harness), harness) == Some(receipt.target));
    assert forall|j: int| 0 <= j < found.len() implies is_key((#[trigger] found[j]).0, true) by {
        assert(members.contains(found[j]));
        let i = members.index_of(found[j]);
        assert(members[i] == found[j]);
    }
    assert(knows_every_key(Json::Object(found), true));
}

} // verus!
