//! What installing into a project, and removing from it, would do.
//!
//! Every path is looked at before anything is written, so that a refusal leaves
//! nothing half installed.
use vstd::prelude::*;

use crate::project_files;
use crate::project_files::{
    gitignore_content, gitignore_has_entry, gitignore_managed_block_count, project_files, resolve_skill_target, same_bytes,
    same_managed_text, ManagedFile, ProjectPath, SetupFileOwnership, SkillTarget,
};
use crate::project_receipt;
use crate::project_receipt::{
    build_install_receipt, receipt_bytes, recognizes_runtime_receipt, InstallReceipt,
};
use crate::strings;
use crate::strings::{same_text, utf8_text};

verus! {

/// What is at a path.
#[derive(Debug)]
pub enum PathState {
    Missing,
    /// Something that is not a file.
    Other,
    File { content: Vec<u8>, executable: bool },
}

/// The model of what is at a path.
pub enum State {
    Missing,
    Other,
    File(Seq<u8>, bool),
}

impl View for PathState {
    type V = State;

    open spec fn view(&self) -> State {
        match self {
            PathState::Missing => State::Missing,
            PathState::Other => State::Other,
            PathState::File { content, executable } => State::File(content@, *executable),
        }
    }
}

pub open spec fn state_models(states: Seq<PathState>) -> Seq<State> {
    states.map_values(|state: PathState| state@)
}

/// What is done with a path.
#[derive(Debug, Clone, Copy, PartialEq, Eq, Structural)]
pub enum SetupActionKind {
    Create,
    Replace,
    Unchanged,
    PreserveRepositoryOwned,
    MakeExecutable,
    UpdateGitignore,
    RemoveManaged,
    RemoveRetired,
    UnownedRefusal,
    ModifiedRefusal,
}

impl SetupActionKind {
    pub open spec fn word(self) -> Seq<char> {
        match self {
            SetupActionKind::Create => "create"@,
            SetupActionKind::Replace => "replace"@,
            SetupActionKind::Unchanged => "unchanged"@,
            SetupActionKind::PreserveRepositoryOwned => "preserve_repository_owned"@,
            SetupActionKind::MakeExecutable => "make_executable"@,
            SetupActionKind::UpdateGitignore => "update_gitignore"@,
            SetupActionKind::RemoveManaged => "remove_managed"@,
            SetupActionKind::RemoveRetired => "remove_retired"@,
            SetupActionKind::UnownedRefusal => "unowned_refusal"@,
            SetupActionKind::ModifiedRefusal => "modified_refusal"@,
        }
    }

    pub fn verb(self) -> (verb: &'static str)
        ensures
            verb@ == self.word(),
    {
        match self {
            SetupActionKind::Create => "create",
            SetupActionKind::Replace => "replace",
            SetupActionKind::Unchanged => "unchanged",
            SetupActionKind::PreserveRepositoryOwned => "preserve_repository_owned",
            SetupActionKind::MakeExecutable => "make_executable",
            SetupActionKind::UpdateGitignore => "update_gitignore",
            SetupActionKind::RemoveManaged => "remove_managed",
            SetupActionKind::RemoveRetired => "remove_retired",
            SetupActionKind::UnownedRefusal => "unowned_refusal",
            SetupActionKind::ModifiedRefusal => "modified_refusal",
        }
    }

    pub open spec fn is_refusal(self) -> bool {
        self == SetupActionKind::UnownedRefusal || self == SetupActionKind::ModifiedRefusal
    }
}

#[derive(Debug, Clone, Copy, PartialEq, Eq, Structural)]
pub struct SetupAction {
    pub path: ProjectPath,
    pub action: SetupActionKind,
}

/// What the release holds for the files that it installs.
#[derive(Debug)]
pub struct ReleasePayloads {
    pub binary: Vec<u8>,
    pub bridge: Vec<u8>,
    pub launcher: Vec<u8>,
    pub integration: Vec<u8>,
    pub skill: Vec<u8>,
    pub bridge_skill: Vec<u8>,
    pub openai_metadata: Vec<u8>,
    /// The configuration that a project without one gets.
    pub config: Vec<u8>,
}

impl ReleasePayloads {
    pub open spec fn content(&self, path: ProjectPath) -> Seq<u8> {
        match path {
            ProjectPath::Binary => self.binary@,
            ProjectPath::WindowsBinary => self.binary@,
            ProjectPath::WindowsBridge => self.bridge@,
            ProjectPath::Launcher => self.launcher@,
            ProjectPath::Integration => self.integration@,
            ProjectPath::AgentsSkill => self.skill@,
            ProjectPath::AgentsMetadata => self.openai_metadata@,
            ProjectPath::AgentsBridgeSkill => self.bridge_skill@,
            ProjectPath::ClaudeSkill => self.skill@,
            ProjectPath::ClaudeBridgeSkill => self.bridge_skill@,
            ProjectPath::Config => self.config@,
            _ => Seq::empty(),
        }
    }

    /// What the release holds for a path; nothing for a path that it does not write
    /// as it is.
    pub fn content_of(&self, path: ProjectPath) -> (content: Option<&Vec<u8>>)
        ensures
            match content {
                Some(content) => content@ == self.content(path),
                None => path == ProjectPath::Gitignore || path == ProjectPath::InstallReceipt
                    || path == ProjectPath::PreviousRuntimeReceipt,
            },
    {
        match path {
            ProjectPath::Binary => Some(&self.binary),
            ProjectPath::WindowsBinary => Some(&self.binary),
            ProjectPath::WindowsBridge => Some(&self.bridge),
            ProjectPath::Launcher => Some(&self.launcher),
            ProjectPath::Integration => Some(&self.integration),
            ProjectPath::AgentsSkill => Some(&self.skill),
            ProjectPath::AgentsMetadata => Some(&self.openai_metadata),
            ProjectPath::AgentsBridgeSkill => Some(&self.bridge_skill),
            ProjectPath::ClaudeSkill => Some(&self.skill),
            ProjectPath::ClaudeBridgeSkill => Some(&self.bridge_skill),
            ProjectPath::Config => Some(&self.config),
            _ => None,
        }
    }
}

/// Why an installation or a removal is refused.
#[derive(Debug, Clone, Copy, PartialEq, Eq, Structural)]
pub enum SetupFault {
    /// The file that the release before kept of its binaries is something else.
    RuntimeReceipt,
    GitignoreNotFile,
    GitignoreNotText,
    MultipleBlocks,
    ModifiedBlock,
    /// A file is to be written where something else is.
    NotFile(ProjectPath),
    InvalidConfig,
    NoProfile,
    /// A file is to be removed where something else is.
    RetiredNotFile(ProjectPath),
    /// A skill that no receipt knows is where none is wanted.
    Unowned(ProjectPath),
    RuntimeNotFile(ProjectPath),
    /// The binary that is running would be removed.
    RunningBinary(ProjectPath),
}

/// What an installation is planned from.
#[derive(Debug)]
pub struct SetupInputs {
    /// What is at every path, each in its place.
    pub states: Vec<PathState>,
    /// The receipt that is there.
    pub prior: Option<InstallReceipt>,
    pub payloads: ReleasePayloads,
    /// The profile of the configuration that is there, or why it is none.
    pub config: Result<Option<String>, String>,
    pub requested: SkillTarget,
    /// The project shows signs of a harness with shared skills, and of the one with
    /// skills of its own.
    pub agents: bool,
    pub claude: bool,
    /// The release is one for Windows.
    pub windows: bool,
    pub dry_run: bool,
    /// The profile of a project without configuration.
    pub generated_profile: String,
    /// The name of the harness with skills of its own.
    pub harness: String,
}

/// The model of what an installation is planned from.
pub struct Setup {
    pub states: Seq<State>,
    pub prior: Option<project_receipt::Install>,
    pub contents: spec_fn(ProjectPath) -> Seq<u8>,
    pub config: Result<Option<Seq<char>>, Seq<char>>,
    pub requested: SkillTarget,
    pub agents: bool,
    pub claude: bool,
    pub windows: bool,
    pub dry_run: bool,
    pub profile: Seq<char>,
    pub harness: Seq<char>,
}

impl View for SetupInputs {
    type V = Setup;

    open spec fn view(&self) -> Setup {
        Setup {
            states: state_models(self.states@),
            prior: match self.prior {
                Some(receipt) => Some(receipt@),
                None => None,
            },
            contents: |path: ProjectPath| self.payloads.content(path),
            config: match self.config {
                Ok(profile) => Ok(strings::text_option(profile)),
                Err(detail) => Err(detail@),
            },
            requested: self.requested,
            agents: self.agents,
            claude: self.claude,
            harness: self.harness@,
            windows: self.windows,
            dry_run: self.dry_run,
            profile: self.generated_profile@,
        }
    }
}

/// Whether there is a receipt of the release before, which is to be removed.
pub open spec fn has_runtime_receipt(state: State) -> bool {
    state matches State::File(content, _) && project_receipt::is_runtime_receipt(content)
}

/// Something else than a receipt of the release before is in its place.
pub open spec fn has_strange_runtime_receipt(state: State) -> bool {
    state !is Missing && !has_runtime_receipt(state)
}

/// The list of ignored files, if there is one that can be read.
pub open spec fn ignored_files(state: State) -> Option<Seq<char>> {
    match state {
        State::File(content, _) => if vstd::utf8::valid_utf8(content) {
            Some(vstd::utf8::decode_utf8(content))
        } else {
            None
        },
        _ => None,
    }
}

pub open spec fn gitignore_fault(state: State) -> Option<SetupFault> {
    match state {
        State::Missing => None,
        State::Other => Some(SetupFault::GitignoreNotFile),
        State::File(content, _) => if vstd::utf8::valid_utf8(content) {
            None
        } else {
            Some(SetupFault::GitignoreNotText)
        },
    }
}

/// The first `n` of the paths that a test holds of.
pub open spec fn chosen(
    paths: Seq<ProjectPath>,
    test: spec_fn(ProjectPath) -> bool,
    n: nat,
) -> Seq<ProjectPath>
    decreases n,
{
    if n == 0 || n > paths.len() {
        Seq::empty()
    } else {
        let before = chosen(paths, test, (n - 1) as nat);
        if test(paths[n - 1]) {
            before.push(paths[n - 1])
        } else {
            before
        }
    }
}

/// The first of the paths from here on that a test holds of.
pub open spec fn first_chosen(
    paths: Seq<ProjectPath>,
    test: spec_fn(ProjectPath) -> bool,
    at: int,
) -> Option<ProjectPath>
    decreases paths.len() - at,
{
    if at < 0 || at >= paths.len() {
        None
    } else if test(paths[at]) {
        Some(paths[at])
    } else {
        first_chosen(paths, test, at + 1)
    }
}

pub open spec fn with_kind(paths: Seq<ProjectPath>, action: SetupActionKind) -> Seq<SetupAction> {
    paths.map_values(|path: ProjectPath| SetupAction { path, action })
}

impl Setup {
    pub open spec fn well_formed(self) -> bool {
        self.states.len() == 14
    }

    pub open spec fn state(self, path: ProjectPath) -> State {
        self.states[path.place() as int]
    }

    /// Where the skills go.
    pub open spec fn target(self) -> SkillTarget {
        project_files::resolved_target(
            self.requested,
            match self.prior {
                Some(receipt) => Some(receipt.target),
                None => None,
            },
            self.agents,
            self.claude,
        )
    }

    pub open spec fn files(self) -> Seq<ManagedFile> {
        project_files::installed_files(self.target(), self.windows)
    }

    /// Whether the installation writes a text of the release at the path.
    pub open spec fn desires(self, path: ProjectPath) -> bool {
        exists|i: int|
            0 <= i < self.files().len() && (#[trigger] self.files()[i]).path == path
                && self.files()[i].ownership == SetupFileOwnership::ReleaseManagedText
    }

    /// The texts that the receipt says belong to an installation.
    pub open spec fn owned(self) -> Seq<ProjectPath> {
        match self.prior {
            Some(receipt) => receipt.target.owned(),
            None => Seq::empty(),
        }
    }

    /// What is there and what is wanted are the same.
    pub open spec fn matches_release(self, file: ManagedFile, content: Seq<u8>) -> bool {
        let wanted = (self.contents)(file.path);
        if file.ownership == SetupFileOwnership::ReleaseManagedText {
            project_files::unix_text(content, 0) == project_files::unix_text(wanted, 0)
        } else {
            content == wanted
        }
    }

    /// What is done with a file of the release. The repository's own configuration
    /// is kept as it is.
    pub open spec fn file_action(self, file: ManagedFile) -> SetupActionKind {
        match self.state(file.path) {
            State::File(content, executable) => if file.ownership
                == SetupFileOwnership::RepositoryOwnedConfig {
                SetupActionKind::PreserveRepositoryOwned
            } else if !self.matches_release(file, content) {
                SetupActionKind::Replace
            } else if file.executable && !executable {
                SetupActionKind::MakeExecutable
            } else {
                SetupActionKind::Unchanged
            },
            _ => SetupActionKind::Create,
        }
    }

    pub open spec fn file_fault(self, file: ManagedFile) -> Option<SetupFault> {
        match self.state(file.path) {
            State::Missing => None,
            State::Other => Some(SetupFault::NotFile(file.path)),
            State::File(_, _) => if file.ownership
                != SetupFileOwnership::RepositoryOwnedConfig {
                None
            } else {
                match self.config {
                    Err(_) => Some(SetupFault::InvalidConfig),
                    Ok(None) => Some(SetupFault::NoProfile),
                    Ok(Some(_)) => None,
                }
            },
        }
    }

    /// The first fault of a file from here on.
    pub open spec fn files_fault(self, at: int) -> Option<SetupFault>
        decreases self.files().len() - at,
    {
        if at < 0 || at >= self.files().len() {
            None
        } else {
            match self.file_fault(self.files()[at]) {
                Some(fault) => Some(fault),
                None => self.files_fault(at + 1),
            }
        }
    }

    pub open spec fn file_actions(self) -> Seq<SetupAction> {
        self.files().map_values(
            |file: ManagedFile| SetupAction { path: file.path, action: self.file_action(file) },
        )
    }

    /// A text that belongs to the installation, is there, and is not wanted.
    pub open spec fn is_retired(self, path: ProjectPath) -> bool {
        !self.desires(path) && self.state(path) is File
    }

    pub open spec fn is_stuck(self, path: ProjectPath) -> bool {
        !self.desires(path) && self.state(path) is Other
    }

    pub open spec fn retired(self) -> Seq<ProjectPath> {
        chosen(self.owned(), |path: ProjectPath| self.is_retired(path), self.owned().len())
    }

    /// A skill that is where none is wanted, and does not belong to the installation.
    pub open spec fn is_unowned(self, path: ProjectPath) -> bool {
        !self.desires(path) && !self.owned().contains(path) && self.state(path) !is Missing
    }

    pub open spec fn unowned(self) -> Seq<ProjectPath> {
        chosen(skills(), |path: ProjectPath| self.is_unowned(path), skills().len())
    }

    /// The list of ignored files, empty where there is none.
    pub open spec fn gitignore(self) -> Option<Seq<char>> {
        ignored_files(self.state(ProjectPath::Gitignore))
    }

    pub open spec fn gitignore_text(self) -> Seq<char> {
        match self.gitignore() {
            Some(text) => text,
            None => Seq::empty(),
        }
    }

    pub open spec fn owns_block(self) -> bool {
        self.prior matches Some(receipt) && receipt.block
    }

    /// The entry is there, and the comment that marks it as the installation's is not.
    pub open spec fn block_is_modified(self) -> bool {
        self.owns_block() && project_files::block_count(self.gitignore_text()) == 0
            && project_files::lists_binaries(self.gitignore_text())
    }

    pub open spec fn updated_gitignore(self) -> Seq<char> {
        if self.block_is_modified() {
            self.gitignore_text()
        } else {
            project_files::with_entry(self.gitignore_text())
        }
    }

    pub open spec fn gitignore_action(self) -> SetupActionKind {
        if self.block_is_modified() {
            SetupActionKind::ModifiedRefusal
        } else if self.gitignore() == Some(self.updated_gitignore()) {
            SetupActionKind::Unchanged
        } else if self.gitignore() is Some {
            SetupActionKind::UpdateGitignore
        } else {
            SetupActionKind::Create
        }
    }

    /// The receipt that is written.
    pub open spec fn receipt(self) -> project_receipt::Install {
        project_receipt::current_receipt(
            self.target(),
            self.owns_block() || !project_files::lists_binaries(self.gitignore_text()),
            (self.prior matches Some(receipt) && receipt.file) || self.gitignore() is None,
        )
    }

    pub open spec fn receipt_content(self) -> Seq<u8> {
        vstd::utf8::encode_utf8(project_receipt::receipt_text(self.receipt(), self.harness))
    }

    pub open spec fn receipt_action(self) -> SetupActionKind {
        match self.state(ProjectPath::InstallReceipt) {
            State::File(content, _) => if project_files::unix_text(content, 0)
                == project_files::unix_text(self.receipt_content(), 0) {
                SetupActionKind::Unchanged
            } else {
                SetupActionKind::Replace
            },
            _ => SetupActionKind::Create,
        }
    }

    /// Why the installation is refused; a rehearsal reports what it can instead.
    pub open spec fn fault(self) -> Option<SetupFault> {
        let stuck = first_chosen(self.owned(), |path: ProjectPath| self.is_stuck(path), 0);
        let unowned = first_chosen(skills(), |path: ProjectPath| self.is_unowned(path), 0);
        if has_strange_runtime_receipt(self.state(ProjectPath::PreviousRuntimeReceipt)) {
            Some(SetupFault::RuntimeReceipt)
        } else if let Some(fault) = gitignore_fault(self.state(ProjectPath::Gitignore)) {
            Some(fault)
        } else if project_files::block_count(self.gitignore_text()) > 1 {
            Some(SetupFault::MultipleBlocks)
        } else if self.block_is_modified() && !self.dry_run {
            Some(SetupFault::ModifiedBlock)
        } else if let Some(fault) = self.files_fault(0) {
            Some(fault)
        } else if let Some(path) = stuck {
            Some(SetupFault::RetiredNotFile(path))
        } else if !self.dry_run && unowned is Some {
            Some(SetupFault::Unowned(unowned->Some_0))
        } else {
            None
        }
    }

    /// What the installation does, in order.
    pub open spec fn actions(self) -> Seq<SetupAction> {
        self.file_actions() + with_kind(self.retired(), SetupActionKind::RemoveRetired) + (
        if has_runtime_receipt(self.state(ProjectPath::PreviousRuntimeReceipt)) {
            seq![
                SetupAction {
                    path: ProjectPath::PreviousRuntimeReceipt,
                    action: SetupActionKind::RemoveRetired,
                },
            ]
        } else {
            Seq::empty()
        }) + with_kind(self.unowned(), SetupActionKind::UnownedRefusal) + seq![
            SetupAction { path: ProjectPath::Gitignore, action: self.gitignore_action() },
            SetupAction { path: ProjectPath::InstallReceipt, action: self.receipt_action() },
        ]
    }

    /// The profile that the project has afterwards.
    pub open spec fn profile_after(self) -> Seq<char> {
        if self.state(ProjectPath::Config) is File && (self.config matches Ok(Some(_))) {
            self.config->Ok_0->Some_0
        } else {
            self.profile
        }
    }
}

/// All skills that an installation could own.
pub open spec fn skills() -> Seq<ProjectPath> {
    project_files::agents_skills() + project_files::claude_skills()
}

pub open spec fn some_is_refused(actions: Seq<SetupAction>) -> bool {
    exists|i: int| 0 <= i < actions.len() && (#[trigger] actions[i]).action.is_refusal()
}

/// What an installation does.
#[derive(Debug)]
pub struct SetupPlan {
    pub target: SkillTarget,
    pub files: Vec<ManagedFile>,
    /// Those on the files come first, each in the file's place.
    pub actions: Vec<SetupAction>,
    /// The list of ignored files as it is written.
    pub gitignore: String,
    /// The receipt as it is written.
    pub receipt_text: String,
    pub profile: String,
    /// Nothing stands in the way.
    pub ready: bool,
}

fn any_refusal(actions: &[SetupAction]) -> (held: bool)
    ensures
        held == some_is_refused(actions@),
{
    let mut i: usize = 0;
    while i < actions.len()
        invariant
            i <= actions.len(),
            forall|k: int| 0 <= k < i ==> !(#[trigger] actions@[k]).action.is_refusal(),
        decreases actions.len() - i,
    {
        if matches!(
            actions[i].action,
            SetupActionKind::UnownedRefusal | SetupActionKind::ModifiedRefusal
        ) {
            assert(actions@[i as int].action.is_refusal());
            return true;
        }
        i += 1;
    }
    false
}

fn has_path(paths: &[ProjectPath], path: ProjectPath) -> (held: bool)
    ensures
        held == paths@.contains(path),
{
    let mut i: usize = 0;
    while i < paths.len()
        invariant
            i <= paths.len(),
            forall|k: int| 0 <= k < i ==> paths@[k] != path,
        decreases paths.len() - i,
    {
        if paths[i] == path {
            return true;
        }
        i += 1;
    }
    false
}

fn all_skills() -> (list: Vec<ProjectPath>)
    ensures
        list@ == skills(),
{
    let list: Vec<ProjectPath> = vec![
        ProjectPath::AgentsSkill,
        ProjectPath::AgentsMetadata,
        ProjectPath::AgentsBridgeSkill,
        ProjectPath::ClaudeSkill,
        ProjectPath::ClaudeBridgeSkill,
    ];
    assert(list@ =~= skills());
    list
}

/// The receipt of the release before is there, or nothing is.
pub(crate) fn check_runtime_receipt(state: &PathState) -> (held: Result<bool, SetupFault>)
    ensures
        match held {
            Ok(held) => held == has_runtime_receipt(state@) && !has_strange_runtime_receipt(state@),
            Err(fault) => has_strange_runtime_receipt(state@) && fault
                == SetupFault::RuntimeReceipt,
        },
{
    match state {
        PathState::Missing => Ok(false),
        PathState::Other => Err(SetupFault::RuntimeReceipt),
        PathState::File { content, .. } => if recognizes_runtime_receipt(content) {
            Ok(true)
        } else {
            Err(SetupFault::RuntimeReceipt)
        },
    }
}

pub(crate) fn read_gitignore(state: &PathState) -> (text: Result<Option<String>, SetupFault>)
    ensures
        match text {
            Ok(text) => strings::text_option(text) == ignored_files(state@) && gitignore_fault(
                state@,
            ) is None,
            Err(fault) => gitignore_fault(state@) == Some(fault),
        },
{
    match state {
        PathState::Missing => Ok(None),
        PathState::Other => Err(SetupFault::GitignoreNotFile),
        PathState::File { content, .. } => match utf8_text(content) {
            Some(text) => Ok(Some(text)),
            None => Err(SetupFault::GitignoreNotText),
        },
    }
}

impl SetupInputs {
    fn preflight_setup_file(&self, file: ManagedFile) -> (action: Result<SetupActionKind, SetupFault>)
        requires
            self@.well_formed(),
            file.path != ProjectPath::Gitignore,
            file.path != ProjectPath::InstallReceipt,
            file.path != ProjectPath::PreviousRuntimeReceipt,
        ensures
            match action {
                Ok(action) => self@.file_fault(file) is None && action == self@.file_action(file),
                Err(fault) => self@.file_fault(file) == Some(fault),
            },
    {
        let place = file.path.index();
        assert(self@.states[place as int] == self.states@[place as int]@);
        match &self.states[place] {
            PathState::Missing => Ok(SetupActionKind::Create),
            PathState::Other => Err(SetupFault::NotFile(file.path)),
            PathState::File { content, executable } => {
                if file.ownership == SetupFileOwnership::RepositoryOwnedConfig {
                    return match &self.config {
                        Err(_) => Err(SetupFault::InvalidConfig),
                        Ok(None) => Err(SetupFault::NoProfile),
                        Ok(Some(_)) => Ok(SetupActionKind::PreserveRepositoryOwned),
                    };
                }
                let same = match self.payloads.content_of(file.path) {
                    Some(wanted) => if file.ownership == SetupFileOwnership::ReleaseManagedText {
                        same_managed_text(content, wanted)
                    } else {
                        same_bytes(content, wanted)
                    },
                    None => false,
                };
                if !same {
                    Ok(SetupActionKind::Replace)
                } else if file.executable && !*executable {
                    Ok(SetupActionKind::MakeExecutable)
                } else {
                    Ok(SetupActionKind::Unchanged)
                }
            },
        }
    }

    fn is_desired(&self, files: &[ManagedFile], path: ProjectPath) -> (held: bool)
        requires
            files@ == self@.files(),
        ensures
            held == self@.desires(path),
    {
        let mut i: usize = 0;
        while i < files.len()
            invariant
                i <= files.len(),
                files@ == self@.files(),
                forall|k: int|
                    0 <= k < i ==> !((#[trigger] files@[k]).path == path && files@[k].ownership
                        == SetupFileOwnership::ReleaseManagedText),
            decreases files.len() - i,
        {
            if files[i].path == path && files[i].ownership
                == SetupFileOwnership::ReleaseManagedText {
                assert(self@.files()[i as int].path == path);
                return true;
            }
            i += 1;
        }
        false
    }

    /// Adds what is done with the files of the release.
    fn plan_files(&self, files: &[ManagedFile], actions: &mut Vec<SetupAction>) -> (verdict: Result<
        (),
        SetupFault,
    >)
        requires
            self@.well_formed(),
            files@ == self@.files(),
            old(actions)@.len() == 0,
        ensures
            match verdict {
                Ok(_) => self@.files_fault(0) is None && final(actions)@ == self@.file_actions(),
                Err(fault) => self@.files_fault(0) == Some(fault),
            },
    {
        let ghost wanted = self@.file_actions();
        let mut i: usize = 0;
        assert(actions@ =~= wanted.take(0));
        while i < files.len()
            invariant
                i <= files.len(),
                self@.well_formed(),
                files@ == self@.files(),
                wanted == self@.file_actions(),
                self@.files_fault(i as int) == self@.files_fault(0),
                actions@ == wanted.take(i as int),
            decreases files.len() - i,
        {
            proof {
                lemma_file_paths(self@.target(), self@.windows, i as int);
            }
            match self.preflight_setup_file(files[i]) {
                Ok(action) => {
                    actions.push(SetupAction { path: files[i].path, action });
                    assert(wanted.take(i + 1) =~= wanted.take(i as int).push(wanted[i as int]));
                },
                Err(fault) => {
                    return Err(fault);
                },
            }
            i += 1;
        }
        assert(wanted.take(i as int) =~= wanted);
        Ok(())
    }

    /// Adds the removal of the texts that are not wanted any more.
    fn plan_retired(
        &self,
        files: &[ManagedFile],
        owned: &[ProjectPath],
        actions: &mut Vec<SetupAction>,
    ) -> (verdict: Result<(), SetupFault>)
        requires
            self@.well_formed(),
            files@ == self@.files(),
            owned@ == self@.owned(),
        ensures
            match verdict {
                Ok(_) => {
                    &&& first_chosen(
                        owned@,
                        |path: ProjectPath| self@.is_stuck(path),
                        0,
                    ) is None
                    &&& final(actions)@ == old(actions)@ + with_kind(
                        self@.retired(),
                        SetupActionKind::RemoveRetired,
                    )
                },
                Err(fault) => first_chosen(
                    owned@,
                    |path: ProjectPath| self@.is_stuck(path),
                    0,
                ) matches Some(path) && fault == SetupFault::RetiredNotFile(path),
            },
    {
        let ghost before = actions@;
        let ghost stuck = |path: ProjectPath| self@.is_stuck(path);
        let ghost test = |path: ProjectPath| self@.is_retired(path);
        let mut i: usize = 0;
        assert(with_kind(chosen(owned@, test, 0), SetupActionKind::RemoveRetired) =~= Seq::empty());
        assert(before + Seq::<SetupAction>::empty() =~= before);
        while i < owned.len()
            invariant
                i <= owned.len(),
                self@.well_formed(),
                files@ == self@.files(),
                stuck == (|path: ProjectPath| self@.is_stuck(path)),
                test == (|path: ProjectPath| self@.is_retired(path)),
                first_chosen(owned@, stuck, i as int) == first_chosen(owned@, stuck, 0),
                actions@ == before + with_kind(
                    chosen(owned@, test, i as nat),
                    SetupActionKind::RemoveRetired,
                ),
            decreases owned.len() - i,
        {
            let path = owned[i];
            let place = path.index();
            assert(self@.states[place as int] == self.states@[place as int]@);
            if !self.is_desired(files, path) {
                match &self.states[place] {
                    PathState::Missing => {},
                    PathState::Other => {
                        return Err(SetupFault::RetiredNotFile(path));
                    },
                    PathState::File { .. } => {
                        actions.push(
                            SetupAction { path, action: SetupActionKind::RemoveRetired },
                        );
                    },
                }
            }
            assert(actions@ =~= before + with_kind(
                chosen(owned@, test, (i + 1) as nat),
                SetupActionKind::RemoveRetired,
            ));
            i += 1;
        }
        Ok(())
    }

    /// Adds the skills that stand in the way, or refuses the first of them.
    fn plan_unowned(
        &self,
        files: &[ManagedFile],
        owned: &[ProjectPath],
        actions: &mut Vec<SetupAction>,
    ) -> (verdict: Result<(), SetupFault>)
        requires
            self@.well_formed(),
            files@ == self@.files(),
            owned@ == self@.owned(),
        ensures
            match verdict {
                Ok(_) => {
                    &&& !self.dry_run ==> first_chosen(
                        skills(),
                        |path: ProjectPath| self@.is_unowned(path),
                        0,
                    ) is None
                    &&& final(actions)@ == old(actions)@ + with_kind(
                        self@.unowned(),
                        SetupActionKind::UnownedRefusal,
                    )
                },
                Err(fault) => {
                    &&& !self.dry_run
                    &&& first_chosen(
                        skills(),
                        |path: ProjectPath| self@.is_unowned(path),
                        0,
                    ) matches Some(path) && fault == SetupFault::Unowned(path)
                },
            },
    {
        let list = all_skills();
        let ghost before = actions@;
        let ghost test = |path: ProjectPath| self@.is_unowned(path);
        let mut i: usize = 0;
        assert(with_kind(chosen(list@, test, 0), SetupActionKind::UnownedRefusal) =~= Seq::empty());
        assert(before + Seq::<SetupAction>::empty() =~= before);
        while i < list.len()
            invariant
                i <= list.len(),
                list@ == skills(),
                self@.well_formed(),
                files@ == self@.files(),
                owned@ == self@.owned(),
                test == (|path: ProjectPath| self@.is_unowned(path)),
                !self.dry_run ==> first_chosen(list@, test, i as int) == first_chosen(
                    list@,
                    test,
                    0,
                ),
                actions@ == before + with_kind(
                    chosen(list@, test, i as nat),
                    SetupActionKind::UnownedRefusal,
                ),
            decreases list.len() - i,
        {
            let path = list[i];
            let place = path.index();
            assert(self@.states[place as int] == self.states@[place as int]@);
            let there = match &self.states[place] {
                PathState::Missing => false,
                _ => true,
            };
            if !self.is_desired(files, path) && !has_path(owned, path) && there {
                if !self.dry_run {
                    return Err(SetupFault::Unowned(path));
                }
                actions.push(SetupAction { path, action: SetupActionKind::UnownedRefusal });
            }
            assert(actions@ =~= before + with_kind(
                chosen(list@, test, (i + 1) as nat),
                SetupActionKind::UnownedRefusal,
            ));
            i += 1;
        }
        Ok(())
    }

    fn plan_receipt(&self, text: &str) -> (action: SetupActionKind)
        requires
            self@.well_formed(),
            text@ == project_receipt::receipt_text(self@.receipt(), self@.harness),
        ensures
            action == self@.receipt_action(),
    {
        let place = ProjectPath::InstallReceipt.index();
        assert(self@.states[place as int] == self.states@[place as int]@);
        match &self.states[place] {
            PathState::File { content, .. } => if same_managed_text(content, text.as_bytes()) {
                SetupActionKind::Unchanged
            } else {
                SetupActionKind::Replace
            },
            _ => SetupActionKind::Create,
        }
    }

    fn plan_profile(&self) -> (profile: String)
        requires
            self@.well_formed(),
        ensures
            profile@ == self@.profile_after(),
    {
        let place = ProjectPath::Config.index();
        assert(self@.states[place as int] == self.states@[place as int]@);
        match (&self.states[place], &self.config) {
            (PathState::File { .. }, Ok(Some(profile))) => profile.clone(),
            _ => self.generated_profile.clone(),
        }
    }
}

/// No file of the release is the list of ignored files or a receipt.
proof fn lemma_file_paths(target: SkillTarget, windows: bool, i: int)
    requires
        0 <= i < project_files::installed_files(target, windows).len(),
    ensures
        ({
            let path = project_files::installed_files(target, windows)[i].path;
            &&& path != ProjectPath::Gitignore
            &&& path != ProjectPath::InstallReceipt
            &&& path != ProjectPath::PreviousRuntimeReceipt
        }),
{
}

/// Plans an installation. Files of the release are written as it ships them; the
/// repository's own configuration is kept.
pub fn setup_project(inputs: &SetupInputs) -> (plan: Result<SetupPlan, SetupFault>)
    requires
        inputs@.well_formed(),
    ensures
        match plan {
            Ok(plan) => {
                &&& inputs@.fault() is None
                &&& plan.target == inputs@.target()
                &&& plan.files@ == inputs@.files()
                &&& plan.actions@ == inputs@.actions()
                &&& plan.gitignore@ == inputs@.updated_gitignore()
                &&& plan.receipt_text@ == project_receipt::receipt_text(inputs@.receipt(), inputs@.harness)
                &&& plan.profile@ == inputs@.profile_after()
                &&& plan.ready == !some_is_refused(inputs@.actions())
            },
            Err(fault) => inputs@.fault() == Some(fault),
        },
{
    let installed = match &inputs.prior {
        Some(receipt) => Some(receipt.skill_target),
        None => None,
    };
    let target = resolve_skill_target(inputs.requested, installed, inputs.agents, inputs.claude);
    let files = project_files(target, inputs.windows);
    let owned: Vec<ProjectPath> = match &inputs.prior {
        Some(receipt) => receipt.skill_target.owned_text_paths(),
        None => Vec::new(),
    };
    assert(owned@ =~= inputs@.owned());
    let runtime_place = ProjectPath::PreviousRuntimeReceipt.index();
    assert(inputs@.states[runtime_place as int] == inputs.states@[runtime_place as int]@);
    let runtime_receipt = match check_runtime_receipt(&inputs.states[runtime_place]) {
        Ok(held) => held,
        Err(fault) => {
            return Err(fault);
        },
    };
    let gitignore_place = ProjectPath::Gitignore.index();
    assert(inputs@.states[gitignore_place as int] == inputs.states@[gitignore_place as int]@);
    let existing = match read_gitignore(&inputs.states[gitignore_place]) {
        Ok(existing) => existing,
        Err(fault) => {
            return Err(fault);
        },
    };
    let text = match &existing {
        Some(text) => text.clone(),
        None => {
            let empty = String::new();
            assert(empty@ =~= Seq::empty());
            empty
        },
    };
    assert(text@ == inputs@.gitignore_text());
    let blocks = gitignore_managed_block_count(text.as_str());
    if blocks > 1 {
        return Err(SetupFault::MultipleBlocks);
    }
    let owns_block = match &inputs.prior {
        Some(receipt) => receipt.managed_gitignore_block,
        None => false,
    };
    let owns_file = match &inputs.prior {
        Some(receipt) => receipt.managed_gitignore_file,
        None => false,
    };
    let has_entry = gitignore_has_entry(text.as_str());
    let modified = owns_block && blocks == 0 && has_entry;
    if modified && !inputs.dry_run {
        return Err(SetupFault::ModifiedBlock);
    }
    let gitignore = if modified {
        text.clone()
    } else {
        gitignore_content(Some(text.as_str()))
    };
    let gitignore_action = if modified {
        SetupActionKind::ModifiedRefusal
    } else {
        match &existing {
            Some(existing) => if same_text(existing.as_str(), gitignore.as_str()) {
                SetupActionKind::Unchanged
            } else {
                SetupActionKind::UpdateGitignore
            },
            None => SetupActionKind::Create,
        }
    };
    let receipt = build_install_receipt(
        target,
        owns_block || !has_entry,
        owns_file || existing.is_none(),
    );
    let receipt_text = receipt_bytes(&receipt, inputs.harness.as_str());
    let mut actions: Vec<SetupAction> = Vec::new();
    if let Err(fault) = inputs.plan_files(&files, &mut actions) {
        return Err(fault);
    }
    if let Err(fault) = inputs.plan_retired(&files, &owned, &mut actions) {
        return Err(fault);
    }
    if runtime_receipt {
        actions.push(
            SetupAction {
                path: ProjectPath::PreviousRuntimeReceipt,
                action: SetupActionKind::RemoveRetired,
            },
        );
    }
    if let Err(fault) = inputs.plan_unowned(&files, &owned, &mut actions) {
        return Err(fault);
    }
    actions.push(SetupAction { path: ProjectPath::Gitignore, action: gitignore_action });
    let receipt_action = inputs.plan_receipt(receipt_text.as_str());
    actions.push(SetupAction { path: ProjectPath::InstallReceipt, action: receipt_action });
    assert(actions@ =~= inputs@.actions());
    let ready = !any_refusal(&actions);
    let profile = inputs.plan_profile();
    Ok(SetupPlan { target, files, actions, gitignore, receipt_text, profile, ready })
}

} // verus!
