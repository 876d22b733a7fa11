//! The files of a project installation: which paths it owns, what stands in them,
//! and how the list of ignored files is kept.
use vstd::prelude::*;

use crate::config;
use crate::config::{validate_profile, ProfileFault};
use crate::lines;
use crate::lines::lines_of;
use crate::paths;
use crate::paths::{file_name, to_slashes, Host};
use crate::strings;
use crate::strings::{
    chars_of, join, same_text, same_text_ignoring_case, trim_of, CharClass,
};

verus! {

/// A path of a project that an installation owns or keeps.
#[derive(Debug, Clone, Copy, PartialEq, Eq, Structural)]
pub enum ProjectPath {
    Binary,
    WindowsBinary,
    WindowsBridge,
    Launcher,
    Integration,
    AgentsSkill,
    AgentsMetadata,
    AgentsBridgeSkill,
    ClaudeSkill,
    ClaudeBridgeSkill,
    Config,
    Gitignore,
    InstallReceipt,
    PreviousRuntimeReceipt,
}

impl ProjectPath {
    /// The path below the root of the project; `harness` is the name of the harness that
    /// has skills of its own.
    pub open spec fn text(self, harness: Seq<char>) -> Seq<char> {
        match self {
            ProjectPath::Binary => "tools/contextmink/bin/contextmink"@,
            ProjectPath::WindowsBinary => "tools/contextmink/bin/contextmink.exe"@,
            ProjectPath::WindowsBridge => "tools/contextmink/bin/contextmink-bridge.exe"@,
            ProjectPath::Launcher => "scripts/contextmink"@,
            ProjectPath::Integration => "tools/contextmink/agent_integration.md"@,
            ProjectPath::AgentsSkill => ".agents/skills/contextmink/SKILL.md"@,
            ProjectPath::AgentsMetadata => ".agents/skills/contextmink/agents/openai.yaml"@,
            ProjectPath::AgentsBridgeSkill => ".agents/skills/contextmink-bridge/SKILL.md"@,
            ProjectPath::ClaudeSkill => "."@ + harness + "/skills/contextmink/SKILL.md"@,
            ProjectPath::ClaudeBridgeSkill => "."@ + harness
                + "/skills/contextmink-bridge/SKILL.md"@,
            ProjectPath::Config => ".contextmink.toml"@,
            ProjectPath::Gitignore => ".gitignore"@,
            ProjectPath::InstallReceipt => "tools/contextmink/project-install.json"@,
            ProjectPath::PreviousRuntimeReceipt => "tools/contextmink/bin/runtime-install.json"@,
        }
    }

    /// The path below the root of the project.
    pub fn relative_path(self, harness: &str) -> (text: String)
        ensures
            text@ == self.text(harness@),
    {
        match self {
            ProjectPath::Binary => "tools/contextmink/bin/contextmink".to_owned(),
            ProjectPath::WindowsBinary => "tools/contextmink/bin/contextmink.exe".to_owned(),
            ProjectPath::WindowsBridge => "tools/contextmink/bin/contextmink-bridge.exe".to_owned(),
            ProjectPath::Launcher => "scripts/contextmink".to_owned(),
            ProjectPath::Integration => "tools/contextmink/agent_integration.md".to_owned(),
            ProjectPath::AgentsSkill => ".agents/skills/contextmink/SKILL.md".to_owned(),
            ProjectPath::AgentsMetadata =>
                ".agents/skills/contextmink/agents/openai.yaml".to_owned(),
            ProjectPath::AgentsBridgeSkill =>
                ".agents/skills/contextmink-bridge/SKILL.md".to_owned(),
            ProjectPath::ClaudeSkill => ".".to_owned().concat(harness).concat(
                "/skills/contextmink/SKILL.md",
            ),
            ProjectPath::ClaudeBridgeSkill => ".".to_owned().concat(harness).concat(
                "/skills/contextmink-bridge/SKILL.md",
            ),
            ProjectPath::Config => ".contextmink.toml".to_owned(),
            ProjectPath::Gitignore => ".gitignore".to_owned(),
            ProjectPath::InstallReceipt => "tools/contextmink/project-install.json".to_owned(),
            ProjectPath::PreviousRuntimeReceipt =>
                "tools/contextmink/bin/runtime-install.json".to_owned(),
        }
    }

    /// The place of the path among all of them.
    pub open spec fn place(self) -> nat {
        match self {
            ProjectPath::Binary => 0,
            ProjectPath::WindowsBinary => 1,
            ProjectPath::WindowsBridge => 2,
            ProjectPath::Launcher => 3,
            ProjectPath::Integration => 4,
            ProjectPath::AgentsSkill => 5,
            ProjectPath::AgentsMetadata => 6,
            ProjectPath::AgentsBridgeSkill => 7,
            ProjectPath::ClaudeSkill => 8,
            ProjectPath::ClaudeBridgeSkill => 9,
            ProjectPath::Config => 10,
            ProjectPath::Gitignore => 11,
            ProjectPath::InstallReceipt => 12,
            ProjectPath::PreviousRuntimeReceipt => 13,
        }
    }

    pub fn index(self) -> (place: usize)
        ensures
            place == self.place(),
            place < 14,
    {
        match self {
            ProjectPath::Binary => 0,
            ProjectPath::WindowsBinary => 1,
            ProjectPath::WindowsBridge => 2,
            ProjectPath::Launcher => 3,
            ProjectPath::Integration => 4,
            ProjectPath::AgentsSkill => 5,
            ProjectPath::AgentsMetadata => 6,
            ProjectPath::AgentsBridgeSkill => 7,
            ProjectPath::ClaudeSkill => 8,
            ProjectPath::ClaudeBridgeSkill => 9,
            ProjectPath::Config => 10,
            ProjectPath::Gitignore => 11,
            ProjectPath::InstallReceipt => 12,
            ProjectPath::PreviousRuntimeReceipt => 13,
        }
    }
}

/// All paths of a project that an installation owns or keeps, each in its place.
pub open spec fn project_paths() -> Seq<ProjectPath> {
    seq![
        ProjectPath::Binary,
        ProjectPath::WindowsBinary,
        ProjectPath::WindowsBridge,
        ProjectPath::Launcher,
        ProjectPath::Integration,
        ProjectPath::AgentsSkill,
        ProjectPath::AgentsMetadata,
        ProjectPath::AgentsBridgeSkill,
        ProjectPath::ClaudeSkill,
        ProjectPath::ClaudeBridgeSkill,
        ProjectPath::Config,
        ProjectPath::Gitignore,
        ProjectPath::InstallReceipt,
        ProjectPath::PreviousRuntimeReceipt,
    ]
}

/// All paths of a project that an installation owns or keeps, each in its place.
pub fn all_project_paths() -> (list: Vec<ProjectPath>)
    ensures
        list@ == project_paths(),
        forall|i: int| 0 <= i < list@.len() ==> (#[trigger] list@[i]).place() == i,
{
    let list: Vec<ProjectPath> = vec![
        ProjectPath::Binary,
        ProjectPath::WindowsBinary,
        ProjectPath::WindowsBridge,
        ProjectPath::Launcher,
        ProjectPath::Integration,
        ProjectPath::AgentsSkill,
        ProjectPath::AgentsMetadata,
        ProjectPath::AgentsBridgeSkill,
        ProjectPath::ClaudeSkill,
        ProjectPath::ClaudeBridgeSkill,
        ProjectPath::Config,
        ProjectPath::Gitignore,
        ProjectPath::InstallReceipt,
        ProjectPath::PreviousRuntimeReceipt,
    ];
    assert(list@ =~= project_paths());
    list
}

/// Where the skills of a project are installed.
#[derive(Debug, Clone, Copy, PartialEq, Eq, Structural)]
pub enum SkillTarget {
    /// Where the receipt says, or where the project shows signs of a harness.
    Auto,
    Agents,
    Claude,
    Both,
    Unselected,
}

impl SkillTarget {
    /// The target's name; `harness` is the name of the harness that has skills of its
    /// own.
    pub open spec fn word(self, harness: Seq<char>) -> Seq<char> {
        match self {
            SkillTarget::Auto => "auto"@,
            SkillTarget::Agents => "agents"@,
            SkillTarget::Claude => harness,
            SkillTarget::Both => "both"@,
            SkillTarget::Unselected => "none"@,
        }
    }

    pub open spec fn has_agents(self) -> bool {
        self == SkillTarget::Agents || self == SkillTarget::Both
    }

    pub open spec fn has_claude(self) -> bool {
        self == SkillTarget::Claude || self == SkillTarget::Both
    }

    /// The texts that an installation for this target owns. The bridge's skills are
    /// among them on every host: their names are taken even where nothing is there.
    pub open spec fn owned(self) -> Seq<ProjectPath> {
        seq![ProjectPath::Launcher, ProjectPath::Integration] + (if self.has_agents() {
            agents_skills()
        } else {
            Seq::empty()
        }) + (if self.has_claude() {
            claude_skills()
        } else {
            Seq::empty()
        })
    }

    pub fn as_str<'a>(self, harness: &'a str) -> (word: &'a str)
        ensures
            word@ == self.word(harness@),
    {
        match self {
            SkillTarget::Auto => "auto",
            SkillTarget::Agents => "agents",
            SkillTarget::Claude => harness,
            SkillTarget::Both => "both",
            SkillTarget::Unselected => "none",
        }
    }

    pub fn installs_agents(self) -> (held: bool)
        ensures
            held == self.has_agents(),
    {
        matches!(self, SkillTarget::Agents | SkillTarget::Both)
    }

    pub fn installs_claude(self) -> (held: bool)
        ensures
            held == self.has_claude(),
    {
        matches!(self, SkillTarget::Claude | SkillTarget::Both)
    }

    /// The texts that an installation for this target owns.
    pub fn owned_text_paths(self) -> (list: Vec<ProjectPath>)
        ensures
            list@ == self.owned(),
    {
        let mut list: Vec<ProjectPath> = vec![ProjectPath::Launcher, ProjectPath::Integration];
        if self.installs_agents() {
            list.push(ProjectPath::AgentsSkill);
            list.push(ProjectPath::AgentsMetadata);
            list.push(ProjectPath::AgentsBridgeSkill);
        }
        if self.installs_claude() {
            list.push(ProjectPath::ClaudeSkill);
            list.push(ProjectPath::ClaudeBridgeSkill);
        }
        assert(list@ =~= self.owned());
        list
    }
}

pub open spec fn agents_skills() -> Seq<ProjectPath> {
    seq![ProjectPath::AgentsSkill, ProjectPath::AgentsMetadata, ProjectPath::AgentsBridgeSkill]
}

pub open spec fn claude_skills() -> Seq<ProjectPath> {
    seq![ProjectPath::ClaudeSkill, ProjectPath::ClaudeBridgeSkill]
}

/// The binaries that an installation owns, of every host.
pub open spec fn runtimes() -> Seq<ProjectPath> {
    seq![ProjectPath::Binary, ProjectPath::WindowsBinary, ProjectPath::WindowsBridge]
}

/// Who a file belongs to, once it is installed.
#[derive(Debug, Clone, Copy, PartialEq, Eq, Structural)]
pub enum SetupFileOwnership {
    ReleaseManagedRuntime,
    ReleaseManagedText,
    RepositoryOwnedConfig,
}

/// A file that an installation writes.
#[derive(Debug, Clone, Copy, PartialEq, Eq, Structural)]
pub struct ManagedFile {
    pub path: ProjectPath,
    pub executable: bool,
    pub ownership: SetupFileOwnership,
}

pub open spec fn text_file(path: ProjectPath) -> ManagedFile {
    ManagedFile {
        path,
        executable: false,
        ownership: SetupFileOwnership::ReleaseManagedText,
    }
}

pub open spec fn runtime_file(path: ProjectPath) -> ManagedFile {
    ManagedFile {
        path,
        executable: true,
        ownership: SetupFileOwnership::ReleaseManagedRuntime,
    }
}

/// The skills that a target selects, with those of the bridge where the binary is
/// one for Windows.
pub open spec fn skill_files(target: SkillTarget, windows: bool) -> Seq<ManagedFile> {
    (if target.has_agents() {
        seq![text_file(ProjectPath::AgentsSkill), text_file(ProjectPath::AgentsMetadata)]
    } else {
        Seq::empty()
    }) + (if target.has_claude() {
        seq![text_file(ProjectPath::ClaudeSkill)]
    } else {
        Seq::empty()
    }) + (if windows && target.has_agents() {
        seq![text_file(ProjectPath::AgentsBridgeSkill)]
    } else {
        Seq::empty()
    }) + (if windows && target.has_claude() {
        seq![text_file(ProjectPath::ClaudeBridgeSkill)]
    } else {
        Seq::empty()
    })
}

fn skill_file(path: ProjectPath) -> (file: ManagedFile)
    ensures
        file == text_file(path),
{
    ManagedFile {
        path,
        executable: false,
        ownership: SetupFileOwnership::ReleaseManagedText,
    }
}

fn push_skills(files: &mut Vec<ManagedFile>, target: SkillTarget, windows: bool)
    ensures
        final(files)@ == old(files)@ + skill_files(target, windows),
{
    if target.installs_agents() {
        files.push(skill_file(ProjectPath::AgentsSkill));
        files.push(skill_file(ProjectPath::AgentsMetadata));
    }
    if target.installs_claude() {
        files.push(skill_file(ProjectPath::ClaudeSkill));
    }
    if windows && target.installs_agents() {
        files.push(skill_file(ProjectPath::AgentsBridgeSkill));
    }
    if windows && target.installs_claude() {
        files.push(skill_file(ProjectPath::ClaudeBridgeSkill));
    }
    assert(files@ =~= old(files)@ + skill_files(target, windows));
}

/// The skills that a target selects.
pub fn contextmink_skill_files(target: SkillTarget, windows: bool) -> (files: Vec<ManagedFile>)
    ensures
        files@ == skill_files(target, windows),
{
    let mut files: Vec<ManagedFile> = Vec::new();
    push_skills(&mut files, target, windows);
    assert(files@ =~= skill_files(target, windows));
    files
}

/// The files that an installation writes, in order.
pub open spec fn installed_files(target: SkillTarget, windows: bool) -> Seq<ManagedFile> {
    seq![
        runtime_file(
            if windows {
                ProjectPath::WindowsBinary
            } else {
                ProjectPath::Binary
            },
        ),
        ManagedFile {
            path: ProjectPath::Launcher,
            executable: true,
            ownership: SetupFileOwnership::ReleaseManagedText,
        },
        ManagedFile {
            path: ProjectPath::Config,
            executable: false,
            ownership: SetupFileOwnership::RepositoryOwnedConfig,
        },
        text_file(ProjectPath::Integration),
    ] + skill_files(target, windows) + (if windows {
        seq![runtime_file(ProjectPath::WindowsBridge)]
    } else {
        Seq::empty()
    })
}

/// The files that an installation writes, in order.
pub fn project_files(target: SkillTarget, windows: bool) -> (files: Vec<ManagedFile>)
    ensures
        files@ == installed_files(target, windows),
{
    let binary = if windows {
        ProjectPath::WindowsBinary
    } else {
        ProjectPath::Binary
    };
    let mut files: Vec<ManagedFile> = Vec::new();
    files.push(
        ManagedFile {
            path: binary,
            executable: true,
            ownership: SetupFileOwnership::ReleaseManagedRuntime,
        },
    );
    files.push(
        ManagedFile {
            path: ProjectPath::Launcher,
            executable: true,
            ownership: SetupFileOwnership::ReleaseManagedText,
        },
    );
    files.push(
        ManagedFile {
            path: ProjectPath::Config,
            executable: false,
            ownership: SetupFileOwnership::RepositoryOwnedConfig,
        },
    );
    files.push(skill_file(ProjectPath::Integration));
    push_skills(&mut files, target, windows);
    if windows {
        files.push(
            ManagedFile {
                path: ProjectPath::WindowsBridge,
                executable: true,
                ownership: SetupFileOwnership::ReleaseManagedRuntime,
            },
        );
    }
    assert(files@ =~= installed_files(target, windows));
    files
}

/// Whether the release is one for Windows, by the name of its binary.
pub fn release_is_for_windows(name: &str) -> (windows: Result<bool, String>)
    ensures
        match windows {
            Ok(windows) => if windows {
                strings::same_ignoring_case(name@, "contextmink.exe"@)
            } else {
                name@ == "contextmink"@ && !strings::same_ignoring_case(
                    name@,
                    "contextmink.exe"@,
                )
            },
            Err(message) => {
                &&& name@ != "contextmink"@
                &&& !strings::same_ignoring_case(name@, "contextmink.exe"@)
                &&& message@
                    == "setup-project source binary must be named contextmink or contextmink.exe, found "@
                    + strings::debug_quoted(name@)
            },
        },
{
    if same_text_ignoring_case(name, "contextmink.exe") {
        Ok(true)
    } else if same_text(name, "contextmink") {
        Ok(false)
    } else {
        Err(
            "setup-project source binary must be named contextmink or contextmink.exe, found ".to_owned().concat(
                strings::debug_text(name).as_str(),
            ),
        )
    }
}

/// A project for the harness with skills of its own also gets the shared ones.
pub open spec fn canonical_target(target: SkillTarget) -> SkillTarget {
    if target == SkillTarget::Claude {
        SkillTarget::Both
    } else {
        target
    }
}

pub fn canonical_skill_target(target: SkillTarget) -> (canonical: SkillTarget)
    ensures
        canonical == canonical_target(target),
{
    if target == SkillTarget::Claude {
        SkillTarget::Both
    } else {
        target
    }
}

/// The directories and files that show a harness, whether each is a directory, and
/// whether it shows the harness that has skills of its own.
pub open spec fn markers(harness: Seq<char>) -> Seq<(Seq<char>, bool, bool)> {
    seq![
        (".agents"@, true, false),
        (".codex"@, true, false),
        (".cursor"@, true, false),
        (".pi"@, true, false),
        (".omp"@, true, false),
        (".opencode"@, true, false),
        ("AGENTS.md"@, false, false),
        ("opencode.json"@, false, false),
        ("opencode.jsonc"@, false, false),
        ("."@ + harness, true, true),
        (strings::upper(harness) + ".md"@, false, true),
    ]
}

/// A directory or a file that shows a harness.
#[derive(Debug)]
pub struct HarnessMarker {
    pub path: String,
    pub is_directory: bool,
    pub is_claude: bool,
}

/// The directories and files that show a harness.
pub fn harness_markers(harness: &str) -> (list: Vec<HarnessMarker>)
    ensures
        Seq::new(
            list@.len(),
            |i: int| (list@[i].path@, list@[i].is_directory, list@[i].is_claude),
        ) == markers(harness@),
{
    let list: Vec<HarnessMarker> = vec![
        HarnessMarker { path: ".agents".to_owned(), is_directory: true, is_claude: false },
        HarnessMarker { path: ".codex".to_owned(), is_directory: true, is_claude: false },
        HarnessMarker { path: ".cursor".to_owned(), is_directory: true, is_claude: false },
        HarnessMarker { path: ".pi".to_owned(), is_directory: true, is_claude: false },
        HarnessMarker { path: ".omp".to_owned(), is_directory: true, is_claude: false },
        HarnessMarker { path: ".opencode".to_owned(), is_directory: true, is_claude: false },
        HarnessMarker { path: "AGENTS.md".to_owned(), is_directory: false, is_claude: false },
        HarnessMarker { path: "opencode.json".to_owned(), is_directory: false, is_claude: false },
        HarnessMarker { path: "opencode.jsonc".to_owned(), is_directory: false, is_claude: false },
        HarnessMarker { path: ".".to_owned().concat(harness), is_directory: true, is_claude: true },
        HarnessMarker { path: strings::to_upper(harness).concat(".md"), is_directory: false, is_claude: true },
    ];
    assert(Seq::new(
        list@.len(),
        |i: int| (list@[i].path@, list@[i].is_directory, list@[i].is_claude),
    ) =~= markers(harness@));
    list
}

/// Where the skills go: where they are asked for, where they already are, or where
/// the project shows signs of a harness.
pub open spec fn resolved_target(
    requested: SkillTarget,
    installed: Option<SkillTarget>,
    agents: bool,
    claude: bool,
) -> SkillTarget {
    if requested != SkillTarget::Auto {
        canonical_target(requested)
    } else if installed is Some {
        canonical_target(installed->Some_0)
    } else if claude {
        SkillTarget::Both
    } else if agents {
        SkillTarget::Agents
    } else {
        SkillTarget::Unselected
    }
}

/// Where the skills go; the two flags say whether the project shows signs of
/// a harness with shared skills, and of the one with skills of its own.
pub fn resolve_skill_target(
    requested: SkillTarget,
    installed: Option<SkillTarget>,
    agents: bool,
    claude: bool,
) -> (target: SkillTarget)
    ensures
        target == resolved_target(requested, installed, agents, claude),
        installed != Some(SkillTarget::Auto) ==> target != SkillTarget::Auto && target
            != SkillTarget::Claude,
{
    if requested != SkillTarget::Auto {
        return canonical_skill_target(requested);
    }
    if let Some(installed) = installed {
        return canonical_skill_target(installed);
    }
    if claude {
        SkillTarget::Both
    } else if agents {
        SkillTarget::Agents
    } else {
        SkillTarget::Unselected
    }
}

/// Why a project has no profile.
#[derive(Debug)]
pub enum RootFault {
    /// Its directory has no name.
    Unnamed,
    Profile { fault: ProfileFault },
}

/// The profile of a project is the name of its directory.
pub fn project_profile(root: &str, host: Host) -> (profile: Result<String, RootFault>)
    ensures
        ({
            let name = paths::name_of(root@, host);
            match profile {
                Ok(profile) => {
                    &&& name is Some
                    &&& profile@ == strings::trim(name->Some_0)
                    &&& profile@.len() > 0
                    &&& config::profile_fault(profile@) is None
                },
                Err(RootFault::Unnamed) => name is None || strings::trim(name->Some_0).len() == 0,
                Err(RootFault::Profile { fault }) => {
                    &&& name is Some
                    &&& strings::trim(name->Some_0).len() > 0
                    &&& config::profile_fault(strings::trim(name->Some_0)) == Some(fault)
                },
            }
        }),
{
    let name = match file_name(root, host) {
        Some(name) => trim_of(name.as_str()),
        None => {
            return Err(RootFault::Unnamed);
        },
    };
    if name.as_str().is_empty() {
        return Err(RootFault::Unnamed);
    }
    match validate_profile(name.as_str()) {
        Ok(_) => Ok(name),
        Err(fault) => Err(RootFault::Profile { fault }),
    }
}

/// A path with slashes.
pub fn normalized_path(path: &str) -> (text: String)
    ensures
        text@ == paths::slashes(path@),
{
    to_slashes(path)
}

/// Text with every carriage return in front of a line feed left out.
pub open spec fn unix_text(content: Seq<u8>, at: int) -> Seq<u8>
    decreases content.len() - at,
{
    if at < 0 || at >= content.len() {
        Seq::empty()
    } else if content[at] == 0x0d && at + 1 < content.len() && content[at + 1] == 0x0a {
        seq![0x0au8] + unix_text(content, at + 2)
    } else {
        seq![content[at]] + unix_text(content, at + 1)
    }
}

/// Text with every carriage return in front of a line feed left out.
pub fn canonical_managed_text(content: &[u8]) -> (canonical: Vec<u8>)
    ensures
        canonical@ == unix_text(content@, 0),
{
    let mut canonical: Vec<u8> = Vec::new();
    let mut i: usize = 0;
    assert(canonical@ + unix_text(content@, 0) =~= unix_text(content@, 0));
    while i < content.len()
        invariant
            i <= content.len(),
            canonical@ + unix_text(content@, i as int) == unix_text(content@, 0),
        decreases content.len() - i,
    {
        let ghost before = canonical@;
        if content[i] == 0x0d && content.len() - i > 1 && content[i + 1] == 0x0a {
            canonical.push(0x0a);
            assert(canonical@ + unix_text(content@, i + 2) =~= before + unix_text(
                content@,
                i as int,
            ));
            i += 2;
        } else {
            canonical.push(content[i]);
            assert(canonical@ + unix_text(content@, i + 1) =~= before + unix_text(
                content@,
                i as int,
            ));
            i += 1;
        }
    }
    assert(canonical@ + unix_text(content@, i as int) =~= canonical@);
    canonical
}

/// Whether texts are the same but for the form of their line ends.
pub fn same_managed_text(left: &[u8], right: &[u8]) -> (same: bool)
    ensures
        same == (unix_text(left@, 0) == unix_text(right@, 0)),
{
    same_bytes(&canonical_managed_text(left), &canonical_managed_text(right))
}

/// Whether two lists of bytes are the same.
pub fn same_bytes(left: &[u8], right: &[u8]) -> (same: bool)
    ensures
        same == (left@ == right@),
{
    if left.len() != right.len() {
        return false;
    }
    let mut i: usize = 0;
    while i < left.len()
        invariant
            i <= left.len(),
            left@.len() == right@.len(),
            forall|k: int| 0 <= k < i ==> left@[k] == right@[k],
        decreases left.len() - i,
    {
        if left[i] != right[i] {
            assert(left@[i as int] != right@[i as int]);
            return false;
        }
        i += 1;
    }
    assert(left@ =~= right@);
    true
}

/// Whether a mode lets nobody execute.
pub fn executable_bit_missing(mode: u32) -> (missing: bool)
    ensures
        missing == (mode & 0o111 == 0),
{
    mode & 0o111 == 0
}

/// A mode that lets everybody read and execute, and its owner write.
pub fn ensure_executable(mode: u32) -> (executable: u32)
    ensures
        executable == mode | 0o755,
        executable & 0o755 == 0o755,
        executable & 0o111 != 0,
{
    let executable = mode | 0o755;
    assert(executable & 0o755 == 0o755 && executable & 0o111 != 0) by (bit_vector)
        requires
            executable == mode | 0o755,
    ;
    executable
}

pub const GITIGNORE_COMMENT: &'static str = "# contextmink project-local release binaries";

pub const GITIGNORE_ENTRY: &'static str = "/tools/contextmink/bin/";

pub open spec fn is_entry(line: Seq<char>) -> bool {
    strings::trim(line) == GITIGNORE_ENTRY@
}

pub open spec fn is_comment(line: Seq<char>) -> bool {
    strings::trim(line) == GITIGNORE_COMMENT@
}

/// Whether one of the lines ignores the binaries.
pub open spec fn lists_binaries(text: Seq<char>) -> bool {
    exists|i: int|
        0 <= i < lines::text_lines(text).len() && is_entry(#[trigger] lines::text_lines(text)[i])
}

/// Whether the lines at a place are those that an installation writes.
pub open spec fn is_block(all: Seq<Seq<char>>, i: int) -> bool {
    0 <= i && i + 1 < all.len() && is_comment(all[i]) && is_entry(all[i + 1])
}

/// How many blocks start in the first `n` lines.
pub open spec fn blocks_in(all: Seq<Seq<char>>, n: nat) -> nat
    decreases n,
{
    if n == 0 {
        0
    } else {
        blocks_in(all, (n - 1) as nat) + if is_block(all, n - 1) {
            1nat
        } else {
            0
        }
    }
}

pub open spec fn block_count(text: Seq<char>) -> nat {
    blocks_in(lines::text_lines(text), lines::text_lines(text).len())
}

/// The block that an installation writes.
pub open spec fn block() -> Seq<char> {
    GITIGNORE_COMMENT@ + "\n"@ + GITIGNORE_ENTRY@ + "\n"@
}

/// A text that ends its last line.
pub open spec fn ended(text: Seq<char>) -> Seq<char> {
    if text.len() == 0 || text.last() == '\n' {
        text
    } else {
        text + "\n"@
    }
}

/// A text that ends in a blank line.
pub open spec fn spaced(text: Seq<char>) -> Seq<char> {
    if text.len() == 0 || "\n\n"@.is_suffix_of(text) {
        text
    } else {
        text + "\n"@
    }
}

/// The list of ignored files with an entry for the binaries.
pub open spec fn with_entry(text: Seq<char>) -> Seq<char> {
    if lists_binaries(text) {
        text
    } else {
        spaced(ended(text)) + block()
    }
}

/// Whether a list of ignored files has an entry for the binaries.
pub fn gitignore_has_entry(existing: &str) -> (held: bool)
    ensures
        held == lists_binaries(existing@),
{
    let all = lines_of(existing);
    let ghost texts = strings::texts(all@);
    let mut i: usize = 0;
    while i < all.len()
        invariant
            i <= all.len(),
            texts == strings::texts(all@),
            texts == lines::text_lines(existing@),
            forall|k: int| 0 <= k < i ==> !is_entry(#[trigger] texts[k]),
        decreases all.len() - i,
    {
        assert(texts[i as int] == all@[i as int]@);
        if same_text(trim_of(all[i].as_str()).as_str(), GITIGNORE_ENTRY) {
            assert(is_entry(lines::text_lines(existing@)[i as int]));
            return true;
        }
        i += 1;
    }
    false
}

/// The list of ignored files with an entry for the binaries.
pub fn gitignore_content(existing: Option<&str>) -> (content: String)
    ensures
        content@ == with_entry(
            match existing {
                Some(existing) => existing@,
                None => Seq::empty(),
            },
        ),
{
    let text = match existing {
        Some(existing) => existing.to_owned(),
        None => {
            let empty = String::new();
            assert(empty@ =~= Seq::empty());
            empty
        },
    };
    if gitignore_has_entry(text.as_str()) {
        return text;
    }
    let chars = chars_of(text.as_str());
    let mut output = text.clone();
    if chars.len() > 0 && chars[chars.len() - 1] != '\n' {
        output.append("\n");
    }
    assert(output@ =~= ended(text@));
    let ghost first = output@;
    if !output.as_str().is_empty() && !strings::ends_with(output.as_str(), "\n\n") {
        output.append("\n");
    }
    assert(output@ =~= spaced(first));
    output.append(GITIGNORE_COMMENT);
    output.append("\n");
    output.append(GITIGNORE_ENTRY);
    output.append("\n");
    assert(output@ =~= with_entry(text@));
    output
}

fn starts_block(all: &Vec<String>, i: usize) -> (held: bool)
    requires
        i < all@.len(),
    ensures
        held == is_block(strings::texts(all@), i as int),
{
    let ghost texts = strings::texts(all@);
    assert(texts.len() == all@.len());
    if all.len() - i < 2 {
        return false;
    }
    assert(texts[i as int] == all@[i as int]@);
    assert(texts[i + 1] == all@[i + 1]@);
    same_text(trim_of(all[i].as_str()).as_str(), GITIGNORE_COMMENT) && same_text(
        trim_of(all[i + 1].as_str()).as_str(),
        GITIGNORE_ENTRY,
    )
}

/// How many blocks of an installation a list of ignored files has.
pub fn gitignore_managed_block_count(existing: &str) -> (count: usize)
    ensures
        count == block_count(existing@),
{
    let all = lines_of(existing);
    let ghost texts = strings::texts(all@);
    assert(texts.len() == all@.len());
    let mut count: usize = 0;
    let mut i: usize = 0;
    while i < all.len()
        invariant
            i <= all.len(),
            texts == strings::texts(all@),
            count <= i,
            count == blocks_in(texts, i as nat),
        decreases all.len() - i,
    {
        if starts_block(&all, i) {
            count += 1;
        }
        i += 1;
    }
    count
}

/// Where the first block from here on starts.
pub open spec fn first_block(all: Seq<Seq<char>>, at: int) -> int
    decreases all.len() - at,
{
    if at < 0 || at >= all.len() || is_block(all, at) {
        at
    } else {
        first_block(all, at + 1)
    }
}

/// Lines without the empty ones at their end.
pub open spec fn without_empty_tail(all: Seq<Seq<char>>) -> Seq<Seq<char>>
    decreases all.len(),
{
    if all.len() > 0 && all.last().len() == 0 {
        without_empty_tail(all.drop_last())
    } else {
        all
    }
}

/// Lines as a text, each of them ended.
pub open spec fn as_text(all: Seq<Seq<char>>) -> Seq<char> {
    let joined = strings::join_texts(all, "\n"@);
    if joined.len() == 0 {
        joined
    } else {
        joined + "\n"@
    }
}

/// The list of ignored files without the block of an installation; `None` where
/// there is more than one.
pub open spec fn without_block(text: Seq<char>) -> Option<Seq<char>> {
    let all = lines::text_lines(text);
    if block_count(text) == 0 {
        Some(text)
    } else if block_count(text) > 1 {
        None
    } else {
        let at = first_block(all, 0);
        Some(as_text(without_empty_tail(all.remove(at).remove(at))))
    }
}

proof fn lemma_first_block(all: Seq<Seq<char>>, at: int)
    requires
        0 <= at <= all.len(),
        blocks_in(all, all.len()) > blocks_in(all, at as nat),
    ensures
        at <= first_block(all, at) < all.len(),
        is_block(all, first_block(all, at)),
    decreases all.len() - at,
{
    if at < all.len() && !is_block(all, at) {
        lemma_first_block(all, at + 1);
    }
}

/// The list of ignored files without the block of an installation.
pub fn gitignore_without_managed_block(existing: &str) -> (content: Result<String, &'static str>)
    ensures
        match content {
            Ok(content) => without_block(existing@) == Some(content@),
            Err(message) => {
                &&& without_block(existing@) is None
                &&& message@
                    == "uninstall-project found multiple Contextmink-managed blocks in .gitignore; consolidate them deliberately before retrying"@
            },
        },
{
    let count = gitignore_managed_block_count(existing);
    if count == 0 {
        return Ok(existing.to_owned());
    }
    if count > 1 {
        return Err(
            "uninstall-project found multiple Contextmink-managed blocks in .gitignore; consolidate them deliberately before retrying",
        );
    }
    let mut all = lines_of(existing);
    let ghost texts = strings::texts(all@);
    assert(texts.len() == all@.len());
    proof {
        lemma_first_block(texts, 0);
    }
    let mut at: usize = 0;
    while !starts_block(&all, at)
        invariant
            at <= first_block(texts, 0) < all@.len(),
            texts == strings::texts(all@),
            is_block(texts, first_block(texts, 0)),
            first_block(texts, at as int) == first_block(texts, 0),
        decreases all.len() - at,
    {
        at += 1;
    }
    all.remove(at);
    assert(strings::texts(all@) =~= texts.remove(at as int));
    all.remove(at);
    assert(strings::texts(all@) =~= texts.remove(at as int).remove(at as int));
    let ghost kept = strings::texts(all@);
    while all.len() > 0 && all[all.len() - 1].as_str().is_empty()
        invariant
            without_empty_tail(strings::texts(all@)) == without_empty_tail(kept),
        decreases all.len(),
    {
        let ghost before = strings::texts(all@);
        assert(before.last() == all@[all@.len() - 1]@);
        all.pop();
        assert(strings::texts(all@) =~= before.drop_last());
    }
    proof {
        let rest = strings::texts(all@);
        if rest.len() > 0 {
            assert(rest.last() == all@[all@.len() - 1]@);
        }
        assert(without_empty_tail(rest) == rest);
    }
    let joined = join(&all, "\n");
    if joined.as_str().is_empty() {
        Ok(joined)
    } else {
        Ok(joined.concat("\n"))
    }
}

proof fn lemma_trim_keeps(text: Seq<char>)
    requires
        text.len() > 0,
        !strings::is_space(text[0]),
        !strings::is_space(text.last()),
    ensures
        strings::trim(text) == text,
{
    assert(strings::trim_start(text, CharClass::Space) =~= text);
    assert(strings::trim_end(text, CharClass::Space) =~= text);
}

/// The lines of the block are the comment and the entry.
pub proof fn lemma_block()
    ensures
        lines::text_lines(block()) == seq![GITIGNORE_COMMENT@, GITIGNORE_ENTRY@],
        is_comment(GITIGNORE_COMMENT@),
        is_entry(GITIGNORE_ENTRY@),
        !is_entry(GITIGNORE_COMMENT@),
        !is_comment(GITIGNORE_ENTRY@),
        !is_comment(Seq::empty()),
        !is_entry(Seq::empty()),
        block().len() > 0,
        block().last() == '\n',
{
    reveal_strlit("# contextmink project-local release binaries");
    reveal_strlit("/tools/contextmink/bin/");
    reveal_strlit("\n");
    let comment = GITIGNORE_COMMENT@;
    let entry = GITIGNORE_ENTRY@;
    assert(comment == "# contextmink project-local release binaries"@);
    assert(entry == "/tools/contextmink/bin/"@);
    assert("\n"@ =~= seq!['\n']);
    lemma_trim_keeps(comment);
    lemma_trim_keeps(entry);
    assert(comment[0] == '#');
    assert(entry[0] == '/');
    lines::line_of_ended_text(comment);
    lines::line_of_ended_text(entry);
    let first = comment.push('\n');
    let second = entry.push('\n');
    lines::lines_of_joined_texts(first, second);
    assert(block() =~= first + second);
    assert(lines::text_lines(block()) =~= seq![comment, entry]);
    let none = Seq::<char>::empty();
    assert(strings::trim(none) =~= none);
}

pub proof fn lemma_one_block(all: Seq<Seq<char>>, at: int, n: nat)
    requires
        0 <= at < all.len(),
        n <= all.len(),
        forall|i: int| 0 <= i < all.len() ==> #[trigger] is_block(all, i) == (i == at),
    ensures
        blocks_in(all, n) == if n > at {
            1nat
        } else {
            0
        },
    decreases n,
{
    if n > 0 {
        lemma_one_block(all, at, (n - 1) as nat);
        assert(is_block(all, n - 1) == (n - 1 == at));
    }
}

proof fn lemma_first_is(all: Seq<Seq<char>>, at: int, from: int)
    requires
        0 <= from <= at < all.len(),
        forall|i: int| 0 <= i < all.len() ==> #[trigger] is_block(all, i) == (i == at),
    ensures
        first_block(all, from) == at,
    decreases at - from,
{
    assert(is_block(all, from) == (from == at));
    if from < at {
        lemma_first_is(all, at, from + 1);
    }
}

/// Removing the block undoes adding it: a list of ignored files without an entry for
/// the binaries, carriage returns and empty lines at its end is as it was, with its
/// last line ended.
pub proof fn removing_the_block_undoes_adding_it(text: Seq<char>)
    requires
        !lists_binaries(text),
        forall|i: int| 0 <= i < text.len() ==> #[trigger] text[i] != '\r',
        text.len() > 0 ==> lines::text_lines(ended(text)).last().len() > 0,
    ensures
        without_block(with_entry(text)) == Some(ended(text)),
{
    reveal_strlit("\n");
    reveal_strlit("\n\n");
    assert("\n"@ =~= seq!['\n']);
    assert("\n\n"@ =~= seq!['\n', '\n']);
    lemma_block();
    let base = ended(text);
    let blank = seq!['\n'];
    if text.len() == 0 {
        assert(spaced(base) + block() =~= block());
        let all = lines::text_lines(block());
        assert(all.len() == 2);
        assert forall|i: int| 0 <= i < all.len() implies #[trigger] is_block(all, i) == (i == 0) by {}
        lemma_one_block(all, 0, 2);
        lemma_first_is(all, 0, 0);
        let rest = all.remove(0).remove(0);
        assert(rest =~= Seq::empty());
        assert(without_empty_tail(rest) =~= Seq::empty());
        assert(strings::join_texts(rest, "\n"@) =~= Seq::empty());
        assert(as_text(rest) =~= base);
    } else {
        let head = lines::text_lines(base);
        if text.last() != '\n' {
            assert(base =~= text.push('\n'));
            lines::lines_of_ended_text(text);
        }
        assert(head == lines::text_lines(text));
        assert(base.last() == '\n');
        lines::lines_make_up_the_text(base);
        // The last line is not empty, so the text does not end in a blank line.
        assert(!"\n\n"@.is_suffix_of(base)) by {
            if "\n\n"@.is_suffix_of(base) {
                lemma_blank_end(base);
            }
        }
        lines::line_of_ended_text(Seq::empty());
        assert(Seq::<char>::empty().push('\n') =~= blank);
        let middle = base + blank;
        assert(spaced(base) =~= middle);
        lines::lines_of_joined_texts(base, blank);
        lines::lines_of_joined_texts(middle, block());
        let n = head.len() as int;
        let all = lines::text_lines(middle + block());
        assert(all =~= head + seq![Seq::<char>::empty(), GITIGNORE_COMMENT@, GITIGNORE_ENTRY@]);
        assert(with_entry(text) == middle + block());
        assert forall|i: int| 0 <= i < all.len() implies #[trigger] is_block(all, i) == (i == n
            + 1) by {
            if i + 1 < n {
                assert(all[i + 1] == head[i + 1]);
                assert(!is_entry(lines::text_lines(text)[i + 1]));
            } else if i + 1 == n {
                assert(all[i + 1] == Seq::<char>::empty());
            }
        }
        lemma_one_block(all, n + 1, all.len());
        lemma_first_is(all, n + 1, 0);
        let rest = all.remove(n + 1).remove(n + 1);
        assert(rest =~= head.push(Seq::empty()));
        assert(rest.drop_last() =~= head);
        assert(without_empty_tail(rest) == without_empty_tail(head));
        assert(without_empty_tail(head) == head);
        assert(as_text(head) =~= base);
    }
}

/// A text that ends in two line feeds has an empty last line.
proof fn lemma_blank_end(text: Seq<char>)
    requires
        text.len() >= 2,
        seq!['\n', '\n'].is_suffix_of(text),
    ensures
        lines::text_lines(text).len() > 0,
        lines::text_lines(text).last().len() == 0,
{
    let tail = text.subrange(text.len() - 2, text.len() as int);
    assert(tail[0] == '\n' && tail[1] == '\n');
    let front = text.drop_last();
    assert(front.last() == tail[0]);
    lines::line_of_ended_text(Seq::empty());
    assert(Seq::<char>::empty().push('\n') =~= seq!['\n']);
    lines::lines_of_joined_texts(front, seq!['\n']);
    assert(front + seq!['\n'] =~= text);
}

/// A list of ignored files that has an entry for the binaries is left as it is, so
/// adding the entry twice is adding it once.
pub proof fn adding_the_entry_twice_is_adding_it_once(text: Seq<char>)
    ensures
        lists_binaries(with_entry(text)),
        with_entry(with_entry(text)) == with_entry(text),
{
    if !lists_binaries(text) {
        reveal_strlit("\n");
        reveal_strlit("\n\n");
        assert("\n"@ =~= seq!['\n']);
        assert("\n\n"@ =~= seq!['\n', '\n']);
        lemma_block();
        let head = spaced(ended(text));
        assert(head.len() == 0 || head.last() == '\n');
        lines::lines_of_joined_texts(head, block());
        let all = lines::text_lines(with_entry(text));
        assert(all.len() >= 2);
        assert(all[all.len() - 1] == GITIGNORE_ENTRY@);
    }
}

/// What is asked for decides which skills are installed; without it the receipt of an
/// earlier installation does, and only without either what marks the project. The skills
/// of one harness are never installed without the shared ones.
pub proof fn requests_win_over_receipts_and_marks(
    requested: SkillTarget,
    installed: Option<SkillTarget>,
    agents: bool,
    claude: bool,
    other: Option<SkillTarget>,
)
    ensures
        requested != SkillTarget::Auto ==> resolved_target(requested, installed, agents, claude)
            == resolved_target(requested, other, !agents, !claude),
        requested == SkillTarget::Auto && installed is Some ==> resolved_target(
            requested,
            installed,
            agents,
            claude,
        ) == resolved_target(installed->0, None, !agents, !claude) || installed
            == Some(SkillTarget::Auto),
        resolved_target(requested, installed, agents, claude).has_claude() ==> resolved_target(
            requested,
            installed,
            agents,
            claude,
        ).has_agents(),
        requested == SkillTarget::Auto && installed is None ==> resolved_target(
            requested,
            installed,
            agents,
            claude,
        ).has_agents() == (agents || claude),
        requested == SkillTarget::Auto && installed is None ==> resolved_target(
            requested,
            installed,
            agents,
            claude,
        ).has_claude() == claude,
        requested.has_agents() ==> resolved_target(
            requested,
            installed,
            agents,
            claude,
        ).has_agents(),
        requested.has_claude() == resolved_target(
            requested,
            installed,
            agents,
            claude,
        ).has_claude() || requested == SkillTarget::Auto,
{
}

/// Text is the same with line feeds alone and with a carriage return in front of each of
/// them; nothing else of it is left out.
pub proof fn line_ends_do_not_count(a: Seq<u8>, b: Seq<u8>)
    requires
        !a.contains(0x0du8),
    ensures
        unix_text(a, 0) == a,
        unix_text(a + seq![0x0du8, 0x0au8] + b, 0) == unix_text(a + seq![0x0au8] + b, 0),
        unix_text(a + seq![0x0au8] + b, 0) == a + seq![0x0au8] + unix_text(b, 0),
{
    lemma_unix_front(a, a, 0);
    assert(unix_text(a, a.len() as int) =~= Seq::empty());
    assert(a.subrange(0, a.len() as int) =~= a);
    assert(a.subrange(0, a.len() as int) + unix_text(a, a.len() as int) =~= a);
    let dos = a + seq![0x0du8, 0x0au8] + b;
    let unix = a + seq![0x0au8] + b;
    lemma_unix_front(a, dos, 0);
    lemma_unix_front(a, unix, 0);
    lemma_unix_moves(dos, b, a.len() as int + 2, a.len() as int + 2);
    lemma_unix_moves(unix, b, a.len() as int + 1, a.len() as int + 1);
    assert(dos[a.len() as int] == 0x0du8 && dos[a.len() as int + 1] == 0x0au8);
    assert(unix[a.len() as int] == 0x0au8);
    assert(dos.subrange(0, a.len() as int) =~= a);
    assert(unix.subrange(0, a.len() as int) =~= a);
    assert(unix_text(unix, 0) =~= a + seq![0x0au8] + unix_text(b, 0));
    assert(unix_text(dos, 0) =~= a + seq![0x0au8] + unix_text(b, 0));
}

proof fn lemma_unix_front(a: Seq<u8>, whole: Seq<u8>, at: int)
    requires
        0 <= at <= a.len(),
        !a.contains(0x0du8),
        a.is_prefix_of(whole),
    ensures
        unix_text(whole, at) == whole.subrange(at, a.len() as int) + unix_text(
            whole,
            a.len() as int,
        ),
    decreases a.len() - at,
{
    if at < a.len() {
        assert(whole[at] == a[at]);
        assert(a.contains(a[at]));
        lemma_unix_front(a, whole, at + 1);
        assert(seq![whole[at]] + whole.subrange(at + 1, a.len() as int) =~= whole.subrange(
            at,
            a.len() as int,
        ));
        assert(unix_text(whole, at) =~= whole.subrange(at, a.len() as int) + unix_text(
            whole,
            a.len() as int,
        ));
    } else {
        assert(whole.subrange(at, a.len() as int) =~= Seq::empty());
        assert(unix_text(whole, at) =~= whole.subrange(at, a.len() as int) + unix_text(
            whole,
            a.len() as int,
        ));
    }
}

proof fn lemma_unix_moves(whole: Seq<u8>, rest: Seq<u8>, by: int, at: int)
    requires
        0 <= by <= at,
        whole.len() == by + rest.len(),
        forall|i: int| by <= i < whole.len() ==> #[trigger] whole[i] == rest[i - by],
    ensures
        unix_text(whole, at) == unix_text(rest, at - by),
    decreases whole.len() - at,
{
    if at < whole.len() {
        assert(whole[at] == rest[at - by]);
        if at + 1 < whole.len() {
            assert(whole[at + 1] == rest[at + 1 - by]);
        }
        lemma_unix_moves(whole, rest, by, at + 1);
        if at + 1 < whole.len() {
            lemma_unix_moves(whole, rest, by, at + 2);
        }
    }
}

} // verus!
