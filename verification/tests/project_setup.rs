use contextmink::config::{validate_profile, ACCEPTED_CONFIG_KEYS};
use contextmink::destinations::{
    empty_managed_directories, validate_destination, validate_path, DestinationFault, EntryKind,
};
use contextmink::paths::Host;
use contextmink::project_files::{
    all_project_paths, contextmink_skill_files, ensure_executable, executable_bit_missing,
    gitignore_content, gitignore_has_entry, gitignore_managed_block_count,
    gitignore_without_managed_block, harness_markers, project_profile, release_is_for_windows,
    same_managed_text, ProjectPath, SetupFileOwnership, SkillTarget, GITIGNORE_COMMENT,
    GITIGNORE_ENTRY,
};
use contextmink::project_receipt::{
    build_install_receipt, load_install_receipt, receipt_bytes, recognizes_runtime_receipt,
    refuse_release_downgrade, validate_install_receipt, InstallReceipt, ReceiptFault,
    INSTALL_RECEIPT_SCHEMA, PREVIOUS_INSTALL_RECEIPT_SCHEMA, PREVIOUS_RUNTIME_RECEIPT_SCHEMA,
};
use contextmink::project_setup::{
    setup_project, PathState, ReleasePayloads, SetupActionKind, SetupFault, SetupInputs, SetupPlan,
};
use contextmink::project_uninstall::{uninstall_project, UninstallInputs, UninstallPlan};
use contextmink::setup_report::{SetupProjectResult, UninstallProjectResult};
use contextmink::versions::VERSION;

/// The harness that has skills of its own is known by the name of its target.
fn harness() -> String {
    format!("{:?}", SkillTarget::Claude).to_lowercase()
}

fn own_skill() -> String {
    format!(".{}/skills/contextmink/SKILL.md", harness())
}

const LAUNCHER: &[u8] = b"#!/usr/bin/env bash\nlauncher\n";
const SKILL: &[u8] = b"skill\n";

/// The configuration of a new project, with the profile that the library gives it.
fn generated_config() -> String {
    let profile = project_profile("/work/demo-project", Host::Posix).unwrap();
    let mut table = toml::Table::new();
    table.insert("profile".to_owned(), toml::Value::String(profile));
    table.insert("exclude_globs".to_owned(), toml::Value::Array(Vec::new()));
    toml::to_string_pretty(&table).unwrap()
}

fn payloads() -> ReleasePayloads {
    ReleasePayloads {
        binary: b"contextmink-binary".to_vec(),
        bridge: b"contextmink-bridge-binary".to_vec(),
        launcher: LAUNCHER.to_vec(),
        integration: b"integration\n".to_vec(),
        skill: SKILL.to_vec(),
        bridge_skill: b"bridge skill\n".to_vec(),
        openai_metadata: b"metadata\n".to_vec(),
        config: generated_config().into_bytes(),
    }
}

/// A project, held in memory: what is at each managed path, and its markers.
struct Project {
    files: Vec<Option<(Vec<u8>, bool)>>,
    directories: Vec<ProjectPath>,
    markers: Vec<(String, bool)>,
    windows: bool,
}

impl Project {
    fn new() -> Project {
        Project {
            files: (0..14).map(|_| None).collect(),
            directories: Vec::new(),
            markers: Vec::new(),
            windows: false,
        }
    }

    fn write(&mut self, path: ProjectPath, content: &[u8]) {
        self.files[path.index()] = Some((content.to_vec(), false));
    }

    fn remove(&mut self, path: ProjectPath) {
        self.files[path.index()] = None;
    }

    fn holds(&self, path: ProjectPath) -> bool {
        self.files[path.index()].is_some() || self.directories.contains(&path)
    }

    fn read(&self, path: ProjectPath) -> Vec<u8> {
        self.files[path.index()].as_ref().unwrap().0.clone()
    }

    fn text(&self, path: ProjectPath) -> String {
        String::from_utf8(self.read(path)).unwrap()
    }

    fn states(&self) -> Vec<PathState> {
        all_project_paths()
            .into_iter()
            .map(|path| match &self.files[path.index()] {
                Some((content, executable)) => PathState::File {
                    content: content.clone(),
                    executable: *executable,
                },
                None if self.directories.contains(&path) => PathState::Other,
                None => PathState::Missing,
            })
            .collect()
    }

    fn receipt(&self) -> Result<Option<InstallReceipt>, ReceiptFault> {
        let bytes = self.files[ProjectPath::InstallReceipt.index()]
            .as_ref()
            .map(|(content, _)| content.as_slice());
        load_install_receipt(bytes, &harness())
    }

    /// The profile of the configuration, read as the command-line tool reads it.
    fn config(&self) -> Result<Option<String>, String> {
        if !self.holds(ProjectPath::Config) {
            return Ok(None);
        }
        let table: toml::Table = self
            .text(ProjectPath::Config)
            .parse()
            .map_err(|error: toml::de::Error| error.to_string())?;
        for key in table.keys() {
            if !ACCEPTED_CONFIG_KEYS.split(", ").any(|known| known == key) {
                return Err(format!("unknown key `{key}`"));
            }
        }
        let profile = table
            .get("profile")
            .and_then(|value| value.as_str())
            .map(str::to_owned);
        if let Some(profile) = &profile {
            validate_profile(profile).map_err(|fault| fault.message())?;
        }
        Ok(profile)
    }

    fn shows(&self, own: bool) -> bool {
        harness_markers(&harness()).iter().any(|marker| {
            marker.is_claude == own
                && self
                    .markers
                    .iter()
                    .any(|(name, is_directory)| {
                        *name == marker.path && *is_directory == marker.is_directory
                    })
        })
    }

    fn plan(&self, requested: SkillTarget, dry_run: bool) -> Result<SetupPlan, SetupFault> {
        setup_project(&SetupInputs {
            states: self.states(),
            prior: self.receipt().unwrap(),
            payloads: payloads(),
            config: self.config(),
            requested,
            agents: self.shows(false),
            claude: self.shows(true),
            windows: self.windows,
            dry_run,
            generated_profile: project_profile("/work/demo-project", Host::Posix).unwrap(),
            harness: harness(),
        })
    }

    fn setup(&mut self, requested: SkillTarget, dry_run: bool) -> Result<SetupPlan, SetupFault> {
        let plan = self.plan(requested, dry_run)?;
        if dry_run {
            return Ok(plan);
        }
        for file in &plan.files {
            let action = plan
                .actions
                .iter()
                .find(|action| action.path == file.path)
                .unwrap();
            match action.action {
                SetupActionKind::Create | SetupActionKind::Replace => {
                    let content = payloads().content_of(file.path).unwrap().clone();
                    self.files[file.path.index()] = Some((content, file.executable));
                }
                SetupActionKind::MakeExecutable => {
                    self.files[file.path.index()].as_mut().unwrap().1 = true;
                }
                _ => {}
            }
        }
        for action in &plan.actions {
            if action.action == SetupActionKind::RemoveRetired {
                self.remove(action.path);
            }
        }
        self.write(ProjectPath::Gitignore, plan.gitignore.as_bytes());
        self.write(ProjectPath::InstallReceipt, plan.receipt_text.as_bytes());
        Ok(plan)
    }

    fn install(&mut self) -> SetupPlan {
        self.setup(SkillTarget::Both, false).unwrap()
    }

    fn uninstall(
        &mut self,
        running: Option<ProjectPath>,
        dry_run: bool,
    ) -> Result<UninstallPlan, SetupFault> {
        let receipt = self.receipt().unwrap().unwrap();
        let created = receipt.managed_gitignore_file;
        let plan = uninstall_project(&UninstallInputs { states: self.states(), receipt, running })?;
        if !dry_run {
            for action in &plan.actions {
                if action.action == SetupActionKind::RemoveManaged {
                    self.remove(action.path);
                }
            }
            match &plan.gitignore {
                Some(text) if !(created && text.is_empty()) => {
                    self.write(ProjectPath::Gitignore, text.as_bytes());
                }
                _ => self.remove(ProjectPath::Gitignore),
            }
            self.remove(ProjectPath::InstallReceipt);
        }
        Ok(plan)
    }
}

fn has(plan: &SetupPlan, path: ProjectPath, action: SetupActionKind) -> bool {
    plan.actions
        .iter()
        .any(|done| done.path == path && done.action == action)
}

fn message(fault: SetupFault, operation: &str) -> String {
    fault.message(operation, "/work/demo-project", "unknown key", &harness())
}

#[test]
fn bridge_skill_selection_tracks_payload_platform_and_harness() {
    for target in [
        SkillTarget::Agents,
        SkillTarget::Claude,
        SkillTarget::Both,
        SkillTarget::Unselected,
    ] {
        for windows in [false, true] {
            let paths: Vec<_> = contextmink_skill_files(target, windows)
                .into_iter()
                .map(|file| file.path.relative_path(&harness()))
                .collect();
            assert_eq!(
                paths.contains(&".agents/skills/contextmink-bridge/SKILL.md".to_owned()),
                windows && target.installs_agents()
            );
            assert_eq!(
                paths.contains(&format!(".{}/skills/contextmink-bridge/SKILL.md", harness())),
                windows && target.installs_claude()
            );
        }
    }
}

#[test]
fn windows_bridge_skill_install_and_deselection() {
    let mut project = Project::new();
    project.windows = true;
    project.install();
    let skill = ProjectPath::AgentsBridgeSkill;
    assert_eq!(project.read(skill), b"bridge skill\n");
    project.write(skill, b"locally edited bridge guidance");
    project.setup(SkillTarget::Unselected, false).unwrap();
    assert!(!project.holds(skill));
    assert!(!project.holds(ProjectPath::ClaudeBridgeSkill));
}

#[test]
fn dry_run_reports_without_writing() {
    let mut project = Project::new();
    let plan = project.setup(SkillTarget::Both, true).unwrap();
    assert!(plan
        .actions
        .iter()
        .all(|action| action.action == SetupActionKind::Create));
    for path in [
        ".agents/skills/contextmink/SKILL.md",
        ".agents/skills/contextmink/agents/openai.yaml",
        own_skill().as_str(),
    ] {
        assert!(plan.actions.iter().any(|action| {
            action.path.relative_path(&harness()) == path
                && action.action == SetupActionKind::Create
        }));
    }
    assert!(!project.holds(ProjectPath::Config));
}

#[test]
fn auto_selects_only_detected_harnesses_and_none_when_unmarked() {
    let guide = format!("{}.md", harness().to_uppercase());
    for (markers, expected, agents, own) in [
        (&[][..], SkillTarget::Unselected, false, false),
        (&["AGENTS.md"][..], SkillTarget::Agents, true, false),
        (&[".agents/"][..], SkillTarget::Agents, true, false),
        (&[".codex/"][..], SkillTarget::Agents, true, false),
        (&[".cursor/"][..], SkillTarget::Agents, true, false),
        (&[".pi/"][..], SkillTarget::Agents, true, false),
        (&[".omp/"][..], SkillTarget::Agents, true, false),
        (&[".opencode/"][..], SkillTarget::Agents, true, false),
        (&["opencode.json"][..], SkillTarget::Agents, true, false),
        (&["opencode.jsonc"][..], SkillTarget::Agents, true, false),
        (&[guide.as_str()][..], SkillTarget::Both, true, true),
        (&["AGENTS.md", guide.as_str()][..], SkillTarget::Both, true, true),
    ] {
        let mut project = Project::new();
        for marker in markers {
            match marker.strip_suffix('/') {
                Some(name) => project.markers.push((name.to_owned(), true)),
                None => project.markers.push((marker.to_string(), false)),
            }
        }
        let plan = project.setup(SkillTarget::Auto, false).unwrap();
        assert_eq!(plan.target, expected);
        assert_eq!(project.holds(ProjectPath::AgentsSkill), agents);
        assert_eq!(project.holds(ProjectPath::ClaudeSkill), own);
        for file in &plan.files {
            let path = file.path.relative_path(&harness());
            for duplicate in [".pi/", ".omp/", ".opencode/"] {
                assert!(!path.starts_with(duplicate), "{path}");
            }
        }
        assert_eq!(project.receipt().unwrap().unwrap().skill_target, expected);
    }
}

#[test]
fn auto_selection_requires_marker_file_types() {
    let mut project = Project::new();
    project.markers.push((".pi".to_owned(), false));
    project.markers.push(("opencode.json".to_owned(), true));
    project
        .markers
        .push((format!("{}.md", harness().to_uppercase()), true));
    let plan = project.setup(SkillTarget::Auto, false).unwrap();
    assert_eq!(plan.target, SkillTarget::Unselected);
    assert!(!project.holds(ProjectPath::AgentsSkill));
    assert!(!project.holds(ProjectPath::ClaudeSkill));
}

#[test]
fn explicit_reselection_is_frozen_and_removes_deselected_skills() {
    let mut project = Project::new();
    project.markers.push(("AGENTS.md".to_owned(), false));
    project
        .markers
        .push((format!("{}.md", harness().to_uppercase()), false));
    project.install();

    let selected = project.setup(SkillTarget::Agents, false).unwrap();
    assert_eq!(selected.target, SkillTarget::Agents);
    assert!(project.holds(ProjectPath::AgentsSkill));
    assert!(!project.holds(ProjectPath::ClaudeSkill));

    let frozen = project.setup(SkillTarget::Auto, false).unwrap();
    assert_eq!(frozen.target, SkillTarget::Agents);
    assert!(!project.holds(ProjectPath::ClaudeSkill));

    project.write(ProjectPath::AgentsSkill, b"local edit\n");
    let dry_run = project.setup(SkillTarget::Unselected, true).unwrap();
    assert!(dry_run.ready);
    assert!(has(&dry_run, ProjectPath::AgentsSkill, SetupActionKind::RemoveRetired));
    assert!(project.holds(ProjectPath::AgentsSkill));

    let removed = project.setup(SkillTarget::Unselected, false).unwrap();
    assert_eq!(removed.target, SkillTarget::Unselected);
    assert!(!project.holds(ProjectPath::AgentsSkill));
}

#[test]
fn first_install_refuses_an_unselected_unreceipted_skill() {
    let mut project = Project::new();
    project.write(ProjectPath::ClaudeSkill, b"repository-owned contextmink guidance\n");
    let plan = project.setup(SkillTarget::Agents, true).unwrap();
    assert!(!plan.ready);
    assert!(has(&plan, ProjectPath::ClaudeSkill, SetupActionKind::UnownedRefusal));
    let fault = project.setup(SkillTarget::Agents, false).unwrap_err();
    assert!(message(fault, "setup-project").contains("unreceipted skill at deselected path"));
    assert_eq!(
        project.text(ProjectPath::ClaudeSkill),
        "repository-owned contextmink guidance\n"
    );
}

#[test]
fn previous_receipt_upgrade_rewrites_the_current_schema() {
    let mut project = Project::new();
    project.setup(SkillTarget::Agents, false).unwrap();
    let current = project.text(ProjectPath::InstallReceipt);
    let zeros = "0".repeat(64);
    let listed = format!(
        "{{\n  \"managed_files\": [{{\"path\": \"scripts/contextmink\", \"sha256\": \"{zeros}\"}}],"
    );
    let previous = current
        .replace(INSTALL_RECEIPT_SCHEMA, "contextmink.project_install.v2")
        .replacen('{', &listed, 1);
    project.write(ProjectPath::InstallReceipt, previous.as_bytes());

    let plan = project.setup(SkillTarget::Auto, false).unwrap();
    assert_eq!(plan.target, SkillTarget::Agents);
    let written = project.text(ProjectPath::InstallReceipt);
    assert!(written.contains(INSTALL_RECEIPT_SCHEMA));
    assert!(!written.contains("managed_files"));
    assert!(written.contains("\"skill_target\": \"agents\""));

    let older = previous.replace(
        "contextmink.project_install.v2",
        "contextmink.project_install.v1",
    );
    project.write(ProjectPath::InstallReceipt, older.as_bytes());
    let error = project.receipt().unwrap_err().message("project-install.json");
    assert!(error.contains("rerun setup-project to reinstall"), "{error}");
}

#[test]
fn install_is_idempotent_and_never_writes_agent_guidance() {
    let mut project = Project::new();
    project.write(ProjectPath::Gitignore, b"target/\n");
    let first = project.install();
    assert_eq!(first.profile, "demo-project");
    let report = SetupProjectResult {
        project_root: "/work/demo-project".to_owned(),
        profile: first.profile.clone(),
        dry_run: false,
        ready: first.ready,
        requested_skill_target: SkillTarget::Both,
        resolved_skill_target: first.target,
        actions: first.actions.clone(),
        agent_guidance_files_found: Vec::new(),
        harness: harness(),
    };
    assert!(report.lines().iter().any(|line| line.contains("AGENTS.md")));
    assert!(report.to_json().to_compact().contains("contextmink.project_setup.v3"));
    let config = project.text(ProjectPath::Config);
    assert!(config.contains("profile = \"demo-project\""));
    assert!(!config.contains("replace-with-workspace-name"));
    let gitignore = project.text(ProjectPath::Gitignore);
    assert_eq!(gitignore.matches(GITIGNORE_ENTRY).count(), 1);
    assert_eq!(project.read(ProjectPath::Binary), b"contextmink-binary");
    assert_eq!(project.read(ProjectPath::Launcher), LAUNCHER);
    assert_eq!(project.read(ProjectPath::Integration), b"integration\n");
    assert_eq!(project.read(ProjectPath::AgentsSkill), SKILL);
    assert_eq!(project.read(ProjectPath::ClaudeSkill), SKILL);
    assert_eq!(project.read(ProjectPath::AgentsMetadata), b"metadata\n");
    assert!(project.holds(ProjectPath::InstallReceipt));

    let second = project.install();
    assert!(second
        .actions
        .iter()
        .filter(|action| action.path != ProjectPath::Config)
        .all(|action| action.action == SetupActionKind::Unchanged));
    assert!(has(&second, ProjectPath::Config, SetupActionKind::PreserveRepositoryOwned));
    assert_eq!(second.profile, "demo-project");
    let gitignore = project.text(ProjectPath::Gitignore);
    assert_eq!(gitignore.matches(GITIGNORE_ENTRY).count(), 1);
}

#[test]
fn customized_configuration_is_preserved_while_missing_binaries_are_restored() {
    let mut project = Project::new();
    project.install();
    let config = "profile = \"owned-profile\"\nexclude_globs = [\"generated/**\"]\n";
    project.write(ProjectPath::Config, config.as_bytes());
    project.remove(ProjectPath::Binary);

    let dry_run = project.setup(SkillTarget::Both, true).unwrap();
    assert_eq!(dry_run.profile, "owned-profile");
    assert!(has(&dry_run, ProjectPath::Config, SetupActionKind::PreserveRepositoryOwned));
    assert!(has(&dry_run, ProjectPath::Binary, SetupActionKind::Create));
    assert!(!project.holds(ProjectPath::Binary));
    assert_eq!(project.text(ProjectPath::Config), config);

    let applied = project.install();
    assert_eq!(applied.profile, "owned-profile");
    assert!(project.holds(ProjectPath::Binary));
    assert_eq!(project.text(ProjectPath::Config), config);
}

#[test]
fn divergent_release_file_is_rewritten() {
    let mut project = Project::new();
    project.install();
    project.remove(ProjectPath::Config);
    project.write(ProjectPath::Launcher, b"locally changed");

    let plan = project.install();
    assert!(plan.ready);
    assert_eq!(project.read(ProjectPath::Launcher), LAUNCHER);
    assert!(project.holds(ProjectPath::Config));
}

#[test]
fn dry_run_previews_release_replacement_without_writing() {
    let mut project = Project::new();
    project.install();
    project.write(ProjectPath::Launcher, b"older release");
    let owned_config = "profile = \"owned\"\nexclude_globs = [\"cache/**\"]\n";
    project.write(ProjectPath::Config, owned_config.as_bytes());

    let plan = project.setup(SkillTarget::Both, true).unwrap();
    assert_eq!(plan.profile, "owned");
    assert!(plan.ready);
    assert!(has(&plan, ProjectPath::Launcher, SetupActionKind::Replace));
    assert!(has(&plan, ProjectPath::Config, SetupActionKind::PreserveRepositoryOwned));
    assert_eq!(project.read(ProjectPath::Launcher), b"older release");
    assert_eq!(project.text(ProjectPath::Config), owned_config);
}

#[test]
fn setup_rewrites_release_files_and_preserves_configuration() {
    let mut project = Project::new();
    project.install();
    project.write(ProjectPath::Launcher, b"older release");
    project.write(ProjectPath::AgentsSkill, b"older release");
    let owned_config = "profile = \"owned\"\nexclude_globs = [\"cache/**\"]\n";
    project.write(ProjectPath::Config, owned_config.as_bytes());

    let plan = project.install();
    assert_eq!(plan.profile, "owned");
    assert!(has(&plan, ProjectPath::Launcher, SetupActionKind::Replace));
    assert!(has(&plan, ProjectPath::AgentsSkill, SetupActionKind::Replace));
    assert!(has(&plan, ProjectPath::Config, SetupActionKind::PreserveRepositoryOwned));
    assert_eq!(project.read(ProjectPath::Launcher), LAUNCHER);
    assert_eq!(project.read(ProjectPath::AgentsSkill), SKILL);
    assert_eq!(project.text(ProjectPath::Config), owned_config);
}

#[test]
fn invalid_repository_configuration_refuses_before_release_replacement() {
    let mut project = Project::new();
    project.install();
    project.write(ProjectPath::Launcher, b"older release");
    project.write(ProjectPath::Config, b"profile = \"owned\"\nunknown_key = true\n");

    let fault = project.setup(SkillTarget::Both, false).unwrap_err();
    assert!(message(fault, "setup-project")
        .contains("cannot preserve invalid repository-owned configuration"));
    assert_eq!(project.read(ProjectPath::Launcher), b"older release");
}

#[test]
fn uninstall_removes_receipt_owned_surfaces_and_preserves_project_policy() {
    let mut project = Project::new();
    project.install();
    let config = project.read(ProjectPath::Config);
    let plan = project.uninstall(None, false).unwrap();
    for path in [
        ProjectPath::InstallReceipt,
        ProjectPath::Binary,
        ProjectPath::Launcher,
        ProjectPath::Integration,
        ProjectPath::AgentsSkill,
        ProjectPath::AgentsMetadata,
        ProjectPath::ClaudeSkill,
    ] {
        assert!(!project.holds(path), "{path:?} must be removed");
    }
    assert_eq!(project.read(ProjectPath::Config), config);
    assert!(!project.holds(ProjectPath::Gitignore));
    let report = UninstallProjectResult {
        project_root: "/work/demo-project".to_owned(),
        dry_run: false,
        actions: plan.actions,
        preserved_repository_owned: vec![".contextmink.toml".to_owned()],
        harness: harness(),
    };
    assert!(report.to_json().to_compact().contains("\"ready\":true"));
    assert!(report.lines()[0].ends_with("ready=true"));
}

#[test]
fn uninstall_removes_a_divergent_binary() {
    let mut project = Project::new();
    project.install();
    assert!(!project.holds(ProjectPath::PreviousRuntimeReceipt));
    project.write(ProjectPath::Binary, b"modified runtime\n");
    let dry_run = project.uninstall(None, true).unwrap();
    assert!(dry_run.actions.iter().any(|action| {
        action.path == ProjectPath::Binary && action.action == SetupActionKind::RemoveManaged
    }));
    assert_eq!(project.read(ProjectPath::Binary), b"modified runtime\n");

    project.uninstall(None, false).unwrap();
    assert!(!project.holds(ProjectPath::Binary));
    assert!(!project.holds(ProjectPath::InstallReceipt));
}

#[test]
fn uninstall_refuses_a_non_file_at_an_owned_runtime_path() {
    let mut project = Project::new();
    project.install();
    project.remove(ProjectPath::Binary);
    project.directories.push(ProjectPath::Binary);
    for dry_run in [true, false] {
        let fault = project.uninstall(None, dry_run).unwrap_err();
        let error = message(fault, "uninstall-project");
        assert!(error.contains("cannot remove non-file managed runtime"), "{error}");
    }
    assert!(project.holds(ProjectPath::Binary));
    assert!(project.holds(ProjectPath::InstallReceipt));
}

#[test]
fn setup_keeps_and_uninstall_removes_the_other_hosts_binary() {
    let mut project = Project::new();
    let alternate = ProjectPath::WindowsBinary;
    project.write(alternate, b"alternate host binary\n");
    let plan = project.install();
    assert!(plan.ready);
    assert!(!plan.actions.iter().any(|action| action.path == alternate));
    assert_eq!(project.read(alternate), b"alternate host binary\n");

    let dry_run = project.uninstall(None, true).unwrap();
    assert!(dry_run.actions.iter().any(|action| {
        action.path == alternate && action.action == SetupActionKind::RemoveManaged
    }));
    assert!(project.holds(alternate));
    project.uninstall(None, false).unwrap();
    assert!(!project.holds(alternate));
    assert!(empty_managed_directories(&harness()).contains(&"tools/contextmink".to_owned()));
}

fn previous_runtime_receipt() -> String {
    let zeros = "0".repeat(64);
    format!(
        "{{\"schema\": \"contextmink.runtime_install.v1\", \"contextmink_version\": \"0.15.0\", \"managed_files\": [{{\"path\": \"tools/contextmink/bin/contextmink\", \"sha256\": \"{zeros}\"}}]}}"
    )
}

#[test]
fn setup_and_uninstall_remove_the_previous_runtime_receipt() {
    let mut project = Project::new();
    project.install();
    let previous = ProjectPath::PreviousRuntimeReceipt;
    project.write(previous, previous_runtime_receipt().as_bytes());

    let dry_run = project.setup(SkillTarget::Both, true).unwrap();
    assert!(has(&dry_run, previous, SetupActionKind::RemoveRetired));
    assert!(project.holds(previous));
    project.install();
    assert!(!project.holds(previous));

    project.write(previous, previous_runtime_receipt().as_bytes());
    let plan = project.uninstall(None, false).unwrap();
    assert!(plan.actions.iter().any(|action| {
        action.path == previous && action.action == SetupActionKind::RemoveManaged
    }));
    assert!(!project.holds(previous));
}

#[test]
fn setup_refuses_an_unrecognized_file_at_the_previous_runtime_receipt_path() {
    let mut project = Project::new();
    let path = ProjectPath::PreviousRuntimeReceipt;
    project.write(path, br#"{"schema":"contextmink.runtime_install.v2"}"#);
    for dry_run in [true, false] {
        let fault = project.setup(SkillTarget::Both, dry_run).unwrap_err();
        let error = message(fault, "setup-project");
        assert!(error.contains("move it aside, then rerun setup-project"), "{error}");
    }
    assert!(project.holds(path));
    assert!(!project.holds(ProjectPath::InstallReceipt));
}

#[test]
fn setup_replaces_a_divergent_runtime_at_its_install_path() {
    let mut project = Project::new();
    project.write(ProjectPath::Binary, b"foreign runtime\n");
    let dry_run = project.setup(SkillTarget::Both, true).unwrap();
    assert!(dry_run.ready);
    assert!(has(&dry_run, ProjectPath::Binary, SetupActionKind::Replace));
    assert_eq!(project.read(ProjectPath::Binary), b"foreign runtime\n");

    project.install();
    assert_eq!(project.read(ProjectPath::Binary), b"contextmink-binary");
}

#[test]
fn uninstall_removes_locally_edited_release_text() {
    let mut project = Project::new();
    project.install();
    project.write(ProjectPath::AgentsSkill, b"local edit\n");
    project.uninstall(None, false).unwrap();
    assert!(!project.holds(ProjectPath::AgentsSkill));
    assert!(!project.holds(ProjectPath::InstallReceipt));
    assert!(project.holds(ProjectPath::Config));
}

#[test]
fn uninstall_preserves_a_preexisting_repository_owned_gitignore_entry() {
    let mut project = Project::new();
    let original = format!("{GITIGNORE_COMMENT}\n{GITIGNORE_ENTRY}\n");
    project.write(ProjectPath::Gitignore, original.as_bytes());
    project.install();
    let install_receipt = project.receipt().unwrap().unwrap();
    assert!(!install_receipt.managed_gitignore_block);
    assert!(!install_receipt.managed_gitignore_file);

    project.uninstall(None, false).unwrap();
    assert_eq!(project.text(ProjectPath::Gitignore), original);
}

#[test]
fn setup_refuses_a_modified_receipt_owned_gitignore_block() {
    let mut project = Project::new();
    project.install();
    project.write(ProjectPath::Gitignore, format!("{GITIGNORE_ENTRY}\n").as_bytes());

    let dry_run = project.setup(SkillTarget::Both, true).unwrap();
    assert!(!dry_run.ready);
    assert!(has(&dry_run, ProjectPath::Gitignore, SetupActionKind::ModifiedRefusal));
    let fault = project.setup(SkillTarget::Both, false).unwrap_err();
    assert!(message(fault, "setup-project")
        .contains("modified Contextmink-managed .gitignore block"));
}

#[test]
fn uninstall_refuses_to_remove_the_running_project_binary() {
    let mut project = Project::new();
    project.install();
    let fault = project.uninstall(Some(ProjectPath::Binary), true).unwrap_err();
    assert!(message(fault, "uninstall-project")
        .contains("cannot remove the running project-local binary"));
}

#[test]
fn managed_text_comparison_is_line_ending_independent() {
    assert!(same_managed_text(b"a\nb\n", b"a\r\nb\r\n"));
    assert!(!same_managed_text(b"a\nb\n", b"a\nc\n"));
}

#[test]
fn receipt_requires_a_resolved_skill_target() {
    let mut receipt = build_install_receipt(SkillTarget::Both, false, false);
    validate_install_receipt(&receipt).unwrap();
    receipt.skill_target = SkillTarget::Auto;
    assert!(validate_install_receipt(&receipt).is_err());
}

#[test]
fn previous_receipt_is_read_as_the_current_schema() {
    let zeros = "0".repeat(64);
    let text = format!(
        "{{\"schema\": \"{PREVIOUS_INSTALL_RECEIPT_SCHEMA}\", \"contextmink_version\": \"{VERSION}\", \"skill_target\": \"agents\", \"managed_files\": [{{\"path\": \"scripts/contextmink\", \"sha256\": \"{zeros}\"}}], \"managed_gitignore_block\": true, \"managed_gitignore_file\": false}}"
    );
    let receipt = load_install_receipt(Some(text.as_bytes()), &harness())
        .unwrap()
        .unwrap();
    assert_eq!(receipt.schema, INSTALL_RECEIPT_SCHEMA);
    assert_eq!(receipt.skill_target, SkillTarget::Agents);
    assert!(receipt.managed_gitignore_block);

    let error = load_install_receipt(
        Some(br#"{"schema": "contextmink.project_install.v1"}"#),
        &harness(),
    )
    .unwrap_err()
    .message("project-install.json");
    assert!(error.contains("rerun setup-project to reinstall"), "{error}");
}

#[test]
fn previous_runtime_receipt_is_recognized_and_other_files_are_refused() {
    let ones = "1".repeat(64);
    let text = format!(
        "{{\"schema\": \"{PREVIOUS_RUNTIME_RECEIPT_SCHEMA}\", \"contextmink_version\": \"0.15.0\", \"managed_files\": [{{\"path\": \"tools/contextmink/bin/contextmink\", \"sha256\": \"{ones}\"}}]}}"
    );
    assert!(recognizes_runtime_receipt(text.as_bytes()));
    for unrecognized in [
        r#"{"schema": "contextmink.runtime_install.v2"}"#,
        r#"{"contextmink_version": "0.15.0"}"#,
        "not json",
    ] {
        assert!(!recognizes_runtime_receipt(unrecognized.as_bytes()));
        let mut project = Project::new();
        project.write(ProjectPath::PreviousRuntimeReceipt, unrecognized.as_bytes());
        let fault = project.setup(SkillTarget::Both, true).unwrap_err();
        let error = message(fault, "setup-project");
        assert!(error.contains("move it aside, then rerun setup-project"), "{error}");
    }
    let mut project = Project::new();
    project.install();
    project.directories.push(ProjectPath::PreviousRuntimeReceipt);
    let fault = project.uninstall(None, false).unwrap_err();
    let error = message(fault, "uninstall-project");
    assert!(error.contains("move it aside, then rerun uninstall-project"), "{error}");
}

#[test]
fn receipts_are_read_as_they_were_written() {
    for target in [
        SkillTarget::Agents,
        SkillTarget::Claude,
        SkillTarget::Both,
        SkillTarget::Unselected,
    ] {
        let written = build_install_receipt(target, true, false);
        let text = receipt_bytes(&written, &harness());
        let read = load_install_receipt(Some(text.as_bytes()), &harness())
            .unwrap()
            .unwrap();
        assert_eq!(read.skill_target, target);
        assert_eq!(read.contextmink_version, VERSION);
        assert!(read.managed_gitignore_block);
        assert!(!read.managed_gitignore_file);
    }
    assert!(load_install_receipt(None, &harness()).unwrap().is_none());
    assert!(matches!(
        load_install_receipt(Some(b"{"), &harness()),
        Err(ReceiptFault::Unreadable { .. })
    ));
    assert!(matches!(
        load_install_receipt(Some(b"{}"), &harness()),
        Err(ReceiptFault::NoSchema)
    ));
    let mut text = receipt_bytes(&build_install_receipt(SkillTarget::Both, true, false), &harness());
    text = text.replace(VERSION, "1.2");
    assert!(matches!(
        load_install_receipt(Some(text.as_bytes()), &harness()),
        Err(ReceiptFault::BadVersion { .. })
    ));
}

#[test]
fn newer_installations_are_left_alone() {
    let mut receipt = build_install_receipt(SkillTarget::Both, false, false);
    assert!(refuse_release_downgrade(&receipt, "setup-project").is_none());
    receipt.contextmink_version = "999.0.0".to_owned();
    let refusal = refuse_release_downgrade(&receipt, "setup-project").unwrap();
    assert!(refusal.contains("999.0.0"), "{refusal}");
    receipt.contextmink_version = "none".to_owned();
    assert_eq!(
        refuse_release_downgrade(&receipt, "setup-project").unwrap(),
        "parse validated project-install receipt version"
    );
    receipt.contextmink_version = "0.1.0".to_owned();
    assert!(refuse_release_downgrade(&receipt, "setup-project").is_none());
}

#[test]
fn the_block_is_added_once_and_taken_out_again() {
    for original in ["", "target/\n", "target/", "a\r\nb\r\n"] {
        let with = gitignore_content(Some(original));
        assert!(gitignore_has_entry(&with));
        assert_eq!(gitignore_managed_block_count(&with), 1);
        assert_eq!(gitignore_content(Some(&with)), with);
        let without = gitignore_without_managed_block(&with).unwrap();
        assert!(!gitignore_has_entry(&without));
    }
    let twice = format!("{GITIGNORE_COMMENT}\n{GITIGNORE_ENTRY}\n").repeat(2);
    assert!(gitignore_without_managed_block(&twice).is_err());
}

#[test]
fn faults_of_an_installation_are_named() {
    let mut project = Project::new();
    project.directories.push(ProjectPath::Gitignore);
    assert!(matches!(
        project.setup(SkillTarget::Both, false),
        Err(SetupFault::GitignoreNotFile)
    ));
    let mut project = Project::new();
    project.write(ProjectPath::Gitignore, b"\xff\xfe");
    assert!(matches!(
        project.setup(SkillTarget::Both, false),
        Err(SetupFault::GitignoreNotText)
    ));
    let mut project = Project::new();
    let twice = format!("{GITIGNORE_COMMENT}\n{GITIGNORE_ENTRY}\n").repeat(2);
    project.write(ProjectPath::Gitignore, twice.as_bytes());
    assert!(matches!(
        project.setup(SkillTarget::Both, false),
        Err(SetupFault::MultipleBlocks)
    ));
    let mut project = Project::new();
    project.directories.push(ProjectPath::Launcher);
    assert!(matches!(
        project.setup(SkillTarget::Both, false),
        Err(SetupFault::NotFile(ProjectPath::Launcher))
    ));
    let mut project = Project::new();
    project.write(ProjectPath::Config, b"exclude_globs = []\n");
    assert!(matches!(
        project.setup(SkillTarget::Both, false),
        Err(SetupFault::NoProfile)
    ));
    let mut project = Project::new();
    project.install();
    project.remove(ProjectPath::ClaudeSkill);
    project.directories.push(ProjectPath::ClaudeSkill);
    assert!(matches!(
        project.setup(SkillTarget::Agents, false),
        Err(SetupFault::RetiredNotFile(ProjectPath::ClaudeSkill))
    ));
}

#[test]
fn executable_bits_are_added() {
    assert!(executable_bit_missing(0o644));
    assert!(!executable_bit_missing(0o755));
    assert_eq!(ensure_executable(0o600), 0o755);
    assert_eq!(release_is_for_windows("contextmink.exe"), Ok(true));
    assert_eq!(release_is_for_windows("contextmink"), Ok(false));
    assert!(release_is_for_windows("other").is_err());
    let files = contextmink_skill_files(SkillTarget::Both, false);
    assert!(files
        .iter()
        .all(|file| file.ownership == SetupFileOwnership::ReleaseManagedText));
}

#[test]
fn destinations_are_below_directories() {
    let ask = |relative: &str, kinds: &[EntryKind]| {
        validate_destination(relative, kinds, Host::Posix)
    };
    assert!(ask("a/b", &[EntryKind::Directory, EntryKind::File]).is_ok());
    assert!(ask("a/b", &[EntryKind::Missing, EntryKind::Missing]).is_ok());
    assert_eq!(
        ask("a/b", &[EntryKind::Link, EntryKind::File]),
        Err(DestinationFault::Link(0))
    );
    assert_eq!(
        ask("a/b", &[EntryKind::File, EntryKind::Missing]),
        Err(DestinationFault::NotDirectory(0))
    );
    for relative in ["", "/a", "../a", "a/../b", "./a"] {
        assert_eq!(ask(relative, &[]), Err(DestinationFault::NotNormalized), "{relative}");
    }
    assert_eq!(
        validate_destination("C:/a", &[], Host::Windows),
        Err(DestinationFault::NotNormalized)
    );
    assert_eq!(
        validate_path("a/b", &[EntryKind::Directory, EntryKind::Directory], Host::Posix),
        Err(DestinationFault::WrongKind(1))
    );
    assert!(validate_path("a/b", &[EntryKind::Directory, EntryKind::File], Host::Posix).is_ok());
    assert!(DestinationFault::Link(0)
        .message("a/b", "/r/a", false)
        .contains("traverses symlink /r/a"));
}
