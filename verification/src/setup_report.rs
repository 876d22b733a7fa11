//! What is reported of installing into a project and of removing from it.
use vstd::prelude::*;

use crate::json;
use crate::json::{
    add_item, add_member, json_array, json_object, json_text, json_texts, Json, JsonValue,
};
use crate::project_files::{ProjectPath, SkillTarget};
use crate::project_setup::{SetupAction, SetupActionKind, SetupFault};
use crate::strings;
use crate::strings::{flag_word, join, push_all, push_text};

verus! {

/// An action as it is written.
pub open spec fn action_line(action: SetupAction, harness: Seq<char>) -> Seq<char> {
    action.action.word() + "\t"@ + action.path.text(harness)
}

/// What is done, line by line.
pub fn write_setup_actions(actions: &[SetupAction], harness: &str) -> (lines: Vec<String>)
    ensures
        strings::texts(lines@) == actions@.map_values(|action: SetupAction| action_line(action, harness@)),
{
    let ghost wanted = actions@.map_values(|action: SetupAction| action_line(action, harness@));
    let mut lines: Vec<String> = Vec::new();
    let mut i: usize = 0;
    assert(strings::texts(lines@) =~= wanted.take(0));
    while i < actions.len()
        invariant
            i <= actions.len(),
            wanted == actions@.map_values(|action: SetupAction| action_line(action, harness@)),
            strings::texts(lines@) == wanted.take(i as int),
        decreases actions.len() - i,
    {
        push_text(
            &mut lines,
            actions[i].action.verb().to_owned().concat("\t").concat(
                actions[i].path.relative_path(harness).as_str(),
            ),
        );
        assert(wanted.take(i + 1) =~= wanted.take(i as int).push(wanted[i as int]));
        i += 1;
    }
    assert(wanted.take(i as int) =~= wanted);
    lines
}

pub open spec fn action_json(action: SetupAction, harness: Seq<char>) -> Json {
    Json::Object(
        seq![
            ("path"@, Json::Text(action.path.text(harness))),
            ("action"@, Json::Text(action.action.word())),
        ],
    )
}

fn actions_value(actions: &[SetupAction], harness: &str) -> (value: JsonValue)
    ensures
        value@ == Json::Array(actions@.map_values(|action: SetupAction| action_json(action, harness@))),
{
    let ghost wanted = actions@.map_values(|action: SetupAction| action_json(action, harness@));
    let mut items: Vec<JsonValue> = Vec::new();
    let mut i: usize = 0;
    assert(json::item_models(items@) =~= wanted.take(0));
    while i < actions.len()
        invariant
            i <= actions.len(),
            wanted == actions@.map_values(|action: SetupAction| action_json(action, harness@)),
            json::item_models(items@) == wanted.take(i as int),
        decreases actions.len() - i,
    {
        let mut members: Vec<(String, JsonValue)> = Vec::new();
        assert(json::member_models(members@) =~= Seq::empty());
        add_member(&mut members, "path", json_text(actions[i].path.relative_path(harness).as_str()));
        add_member(&mut members, "action", json_text(actions[i].action.verb()));
        let item = json_object(members);
        assert(item@->Object_0 =~= action_json(actions@[i as int], harness@)->Object_0);
        add_item(&mut items, item);
        assert(wanted.take(i + 1) =~= wanted.take(i as int).push(wanted[i as int]));
        i += 1;
    }
    assert(wanted.take(i as int) =~= wanted);
    json_array(items)
}

/// What to do once a project is installed into.
pub open spec fn setup_advice(target: SkillTarget, unowned: bool, harness: Seq<char>) -> Seq<Seq<char>> {
    seq![
        "Review .contextmink.toml and add only project-specific generated or high-output exclude globs."@,
        "Add repository-owned destructive-guard fragments only for critical paths that require a deletion tripwire."@,
        if target == SkillTarget::Unselected {
            "No Contextmink skill was selected. Use setup-user for personal discovery or rerun setup-project with --skill-target agents for a project skill. Neither requires edits to AGENTS.md or "@
                + strings::upper(harness) + ".md."@
        } else {
            "Start a fresh agent session and verify the selected Contextmink skill is listed. No repository-guidance trigger is required for skills-capable harnesses; setup-project never edits AGENTS.md or "@
                + strings::upper(harness) + ".md."@
        },
        "Verify the project-local entrypoint from every supported agent shell and a representative nested working directory; require the intended profile and contextmink.receipt.v2."@,
        "Inventory nested Git repositories, decide whether broad scans may cross them or require exact roots/--skip-nested-repos, and verify nested_repos_entered_total plus nested_repos_entered_sample."@,
        "Run the project-local guard-check -- git clean from the repository root and confirm the decision is deny."@,
        "Document the fresh-clone install step: rerunning setup-project preserves tracked configuration and restores ignored host binaries."@,
        "To remove Contextmink later, run uninstall-project from an extracted release binary outside the project; it removes Contextmink-owned integration files (including every host binary under tools/contextmink/bin) and preserves repository-owned configuration and guidance."@,
    ] + (if unowned {
        seq![
            "Move or delete each unreceipted Contextmink skill at a deselected path, or select the matching skill target, then rerun setup-project."@,
        ]
    } else {
        Seq::empty()
    })
}

/// What to do once a project is installed into.
pub fn setup_next_actions(target: SkillTarget, unowned: bool, harness: &str) -> (advice: Vec<String>)
    ensures
        strings::texts(advice@) == setup_advice(target, unowned, harness@),
{
    let mut advice: Vec<String> = Vec::new();
    assert(strings::texts(advice@) =~= Seq::empty());
    push_text(
        &mut advice,
        "Review .contextmink.toml and add only project-specific generated or high-output exclude globs.".to_owned(),
    );
    push_text(
        &mut advice,
        "Add repository-owned destructive-guard fragments only for critical paths that require a deletion tripwire.".to_owned(),
    );
    let skill = if target == SkillTarget::Unselected {
        "No Contextmink skill was selected. Use setup-user for personal discovery or rerun setup-project with --skill-target agents for a project skill. Neither requires edits to AGENTS.md or "
    } else {
        "Start a fresh agent session and verify the selected Contextmink skill is listed. No repository-guidance trigger is required for skills-capable harnesses; setup-project never edits AGENTS.md or "
    };
    push_text(
        &mut advice,
        skill.to_owned().concat(strings::to_upper(harness).as_str()).concat(".md."),
    );
    push_text(
        &mut advice,
        "Verify the project-local entrypoint from every supported agent shell and a representative nested working directory; require the intended profile and contextmink.receipt.v2.".to_owned(),
    );
    push_text(
        &mut advice,
        "Inventory nested Git repositories, decide whether broad scans may cross them or require exact roots/--skip-nested-repos, and verify nested_repos_entered_total plus nested_repos_entered_sample.".to_owned(),
    );
    push_text(
        &mut advice,
        "Run the project-local guard-check -- git clean from the repository root and confirm the decision is deny.".to_owned(),
    );
    push_text(
        &mut advice,
        "Document the fresh-clone install step: rerunning setup-project preserves tracked configuration and restores ignored host binaries.".to_owned(),
    );
    push_text(
        &mut advice,
        "To remove Contextmink later, run uninstall-project from an extracted release binary outside the project; it removes Contextmink-owned integration files (including every host binary under tools/contextmink/bin) and preserves repository-owned configuration and guidance.".to_owned(),
    );
    if unowned {
        push_text(
            &mut advice,
            "Move or delete each unreceipted Contextmink skill at a deselected path, or select the matching skill target, then rerun setup-project.".to_owned(),
        );
    }
    assert(strings::texts(advice@) =~= setup_advice(target, unowned, harness@));
    advice
}

pub open spec fn uninstall_advice(harness: Seq<char>) -> Seq<Seq<char>> {
    seq![
        "Review repository-owned AGENTS.md and "@ + strings::upper(harness)
            + ".md and remove any Contextmink trigger that is no longer wanted."@,
        "Keep or deliberately remove .contextmink.toml; uninstall-project preserves it because setup transfers configuration ownership to the repository."@,
    ]
}

fn uninstall_next_actions(harness: &str) -> (advice: Vec<String>)
    ensures
        strings::texts(advice@) == uninstall_advice(harness@),
{
    let mut advice: Vec<String> = Vec::new();
    assert(strings::texts(advice@) =~= Seq::empty());
    push_text(
        &mut advice,
        "Review repository-owned AGENTS.md and ".to_owned().concat(
            strings::to_upper(harness).as_str(),
        ).concat(".md and remove any Contextmink trigger that is no longer wanted."),
    );
    push_text(
        &mut advice,
        "Keep or deliberately remove .contextmink.toml; uninstall-project preserves it because setup transfers configuration ownership to the repository.".to_owned(),
    );
    assert(strings::texts(advice@) =~= uninstall_advice(harness@));
    advice
}

/// Whether a skill stands in the way.
pub open spec fn has_unowned(actions: Seq<SetupAction>) -> bool {
    exists|i: int|
        0 <= i < actions.len() && (#[trigger] actions[i]).action
            == SetupActionKind::UnownedRefusal
}

fn any_unowned(actions: &[SetupAction]) -> (held: bool)
    ensures
        held == has_unowned(actions@),
{
    let mut i: usize = 0;
    while i < actions.len()
        invariant
            i <= actions.len(),
            forall|k: int|
                0 <= k < i ==> (#[trigger] actions@[k]).action
                    != SetupActionKind::UnownedRefusal,
        decreases actions.len() - i,
    {
        if actions[i].action == SetupActionKind::UnownedRefusal {
            assert(actions@[i as int].action == SetupActionKind::UnownedRefusal);
            return true;
        }
        i += 1;
    }
    false
}

/// An installation, as it is reported.
#[derive(Debug)]
pub struct SetupProjectResult {
    pub project_root: String,
    pub profile: String,
    pub dry_run: bool,
    pub ready: bool,
    pub requested_skill_target: SkillTarget,
    pub resolved_skill_target: SkillTarget,
    pub actions: Vec<SetupAction>,
    pub agent_guidance_files_found: Vec<String>,
    /// The name of the harness with skills of its own.
    pub harness: String,
}

/// Lines with a dash in front.
pub open spec fn dashed(lines: Seq<Seq<char>>) -> Seq<Seq<char>> {
    lines.map_values(|line: Seq<char>| "- "@ + line)
}

fn push_dashed(lines: &mut Vec<String>, list: &[String])
    ensures
        strings::texts(final(lines)@) == strings::texts(old(lines)@) + dashed(
            strings::texts(list@),
        ),
{
    let ghost before = strings::texts(lines@);
    let ghost given = strings::texts(list@);
    let ghost wanted = dashed(given);
    let mut i: usize = 0;
    assert(before + wanted.take(0) =~= before);
    while i < list.len()
        invariant
            i <= list.len(),
            given == strings::texts(list@),
            wanted == dashed(given),
            strings::texts(lines@) == before + wanted.take(i as int),
        decreases list.len() - i,
    {
        assert(given[i as int] == list@[i as int]@);
        push_text(lines, "- ".to_owned().concat(list[i].as_str()));
        assert(before + wanted.take(i + 1) =~= (before + wanted.take(i as int)).push(
            wanted[i as int],
        ));
        i += 1;
    }
    assert(wanted.take(i as int) =~= wanted);
}

pub open spec fn listed_line(name: Seq<char>, list: Seq<Seq<char>>) -> Seq<Seq<char>> {
    if list.len() == 0 {
        Seq::empty()
    } else {
        seq![name + "="@ + strings::join_texts(list, ","@)]
    }
}

impl SetupProjectResult {
    pub open spec fn advice(&self) -> Seq<Seq<char>> {
        setup_advice(self.resolved_skill_target, has_unowned(self.actions@), self.harness@)
    }

    pub open spec fn json(&self) -> Json {
        Json::Object(
            seq![
                ("schema"@, Json::Text("contextmink.project_setup.v3"@)),
                ("project_root"@, Json::Text(self.project_root@)),
                ("profile"@, Json::Text(self.profile@)),
                ("dry_run"@, Json::Bool(self.dry_run)),
                ("ready"@, Json::Bool(self.ready)),
                ("requested_skill_target"@, Json::Text(self.requested_skill_target.word(self.harness@))),
                ("resolved_skill_target"@, Json::Text(self.resolved_skill_target.word(self.harness@))),
                (
                    "actions"@,
                    Json::Array(
                        self.actions@.map_values(|action: SetupAction| action_json(action, self.harness@)),
                    ),
                ),
                (
                    "agent_guidance_files_found"@,
                    json::text_array(strings::texts(self.agent_guidance_files_found@)),
                ),
                ("next_actions"@, json::text_array(self.advice())),
            ],
        )
    }

    pub fn to_json(&self) -> (value: JsonValue)
        ensures
            value@ == self.json(),
    {
        let mut members: Vec<(String, JsonValue)> = Vec::new();
        assert(json::member_models(members@) =~= Seq::empty());
        add_member(&mut members, "schema", json_text("contextmink.project_setup.v3"));
        add_member(&mut members, "project_root", json_text(self.project_root.as_str()));
        add_member(&mut members, "profile", json_text(self.profile.as_str()));
        add_member(&mut members, "dry_run", JsonValue::Bool(self.dry_run));
        add_member(&mut members, "ready", JsonValue::Bool(self.ready));
        add_member(
            &mut members,
            "requested_skill_target",
            json_text(self.requested_skill_target.as_str(self.harness.as_str())),
        );
        add_member(
            &mut members,
            "resolved_skill_target",
            json_text(self.resolved_skill_target.as_str(self.harness.as_str())),
        );
        add_member(&mut members, "actions", actions_value(&self.actions, self.harness.as_str()));
        add_member(
            &mut members,
            "agent_guidance_files_found",
            json_texts(&self.agent_guidance_files_found),
        );
        let advice = setup_next_actions(self.resolved_skill_target, any_unowned(&self.actions), self.harness.as_str());
        add_member(&mut members, "next_actions", json_texts(&advice));
        let value = json_object(members);
        assert(value@->Object_0 =~= self.json()->Object_0);
        value
    }

    /// What is shown, line by line.
    pub open spec fn shown_lines(&self) -> Seq<Seq<char>> {
        seq![
            "[contextmink] setup-project root="@ + self.project_root@ + " profile="@ + self.profile@
                + " dry_run="@ + strings::flag_text(self.dry_run) + " ready="@ + strings::flag_text(
                self.ready,
            ) + " requested_skill_target="@ + self.requested_skill_target.word(self.harness@)
                + " resolved_skill_target="@ + self.resolved_skill_target.word(self.harness@),
        ] + self.actions@.map_values(|action: SetupAction| action_line(action, self.harness@)) + listed_line(
            "agent_guidance_files_found"@,
            strings::texts(self.agent_guidance_files_found@),
        ) + seq!["next_actions:"@] + dashed(self.advice())
    }

    /// What is shown, line by line.
    pub fn lines(&self) -> (lines: Vec<String>)
        ensures
            strings::texts(lines@) == self.shown_lines(),
    {
        let mut lines: Vec<String> = Vec::new();
        assert(strings::texts(lines@) =~= Seq::empty());
        push_text(
            &mut lines,
            "[contextmink] setup-project root=".to_owned().concat(
                self.project_root.as_str(),
            ).concat(" profile=").concat(self.profile.as_str()).concat(" dry_run=").concat(
                flag_word(self.dry_run),
            ).concat(" ready=").concat(flag_word(self.ready)).concat(
                " requested_skill_target=",
            ).concat(self.requested_skill_target.as_str(self.harness.as_str())).concat(
                " resolved_skill_target=",
            ).concat(self.resolved_skill_target.as_str(self.harness.as_str())),
        );
        push_all(&mut lines, &write_setup_actions(&self.actions, self.harness.as_str()));
        assert(strings::texts(self.agent_guidance_files_found@).len()
            == self.agent_guidance_files_found@.len());
        if self.agent_guidance_files_found.len() > 0 {
            push_text(
                &mut lines,
                "agent_guidance_files_found".to_owned().concat("=").concat(
                    join(&self.agent_guidance_files_found, ",").as_str(),
                ),
            );
        }
        push_text(&mut lines, "next_actions:".to_owned());
        push_dashed(
            &mut lines,
            &setup_next_actions(self.resolved_skill_target, any_unowned(&self.actions), self.harness.as_str()),
        );
        assert(strings::texts(lines@) =~= self.shown_lines());
        lines
    }
}

/// A removal, as it is reported.
#[derive(Debug)]
pub struct UninstallProjectResult {
    pub project_root: String,
    pub dry_run: bool,
    pub actions: Vec<SetupAction>,
    pub preserved_repository_owned: Vec<String>,
    /// The name of the harness with skills of its own.
    pub harness: String,
}

impl UninstallProjectResult {
    pub open spec fn json(&self) -> Json {
        Json::Object(
            seq![
                ("schema"@, Json::Text("contextmink.project_uninstall.v2"@)),
                ("project_root"@, Json::Text(self.project_root@)),
                ("dry_run"@, Json::Bool(self.dry_run)),
                ("ready"@, Json::Bool(true)),
                (
                    "actions"@,
                    Json::Array(
                        self.actions@.map_values(|action: SetupAction| action_json(action, self.harness@)),
                    ),
                ),
                (
                    "preserved_repository_owned"@,
                    json::text_array(strings::texts(self.preserved_repository_owned@)),
                ),
                ("next_actions"@, json::text_array(uninstall_advice(self.harness@))),
            ],
        )
    }

    /// A removal that is planned is ready: whatever stands in its way refuses it.
    pub fn to_json(&self) -> (value: JsonValue)
        ensures
            value@ == self.json(),
    {
        let mut members: Vec<(String, JsonValue)> = Vec::new();
        assert(json::member_models(members@) =~= Seq::empty());
        add_member(&mut members, "schema", json_text("contextmink.project_uninstall.v2"));
        add_member(&mut members, "project_root", json_text(self.project_root.as_str()));
        add_member(&mut members, "dry_run", JsonValue::Bool(self.dry_run));
        add_member(&mut members, "ready", JsonValue::Bool(true));
        add_member(&mut members, "actions", actions_value(&self.actions, self.harness.as_str()));
        add_member(
            &mut members,
            "preserved_repository_owned",
            json_texts(&self.preserved_repository_owned),
        );
        add_member(&mut members, "next_actions", json_texts(&uninstall_next_actions(self.harness.as_str())));
        let value = json_object(members);
        assert(value@->Object_0 =~= self.json()->Object_0);
        value
    }

    /// What is shown, line by line.
    pub open spec fn shown_lines(&self) -> Seq<Seq<char>> {
        seq![
            "[contextmink] uninstall-project root="@ + self.project_root@ + " dry_run="@
                + strings::flag_text(self.dry_run) + " ready=true"@,
        ] + self.actions@.map_values(|action: SetupAction| action_line(action, self.harness@)) + listed_line(
            "preserved_repository_owned"@,
            strings::texts(self.preserved_repository_owned@),
        ) + seq!["next_actions:"@] + dashed(uninstall_advice(self.harness@))
    }

    /// What is shown, line by line.
    pub fn lines(&self) -> (lines: Vec<String>)
        ensures
            strings::texts(lines@) == self.shown_lines(),
    {
        let mut lines: Vec<String> = Vec::new();
        assert(strings::texts(lines@) =~= Seq::empty());
        push_text(
            &mut lines,
            "[contextmink] uninstall-project root=".to_owned().concat(
                self.project_root.as_str(),
            ).concat(" dry_run=").concat(flag_word(self.dry_run)).concat(" ready=true"),
        );
        push_all(&mut lines, &write_setup_actions(&self.actions, self.harness.as_str()));
        assert(strings::texts(self.preserved_repository_owned@).len()
            == self.preserved_repository_owned@.len());
        if self.preserved_repository_owned.len() > 0 {
            push_text(
                &mut lines,
                "preserved_repository_owned".to_owned().concat("=").concat(
                    join(&self.preserved_repository_owned, ",").as_str(),
                ),
            );
        }
        push_text(&mut lines, "next_actions:".to_owned());
        push_dashed(&mut lines, &uninstall_next_actions(self.harness.as_str()));
        assert(strings::texts(lines@) =~= self.shown_lines());
        lines
    }
}

pub open spec fn below(root: Seq<char>, path: ProjectPath, harness: Seq<char>) -> Seq<char> {
    root + "/"@ + path.text(harness)
}

fn path_below(root: &str, path: ProjectPath, harness: &str) -> (text: String)
    ensures
        text@ == below(root@, path, harness@),
{
    root.to_owned().concat("/").concat(path.relative_path(harness).as_str())
}

impl SetupFault {
    /// What is said of the fault in an operation on a project; `detail` is what is
    /// wrong with the configuration.
    pub open spec fn text(
        self,
        operation: Seq<char>,
        root: Seq<char>,
        detail: Seq<char>,
        harness: Seq<char>,
    ) -> Seq<char> {
        match self {
            SetupFault::RuntimeReceipt => operation + " does not recognize "@ + below(root, ProjectPath::PreviousRuntimeReceipt, harness) + " as a Contextmink 0.15 runtime receipt; move it aside, then rerun "@ + operation,
            SetupFault::GitignoreNotFile => operation + " cannot preserve non-file "@ + below(root, ProjectPath::Gitignore, harness),
            SetupFault::GitignoreNotText => "read "@ + below(root, ProjectPath::Gitignore, harness)
                + " as UTF-8"@,
            SetupFault::MultipleBlocks => operation
                + " found multiple Contextmink-managed blocks in "@ + below(root, ProjectPath::Gitignore, harness) + "; consolidate them deliberately before retrying"@,
            SetupFault::ModifiedBlock => operation
                + " refuses modified Contextmink-managed .gitignore block in "@ + below(root, ProjectPath::Gitignore, harness)
                + "; restore the managed comment and entry or remove the standalone entry deliberately, then rerun "@
                + operation,
            SetupFault::NotFile(path) => operation + " destination is not a file: "@ + below(root, path, harness),
            SetupFault::InvalidConfig => operation
                + " cannot preserve invalid repository-owned configuration "@ + below(root, ProjectPath::Config, harness) + ": "@ + detail,
            SetupFault::NoProfile => operation
                + " cannot preserve repository-owned configuration "@ + below(root, ProjectPath::Config, harness) + " without a profile"@,
            SetupFault::RetiredNotFile(path) => operation + " cannot remove non-file managed path "@
                + below(root, path, harness) + "; move it aside deliberately, then rerun "@ + operation,
            SetupFault::Unowned(path) => operation
                + " refuses unreceipted skill at deselected path "@ + below(root, path, harness)
                + "; move or delete it deliberately, then rerun "@ + operation,
            SetupFault::RuntimeNotFile(path) => operation
                + " cannot remove non-file managed runtime "@ + below(root, path, harness)
                + "; move it aside deliberately, then rerun "@ + operation,
            SetupFault::RunningBinary(path) => operation
                + " cannot remove the running project-local binary "@ + below(root, path, harness)
                + "; run "@ + operation + " from an extracted Contextmink release outside the project"@,
        }
    }

    /// What is said of the fault in an operation on a project.
    pub fn message(self, operation: &str, root: &str, detail: &str, harness: &str) -> (message:
        String)
        ensures
            message@ == self.text(operation@, root@, detail@, harness@),
    {
        let gitignore = path_below(root, ProjectPath::Gitignore, harness);
        let config = path_below(root, ProjectPath::Config, harness);
        match self {
            SetupFault::RuntimeReceipt => operation.to_owned().concat(" does not recognize ").concat(
                path_below(root, ProjectPath::PreviousRuntimeReceipt, harness).as_str(),
            ).concat(" as a Contextmink 0.15 runtime receipt; move it aside, then rerun ").concat(
                operation,
            ),
            SetupFault::GitignoreNotFile => operation.to_owned().concat(
                " cannot preserve non-file ",
            ).concat(gitignore.as_str()),
            SetupFault::GitignoreNotText => "read ".to_owned().concat(gitignore.as_str()).concat(
                " as UTF-8",
            ),
            SetupFault::MultipleBlocks => operation.to_owned().concat(
                " found multiple Contextmink-managed blocks in ",
            ).concat(gitignore.as_str()).concat("; consolidate them deliberately before retrying"),
            SetupFault::ModifiedBlock => operation.to_owned().concat(
                " refuses modified Contextmink-managed .gitignore block in ",
            ).concat(gitignore.as_str()).concat(
                "; restore the managed comment and entry or remove the standalone entry deliberately, then rerun ",
            ).concat(operation),
            SetupFault::NotFile(path) => operation.to_owned().concat(
                " destination is not a file: ",
            ).concat(path_below(root, path, harness).as_str()),
            SetupFault::InvalidConfig => operation.to_owned().concat(
                " cannot preserve invalid repository-owned configuration ",
            ).concat(config.as_str()).concat(": ").concat(detail),
            SetupFault::NoProfile => operation.to_owned().concat(
                " cannot preserve repository-owned configuration ",
            ).concat(config.as_str()).concat(" without a profile"),
            SetupFault::RetiredNotFile(path) => operation.to_owned().concat(
                " cannot remove non-file managed path ",
            ).concat(path_below(root, path, harness).as_str()).concat(
                "; move it aside deliberately, then rerun ",
            ).concat(operation),
            SetupFault::Unowned(path) => operation.to_owned().concat(
                " refuses unreceipted skill at deselected path ",
            ).concat(path_below(root, path, harness).as_str()).concat(
                "; move or delete it deliberately, then rerun ",
            ).concat(operation),
            SetupFault::RuntimeNotFile(path) => operation.to_owned().concat(
                " cannot remove non-file managed runtime ",
            ).concat(path_below(root, path, harness).as_str()).concat(
                "; move it aside deliberately, then rerun ",
            ).concat(operation),
            SetupFault::RunningBinary(path) => operation.to_owned().concat(
                " cannot remove the running project-local binary ",
            ).concat(path_below(root, path, harness).as_str()).concat("; run ").concat(operation).concat(
                " from an extracted Contextmink release outside the project",
            ),
        }
    }
}

} // verus!
