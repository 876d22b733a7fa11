//! What removing an installation from a project would do.
use vstd::prelude::*;

use crate::project_files;
use crate::project_files::{gitignore_without_managed_block, ProjectPath, SkillTarget};
use crate::project_receipt;
use crate::project_receipt::InstallReceipt;
use crate::project_setup;
use crate::project_setup::{
    check_runtime_receipt, read_gitignore, PathState, Setup, SetupAction, SetupActionKind,
    SetupFault, State,
};
use crate::setup_laws;
use crate::strings;
use crate::strings::same_text;

verus! {

/// What a removal is planned from.
#[derive(Debug)]
pub struct UninstallInputs {
    /// What is at every path, each in its place.
    pub states: Vec<PathState>,
    pub receipt: InstallReceipt,
    /// The path of the binary that is running, if it is one of the project's.
    pub running: Option<ProjectPath>,
}

/// The model of what a removal is planned from.
pub struct Uninstall {
    pub states: Seq<State>,
    pub receipt: project_receipt::Install,
    pub running: Option<ProjectPath>,
}

impl View for UninstallInputs {
    type V = Uninstall;

    open spec fn view(&self) -> Uninstall {
        Uninstall {
            states: project_setup::state_models(self.states@),
            receipt: self.receipt@,
            running: self.running,
        }
    }
}

impl Uninstall {
    pub open spec fn well_formed(self) -> bool {
        self.states.len() == 14
    }

    pub open spec fn state(self, path: ProjectPath) -> State {
        self.states[path.place() as int]
    }

    /// The first text from here on that cannot be removed.
    pub open spec fn texts_fault(self, at: int) -> Option<SetupFault>
        decreases self.receipt.target.owned().len() - at,
    {
        let owned = self.receipt.target.owned();
        if at < 0 || at >= owned.len() {
            None
        } else if self.state(owned[at]) is Other {
            Some(SetupFault::RetiredNotFile(owned[at]))
        } else {
            self.texts_fault(at + 1)
        }
    }

    /// The first binary from here on that cannot be removed.
    pub open spec fn runtimes_fault(self, at: int) -> Option<SetupFault>
        decreases 3 - at,
    {
        if at < 0 || at >= 3 {
            None
        } else {
            let path = project_files::runtimes()[at];
            match self.state(path) {
                State::Other => Some(SetupFault::RuntimeNotFile(path)),
                State::File(_, _) => if self.running == Some(path) {
                    Some(SetupFault::RunningBinary(path))
                } else {
                    self.runtimes_fault(at + 1)
                },
                State::Missing => self.runtimes_fault(at + 1),
            }
        }
    }

    pub open spec fn gitignore(self) -> Option<Seq<char>> {
        project_setup::ignored_files(self.state(ProjectPath::Gitignore))
    }

    /// The list of ignored files that is left; `None` where there is none.
    pub open spec fn updated_gitignore(self) -> Option<Seq<char>> {
        match self.gitignore() {
            Some(text) => if self.receipt.block {
                project_files::without_block(text)
            } else {
                Some(text)
            },
            None => None,
        }
    }

    pub open spec fn has_multiple_blocks(self) -> bool {
        self.receipt.block && (self.gitignore() matches Some(text) && project_files::without_block(
            text,
        ) is None)
    }

    pub open spec fn gitignore_action(self) -> SetupActionKind {
        if self.receipt.file && self.gitignore() is Some && self.updated_gitignore() == Some(
            Seq::<char>::empty(),
        ) {
            SetupActionKind::RemoveManaged
        } else if self.gitignore() != self.updated_gitignore() {
            SetupActionKind::UpdateGitignore
        } else {
            SetupActionKind::Unchanged
        }
    }

    /// Why the removal is refused.
    pub open spec fn fault(self) -> Option<SetupFault> {
        if project_setup::has_strange_runtime_receipt(
            self.state(ProjectPath::PreviousRuntimeReceipt),
        ) {
            Some(SetupFault::RuntimeReceipt)
        } else if let Some(fault) = self.texts_fault(0) {
            Some(fault)
        } else if let Some(fault) = self.runtimes_fault(0) {
            Some(fault)
        } else if let Some(fault) = project_setup::gitignore_fault(
            self.state(ProjectPath::Gitignore),
        ) {
            Some(fault)
        } else if self.has_multiple_blocks() {
            Some(SetupFault::MultipleBlocks)
        } else {
            None
        }
    }

    pub open spec fn is_there(self, path: ProjectPath) -> bool {
        self.state(path) is File
    }

    /// The files that are removed: the texts and the binaries that are there,
    /// whatever they hold.
    pub open spec fn removed(self) -> Seq<ProjectPath> {
        let owned = self.receipt.target.owned();
        project_setup::chosen(owned, |path: ProjectPath| self.is_there(path), owned.len())
            + project_setup::chosen(
            project_files::runtimes(),
            |path: ProjectPath| self.is_there(path),
            3,
        ) + (if project_setup::has_runtime_receipt(
            self.state(ProjectPath::PreviousRuntimeReceipt),
        ) {
            seq![ProjectPath::PreviousRuntimeReceipt]
        } else {
            Seq::empty()
        })
    }

    /// What the removal does, in order.
    pub open spec fn actions(self) -> Seq<SetupAction> {
        project_setup::with_kind(self.removed(), SetupActionKind::RemoveManaged) + seq![
            SetupAction { path: ProjectPath::Gitignore, action: self.gitignore_action() },
            SetupAction {
                path: ProjectPath::InstallReceipt,
                action: SetupActionKind::RemoveManaged,
            },
        ]
    }
}

/// What a removal does.
#[derive(Debug)]
pub struct UninstallPlan {
    pub actions: Vec<SetupAction>,
    /// The list of ignored files that is left.
    pub gitignore: Option<String>,
}

fn push_there(
    inputs: &UninstallInputs,
    paths: &[ProjectPath],
    actions: &mut Vec<SetupAction>,
)
    requires
        inputs@.well_formed(),
    ensures
        final(actions)@ == old(actions)@ + project_setup::with_kind(
            project_setup::chosen(
                paths@,
                |path: ProjectPath| inputs@.is_there(path),
                paths@.len(),
            ),
            SetupActionKind::RemoveManaged,
        ),
{
    let ghost before = actions@;
    let ghost test = |path: ProjectPath| inputs@.is_there(path);
    let mut i: usize = 0;
    assert(actions@ =~= before + project_setup::with_kind(
        project_setup::chosen(paths@, test, 0),
        SetupActionKind::RemoveManaged,
    ));
    while i < paths.len()
        invariant
            i <= paths.len(),
            inputs@.well_formed(),
            test == (|path: ProjectPath| inputs@.is_there(path)),
            actions@ == before + project_setup::with_kind(
                project_setup::chosen(paths@, test, i as nat),
                SetupActionKind::RemoveManaged,
            ),
        decreases paths.len() - i,
    {
        let place = paths[i].index();
        assert(inputs@.states[place as int] == inputs.states@[place as int]@);
        if let PathState::File { .. } = &inputs.states[place] {
            actions.push(
                SetupAction { path: paths[i], action: SetupActionKind::RemoveManaged },
            );
        }
        assert(actions@ =~= before + project_setup::with_kind(
            project_setup::chosen(paths@, test, (i + 1) as nat),
            SetupActionKind::RemoveManaged,
        ));
        i += 1;
    }
}

fn check_texts(inputs: &UninstallInputs, owned: &[ProjectPath]) -> (verdict: Result<(), SetupFault>)
    requires
        inputs@.well_formed(),
        owned@ == inputs@.receipt.target.owned(),
    ensures
        match verdict {
            Ok(_) => inputs@.texts_fault(0) is None,
            Err(fault) => inputs@.texts_fault(0) == Some(fault),
        },
{
    let mut i: usize = 0;
    while i < owned.len()
        invariant
            i <= owned.len(),
            inputs@.well_formed(),
            owned@ == inputs@.receipt.target.owned(),
            inputs@.texts_fault(i as int) == inputs@.texts_fault(0),
        decreases owned.len() - i,
    {
        let place = owned[i].index();
        assert(inputs@.states[place as int] == inputs.states@[place as int]@);
        if let PathState::Other = &inputs.states[place] {
            return Err(SetupFault::RetiredNotFile(owned[i]));
        }
        i += 1;
    }
    Ok(())
}

fn check_runtimes(inputs: &UninstallInputs, runtimes: &[ProjectPath]) -> (verdict: Result<
    (),
    SetupFault,
>)
    requires
        inputs@.well_formed(),
        runtimes@ == project_files::runtimes(),
    ensures
        match verdict {
            Ok(_) => inputs@.runtimes_fault(0) is None,
            Err(fault) => inputs@.runtimes_fault(0) == Some(fault),
        },
{
    let mut i: usize = 0;
    while i < runtimes.len()
        invariant
            i <= runtimes.len(),
            inputs@.well_formed(),
            runtimes@ == project_files::runtimes(),
            inputs@.runtimes_fault(i as int) == inputs@.runtimes_fault(0),
        decreases runtimes.len() - i,
    {
        let path = runtimes[i];
        let place = path.index();
        assert(inputs@.states[place as int] == inputs.states@[place as int]@);
        match &inputs.states[place] {
            PathState::Missing => {},
            PathState::Other => {
                return Err(SetupFault::RuntimeNotFile(path));
            },
            PathState::File { .. } => {
                if let Some(running) = inputs.running {
                    if running == path {
                        return Err(SetupFault::RunningBinary(path));
                    }
                }
            },
        }
        i += 1;
    }
    Ok(())
}

/// Plans a removal: the texts that the receipt implies, every binary that is there,
/// the block in the list of ignored files, and the receipt. What belongs to the
/// repository stays.
pub fn uninstall_project(inputs: &UninstallInputs) -> (plan: Result<UninstallPlan, SetupFault>)
    requires
        inputs@.well_formed(),
    ensures
        match plan {
            Ok(plan) => {
                &&& inputs@.fault() is None
                &&& plan.actions@ == inputs@.actions()
                &&& strings::text_option(plan.gitignore) == inputs@.updated_gitignore()
            },
            Err(fault) => inputs@.fault() == Some(fault),
        },
{
    let runtime_place = ProjectPath::PreviousRuntimeReceipt.index();
    assert(inputs@.states[runtime_place as int] == inputs.states@[runtime_place as int]@);
    let runtime_receipt = match check_runtime_receipt(&inputs.states[runtime_place]) {
        Ok(held) => held,
        Err(fault) => {
            return Err(fault);
        },
    };
    let owned = inputs.receipt.skill_target.owned_text_paths();
    if let Err(fault) = check_texts(inputs, &owned) {
        return Err(fault);
    }
    let runtimes: Vec<ProjectPath> = vec![
        ProjectPath::Binary,
        ProjectPath::WindowsBinary,
        ProjectPath::WindowsBridge,
    ];
    assert(runtimes@ =~= project_files::runtimes());
    if let Err(fault) = check_runtimes(inputs, &runtimes) {
        return Err(fault);
    }
    let gitignore_place = ProjectPath::Gitignore.index();
    assert(inputs@.states[gitignore_place as int] == inputs.states@[gitignore_place as int]@);
    let existing = match read_gitignore(&inputs.states[gitignore_place]) {
        Ok(existing) => existing,
        Err(fault) => {
            return Err(fault);
        },
    };
    let gitignore = match &existing {
        Some(text) => if inputs.receipt.managed_gitignore_block {
            match gitignore_without_managed_block(text.as_str()) {
                Ok(rest) => Some(rest),
                Err(_) => {
                    return Err(SetupFault::MultipleBlocks);
                },
            }
        } else {
            Some(text.clone())
        },
        None => None,
    };
    let mut actions: Vec<SetupAction> = Vec::new();
    push_there(inputs, &owned, &mut actions);
    push_there(inputs, &runtimes, &mut actions);
    if runtime_receipt {
        actions.push(
            SetupAction {
                path: ProjectPath::PreviousRuntimeReceipt,
                action: SetupActionKind::RemoveManaged,
            },
        );
    }
    let emptied = match &gitignore {
        Some(rest) => rest.as_str().is_empty(),
        None => false,
    };
    let changed = match (&existing, &gitignore) {
        (Some(old), Some(new)) => !same_text(old.as_str(), new.as_str()),
        _ => false,
    };
    assert(emptied == (inputs@.updated_gitignore() == Some(Seq::<char>::empty()))) by {
        if emptied {
            assert(gitignore->Some_0@ =~= Seq::empty());
        }
    }
    let action = if inputs.receipt.managed_gitignore_file && emptied {
        SetupActionKind::RemoveManaged
    } else if changed {
        SetupActionKind::UpdateGitignore
    } else {
        SetupActionKind::Unchanged
    };
    actions.push(SetupAction { path: ProjectPath::Gitignore, action });
    actions.push(
        SetupAction { path: ProjectPath::InstallReceipt, action: SetupActionKind::RemoveManaged },
    );
    assert(actions@ =~= inputs@.actions());
    Ok(UninstallPlan { actions, gitignore })
}

/// What a removal finds that follows an installation.
pub open spec fn removal_after(setup: Setup, profile: Seq<char>) -> Uninstall {
    Uninstall {
        states: setup_laws::after_setup(setup, profile).states,
        receipt: setup.receipt(),
        running: None,
    }
}

/// A removal removes every file of the release that an installation has left, unless
/// a binary that is in the way of another host is no file; it leaves the repository's
/// configuration, and a list of ignored files that the installation has created goes
/// with it.
pub proof fn removal_undoes_installation(setup: Setup, profile: Seq<char>, path: ProjectPath)
    requires
        setup.well_formed(),
        setup.fault() is None,
        !setup.dry_run,
        setup.state(ProjectPath::Binary) !is Other,
        setup.state(ProjectPath::WindowsBinary) !is Other,
        setup.state(ProjectPath::WindowsBridge) !is Other,
    ensures
        ({
            let removal = removal_after(setup, profile);
            &&& removal.fault() is None
            &&& (setup_laws::file_for(setup.target(), setup.windows, path) matches Some(file)
                && file.path != ProjectPath::Config) ==> removal.removed().contains(path)
            &&& !removal.removed().contains(ProjectPath::Config)
            &&& setup.state(ProjectPath::Gitignore) is Missing ==> removal.gitignore_action()
                == SetupActionKind::RemoveManaged
        }),
{
    let removal = removal_after(setup, profile);
    let next = setup_laws::after_setup(setup, profile);
    setup_laws::lemma_gitignore_settles(setup, profile);
    setup_laws::lemma_state_after(setup, profile, ProjectPath::PreviousRuntimeReceipt);
    setup_laws::lemma_state_after(setup, profile, ProjectPath::Gitignore);
    setup_laws::lemma_state_after(setup, profile, ProjectPath::Binary);
    setup_laws::lemma_state_after(setup, profile, ProjectPath::WindowsBinary);
    setup_laws::lemma_state_after(setup, profile, ProjectPath::WindowsBridge);
    let owned = removal.receipt.target.owned();
    assert forall|i: int| 0 <= i < owned.len() implies removal.state(#[trigger] owned[i]) !is Other by {
        assert(owned.contains(owned[i]));
        setup_laws::lemma_paths_settle(setup, profile, owned[i]);
        setup_laws::lemma_installed_is_file(setup, profile, owned[i]);
        assert(removal.state(owned[i]) == next.state(owned[i]));
    }
    lemma_texts_faultless(removal, 0);
    assert(project_files::runtimes()[0] == ProjectPath::Binary);
    assert(project_files::runtimes()[1] == ProjectPath::WindowsBinary);
    assert(project_files::runtimes()[2] == ProjectPath::WindowsBridge);
    setup_laws::lemma_installed_is_file(setup, profile, ProjectPath::Binary);
    setup_laws::lemma_installed_is_file(setup, profile, ProjectPath::WindowsBinary);
    setup_laws::lemma_installed_is_file(setup, profile, ProjectPath::WindowsBridge);
    assert(removal.runtimes_fault(3) is None);
    assert(removal.runtimes_fault(2) is None);
    assert(removal.runtimes_fault(1) is None);
    assert(removal.runtimes_fault(0) is None);
    assert(removal.gitignore() == next.gitignore());
    assert(!removal.has_multiple_blocks()) by {
        assert(project_files::block_count(next.gitignore_text()) <= 1);
    }
    let test = |path: ProjectPath| removal.is_there(path);
    if let Some(file) = setup_laws::file_for(setup.target(), setup.windows, path) {
        if path != ProjectPath::Config {
            setup_laws::lemma_state_after(setup, profile, path);
            setup_laws::lemma_installed_is_file(setup, profile, path);
            assert(removal.is_there(path));
            if project_files::runtimes().contains(path) {
                lemma_chosen_holds(project_files::runtimes(), test, 3, path);
            } else {
                lemma_owned_or_runtime(setup.target(), setup.windows, path);
                lemma_chosen_holds(owned, test, owned.len(), path);
            }
            lemma_in_removed(removal, path);
        }
    }
    if removal.removed().contains(ProjectPath::Config) {
        lemma_removed_is_owned(removal, ProjectPath::Config);
    }
    if setup.state(ProjectPath::Gitignore) is Missing {
        let none = Seq::<char>::empty();
        assert(setup.gitignore_text() =~= none);
        assert(!project_files::lists_binaries(none)) by {
            assert(crate::lines::text_lines(none) =~= Seq::empty());
        }
        project_files::removing_the_block_undoes_adding_it(none);
        assert(setup.updated_gitignore() == project_files::with_entry(none));
        assert(project_files::ended(none) == none);
    }
}

proof fn lemma_texts_faultless(removal: Uninstall, at: int)
    requires
        0 <= at <= removal.receipt.target.owned().len(),
        forall|i: int|
            0 <= i < removal.receipt.target.owned().len() ==> removal.state(
                #[trigger] removal.receipt.target.owned()[i],
            ) !is Other,
    ensures
        removal.texts_fault(at) is None,
    decreases removal.receipt.target.owned().len() - at,
{
    let owned = removal.receipt.target.owned();
    if at < owned.len() {
        assert(removal.state(owned[at]) !is Other);
        lemma_texts_faultless(removal, at + 1);
    }
}

proof fn lemma_chosen_holds(
    paths: Seq<ProjectPath>,
    test: spec_fn(ProjectPath) -> bool,
    n: nat,
    path: ProjectPath,
)
    requires
        n <= paths.len(),
        test(path),
        paths.take(n as int).contains(path) || (n == paths.len() && paths.contains(path)),
    ensures
        project_setup::chosen(paths, test, n).contains(path),
    decreases n,
{
    let i = choose|i: int| 0 <= i < paths.len() && i < n && paths[i] == path;
    assert(0 <= i < n && paths[i] == path) by {
        if paths.take(n as int).contains(path) {
            let k = choose|k: int| 0 <= k < n && paths.take(n as int)[k] == path;
            assert(paths[k] == path);
        }
    }
    let kept = project_setup::chosen(paths, test, n);
    if i == n - 1 {
        assert(kept.last() == path);
    } else {
        let fewer = paths.take(n - 1);
        assert(fewer[i] == path);
        lemma_chosen_holds(paths, test, (n - 1) as nat, path);
        let before = project_setup::chosen(paths, test, (n - 1) as nat);
        let k = choose|k: int| 0 <= k < before.len() && before[k] == path;
        assert(kept[k] == path);
    }
}

proof fn lemma_chosen_is_among(
    paths: Seq<ProjectPath>,
    test: spec_fn(ProjectPath) -> bool,
    n: nat,
    path: ProjectPath,
)
    requires
        n <= paths.len(),
        project_setup::chosen(paths, test, n).contains(path),
    ensures
        paths.contains(path),
    decreases n,
{
    if n > 0 {
        let kept = project_setup::chosen(paths, test, n);
        let before = project_setup::chosen(paths, test, (n - 1) as nat);
        let k = choose|k: int| 0 <= k < kept.len() && kept[k] == path;
        if k < before.len() {
            assert(before[k] == path);
            lemma_chosen_is_among(paths, test, (n - 1) as nat, path);
        } else {
            assert(paths[n - 1] == path);
        }
    }
}

proof fn lemma_in_removed(removal: Uninstall, path: ProjectPath)
    requires
        ({
            let owned = removal.receipt.target.owned();
            let test = |path: ProjectPath| removal.is_there(path);
            project_setup::chosen(owned, test, owned.len()).contains(path)
                || project_setup::chosen(project_files::runtimes(), test, 3).contains(path)
        }),
    ensures
        removal.removed().contains(path),
{
    let owned = removal.receipt.target.owned();
    let test = |path: ProjectPath| removal.is_there(path);
    let first = project_setup::chosen(owned, test, owned.len());
    let second = project_setup::chosen(project_files::runtimes(), test, 3);
    if first.contains(path) {
        let k = choose|k: int| 0 <= k < first.len() && first[k] == path;
        assert(removal.removed()[k] == path);
    } else {
        let k = choose|k: int| 0 <= k < second.len() && second[k] == path;
        assert(removal.removed()[first.len() + k] == path);
    }
}

/// What is removed is a text that the receipt implies, a binary, or the receipt of
/// the release before.
proof fn lemma_removed_is_owned(removal: Uninstall, path: ProjectPath)
    requires
        removal.removed().contains(path),
    ensures
        removal.receipt.target.owned().contains(path) || project_files::runtimes().contains(path)
            || path == ProjectPath::PreviousRuntimeReceipt,
        path != ProjectPath::Config,
{
    let owned = removal.receipt.target.owned();
    let test = |path: ProjectPath| removal.is_there(path);
    let first = project_setup::chosen(owned, test, owned.len());
    let second = project_setup::chosen(project_files::runtimes(), test, 3);
    let all = removal.removed();
    let k = choose|k: int| 0 <= k < all.len() && all[k] == path;
    if k < first.len() {
        assert(first[k] == path);
        lemma_chosen_is_among(owned, test, owned.len(), path);
    } else if k < first.len() + second.len() {
        assert(second[k - first.len()] == path);
        lemma_chosen_is_among(project_files::runtimes(), test, 3, path);
    }
}

/// Every file of the release is a binary or a text that the target implies.
proof fn lemma_owned_or_runtime(target: SkillTarget, windows: bool, path: ProjectPath)
    requires
        setup_laws::file_for(target, windows, path) is Some,
        path != ProjectPath::Config,
        !project_files::runtimes().contains(path),
    ensures
        target.owned().contains(path),
{
    let owned = target.owned();
    let runtimes = project_files::runtimes();
    assert(runtimes[0] == ProjectPath::Binary);
    assert(runtimes[1] == ProjectPath::WindowsBinary);
    assert(runtimes[2] == ProjectPath::WindowsBridge);
    assert(owned[0] == ProjectPath::Launcher);
    assert(owned[1] == ProjectPath::Integration);
    if target.has_agents() {
        assert(owned[2] == ProjectPath::AgentsSkill);
        assert(owned[3] == ProjectPath::AgentsMetadata);
        assert(owned[4] == ProjectPath::AgentsBridgeSkill);
        if target.has_claude() {
            assert(owned[5] == ProjectPath::ClaudeSkill);
            assert(owned[6] == ProjectPath::ClaudeBridgeSkill);
        }
    } else if target.has_claude() {
        assert(owned[2] == ProjectPath::ClaudeSkill);
        assert(owned[3] == ProjectPath::ClaudeBridgeSkill);
    }
}

} // verus!
