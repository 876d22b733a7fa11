//! What holds of installing into a project: a second installation finds nothing to
//! do.
use vstd::prelude::*;

use crate::lines;
use crate::project_files;
use crate::project_files::{ManagedFile, ProjectPath, SetupFileOwnership, SkillTarget};
use crate::project_setup;
use crate::project_setup::{Setup, SetupActionKind, State};
use crate::strings;
use crate::strings::CharClass;

verus! {

/// The file that an installation writes at a path.
pub open spec fn file_for(target: SkillTarget, windows: bool, path: ProjectPath) -> Option<ManagedFile> {
    match path {
        ProjectPath::Binary => if windows {
            None
        } else {
            Some(project_files::runtime_file(path))
        },
        ProjectPath::WindowsBinary | ProjectPath::WindowsBridge => if windows {
            Some(project_files::runtime_file(path))
        } else {
            None
        },
        ProjectPath::Launcher => Some(
            ManagedFile {
                path,
                executable: true,
                ownership: SetupFileOwnership::ReleaseManagedText,
            },
        ),
        ProjectPath::Config => Some(
            ManagedFile {
                path,
                executable: false,
                ownership: SetupFileOwnership::RepositoryOwnedConfig,
            },
        ),
        ProjectPath::Integration => Some(project_files::text_file(path)),
        ProjectPath::AgentsSkill | ProjectPath::AgentsMetadata => if target.has_agents() {
            Some(project_files::text_file(path))
        } else {
            None
        },
        ProjectPath::AgentsBridgeSkill => if target.has_agents() && windows {
            Some(project_files::text_file(path))
        } else {
            None
        },
        ProjectPath::ClaudeSkill => if target.has_claude() {
            Some(project_files::text_file(path))
        } else {
            None
        },
        ProjectPath::ClaudeBridgeSkill => if target.has_claude() && windows {
            Some(project_files::text_file(path))
        } else {
            None
        },
        _ => None,
    }
}

/// What is at a path once the installation is done.
pub open spec fn state_after(setup: Setup, path: ProjectPath) -> State {
    match file_for(setup.target(), setup.windows, path) {
        Some(file) => match setup.file_action(file) {
            SetupActionKind::Create => State::File((setup.contents)(path), file.executable),
            SetupActionKind::Replace => State::File((setup.contents)(path), file.executable),
            SetupActionKind::MakeExecutable => State::File(
                setup.state(path)->File_0,
                true,
            ),
            _ => setup.state(path),
        },
        None => if path == ProjectPath::Gitignore {
            if setup.gitignore_action() == SetupActionKind::Unchanged {
                setup.state(path)
            } else {
                State::File(vstd::utf8::encode_utf8(setup.updated_gitignore()), false)
            }
        } else if path == ProjectPath::InstallReceipt {
            if setup.receipt_action() == SetupActionKind::Unchanged {
                setup.state(path)
            } else {
                State::File(setup.receipt_content(), false)
            }
        } else if path == ProjectPath::PreviousRuntimeReceipt || (setup.owned().contains(path)
            && !setup.desires(path)) {
            State::Missing
        } else {
            setup.state(path)
        },
    }
}

/// What the next installation finds: what the first one has left, its receipt, and a
/// configuration with a profile.
pub open spec fn after_setup(setup: Setup, profile: Seq<char>) -> Setup {
    Setup {
        states: Seq::new(14, |i: int| state_after(setup, project_files::project_paths()[i])),
        prior: Some(setup.receipt()),
        config: Ok(Some(profile)),
        ..setup
    }
}

pub proof fn lemma_state_after(setup: Setup, profile: Seq<char>, path: ProjectPath)
    ensures
        after_setup(setup, profile).state(path) == state_after(setup, path),
{
    assert(project_files::project_paths()[path.place() as int] == path);
}

proof fn lemma_files(target: SkillTarget, windows: bool, i: int)
    requires
        0 <= i < project_files::installed_files(target, windows).len(),
    ensures
        ({
            let file = project_files::installed_files(target, windows)[i];
            file_for(target, windows, file.path) == Some(file)
        }),
{
}

/// The files that an installation writes are those for their paths.
proof fn lemma_desires(setup: Setup, path: ProjectPath)
    ensures
        setup.desires(path) == (file_for(setup.target(), setup.windows, path) matches Some(file)
            && file.ownership == SetupFileOwnership::ReleaseManagedText),
{
    let target = setup.target();
    let windows = setup.windows;
    let files = setup.files();
    if setup.desires(path) {
        let i = choose|i: int|
            0 <= i < files.len() && (#[trigger] files[i]).path == path && files[i].ownership
                == SetupFileOwnership::ReleaseManagedText;
        lemma_files(target, windows, i);
    }
    if let Some(file) = file_for(target, windows, path) {
        if file.ownership == SetupFileOwnership::ReleaseManagedText {
            let skills = project_files::skill_files(target, windows);
            assert(files[1].path == ProjectPath::Launcher);
            assert(files[3].path == ProjectPath::Integration);
            assert(forall|k: int|
                0 <= k < skills.len() ==> files[k + 4] == #[trigger] skills[k]);
            let agents: int = if target.has_agents() {
                2
            } else {
                0
            };
            let claude: int = if target.has_claude() {
                1
            } else {
                0
            };
            let bridge: int = if windows && target.has_agents() {
                1
            } else {
                0
            };
            if target.has_agents() {
                assert(skills[0].path == ProjectPath::AgentsSkill);
                assert(skills[1].path == ProjectPath::AgentsMetadata);
                assert(files[4].path == ProjectPath::AgentsSkill);
                assert(files[5].path == ProjectPath::AgentsMetadata);
            }
            if target.has_claude() {
                assert(skills[agents].path == ProjectPath::ClaudeSkill);
                assert(files[agents + 4].path == ProjectPath::ClaudeSkill);
            }
            if windows && target.has_agents() {
                assert(skills[agents + claude].path == ProjectPath::AgentsBridgeSkill);
                assert(files[agents + claude + 4].path == ProjectPath::AgentsBridgeSkill);
            }
            if windows && target.has_claude() {
                assert(skills[agents + claude + bridge].path == ProjectPath::ClaudeBridgeSkill);
                assert(files[agents + claude + bridge + 4].path == ProjectPath::ClaudeBridgeSkill);
            }
        }
    }
}

proof fn lemma_no_faults(setup: Setup, at: int, i: int)
    requires
        0 <= at <= i < setup.files().len(),
        setup.files_fault(at) is None,
    ensures
        setup.file_fault(setup.files()[i]) is None,
    decreases i - at,
{
    if at < i {
        lemma_no_faults(setup, at + 1, i);
    }
}

proof fn lemma_faultless(setup: Setup, at: int)
    requires
        0 <= at <= setup.files().len(),
        forall|i: int|
            at <= i < setup.files().len() ==> setup.file_fault(#[trigger] setup.files()[i]) is None,
    ensures
        setup.files_fault(at) is None,
    decreases setup.files().len() - at,
{
    if at < setup.files().len() {
        assert(setup.file_fault(setup.files()[at]) is None);
        lemma_faultless(setup, at + 1);
    }
}

proof fn lemma_none_chosen(
    paths: Seq<ProjectPath>,
    test: spec_fn(ProjectPath) -> bool,
    n: nat,
    at: int,
)
    requires
        n <= paths.len(),
        0 <= at <= paths.len(),
        forall|i: int| 0 <= i < paths.len() ==> !test(#[trigger] paths[i]),
    ensures
        project_setup::chosen(paths, test, n) == Seq::<ProjectPath>::empty(),
        project_setup::first_chosen(paths, test, at) is None,
    decreases n, paths.len() - at,
{
    if n > 0 {
        assert(!test(paths[n - 1]));
        lemma_none_chosen(paths, test, (n - 1) as nat, at);
    } else if at < paths.len() {
        assert(!test(paths[at]));
        lemma_none_chosen(paths, test, 0, at + 1);
    }
}

proof fn lemma_not_chosen(paths: Seq<ProjectPath>, test: spec_fn(ProjectPath) -> bool, at: int, i: int)
    requires
        0 <= at <= i < paths.len(),
        project_setup::first_chosen(paths, test, at) is None,
    ensures
        !test(paths[i]),
    decreases i - at,
{
    if at < i {
        lemma_not_chosen(paths, test, at + 1, i);
    }
}

proof fn lemma_trim_pushed(text: Seq<char>, c: char)
    requires
        strings::is_space(c),
    ensures
        strings::trim(text.push(c)) == strings::trim(text),
{
    let class = CharClass::Space;
    let more = text.push(c);
    lemma_skip_pushed(text, c, 0);
    strings::lemma_skip_class_bounds(text, class, 0);
    let at = strings::skip_class(text, class, 0);
    if at < text.len() {
        let front = strings::trim_start(text, class);
        assert(strings::trim_start(more, class) =~= front.push(c));
        lemma_rskip_pushed(front, c, front.len() as int);
        assert(strings::rskip_class(front.push(c), class, front.len() as int + 1)
            == strings::rskip_class(front.push(c), class, front.len() as int));
        strings::lemma_rskip_class_bounds(front, class, front.len() as int);
        assert(strings::trim(more) =~= strings::trim(text));
    } else {
        assert(strings::trim_start(text, class) =~= Seq::empty());
        assert(strings::trim_start(more, class) =~= Seq::empty());
    }
}

proof fn lemma_skip_pushed(text: Seq<char>, c: char, from: int)
    requires
        0 <= from <= text.len(),
        strings::is_space(c),
    ensures
        strings::skip_class(text.push(c), CharClass::Space, from) == (if strings::skip_class(
            text,
            CharClass::Space,
            from,
        ) < text.len() {
            strings::skip_class(text, CharClass::Space, from)
        } else {
            text.len() as int + 1
        }),
    decreases text.len() - from,
{
    if from < text.len() {
        assert(text.push(c)[from] == text[from]);
        lemma_skip_pushed(text, c, from + 1);
    } else {
        assert(text.push(c)[from] == c);
        assert(strings::skip_class(text.push(c), CharClass::Space, from + 1) == text.len() + 1);
    }
}

proof fn lemma_rskip_pushed(text: Seq<char>, c: char, to: int)
    requires
        0 <= to <= text.len(),
    ensures
        strings::rskip_class(text.push(c), CharClass::Space, to) == strings::rskip_class(
            text,
            CharClass::Space,
            to,
        ),
    decreases to,
{
    if to > 0 {
        assert(text.push(c)[to - 1] == text[to - 1]);
        lemma_rskip_pushed(text, c, to - 1);
    }
}

/// The lines of a text whose last line is ended hold an entry only where its lines
/// did.
proof fn lemma_ended_has_no_entry(text: Seq<char>, i: int)
    requires
        !project_files::lists_binaries(text),
        0 <= i < lines::text_lines(project_files::ended(text)).len(),
    ensures
        !project_files::is_entry(lines::text_lines(project_files::ended(text))[i]),
{
    reveal_strlit("\n");
    assert("\n"@ =~= seq!['\n']);
    let base = project_files::ended(text);
    if text.len() == 0 || text.last() == '\n' {
        assert(base == text);
        assert(!project_files::is_entry(lines::text_lines(text)[i]));
    } else {
        assert(base =~= text.push('\n'));
        if text.last() != '\r' {
            lines::lines_of_ended_text(text);
            assert(!project_files::is_entry(lines::text_lines(text)[i]));
        } else {
            lines::lines_of_text_with_return(text);
            let all = lines::text_lines(text);
            let ended = lines::text_lines(base);
            if i + 1 < all.len() {
                assert(ended[i] == all[i]);
                assert(!project_files::is_entry(all[i]));
            } else {
                let last = all.last();
                assert(ended[i].push('\r') =~= last);
                lemma_trim_pushed(ended[i], '\r');
                assert(!project_files::is_entry(all[i]));
            }
        }
    }
}

/// Where no line is an entry, adding one makes exactly one block.
proof fn lemma_added_block(text: Seq<char>)
    requires
        !project_files::lists_binaries(text),
    ensures
        project_files::block_count(project_files::with_entry(text)) == 1,
        project_files::lists_binaries(project_files::with_entry(text)),
{
    reveal_strlit("\n");
    reveal_strlit("\n\n");
    assert("\n"@ =~= seq!['\n']);
    project_files::lemma_block();
    let base = project_files::ended(text);
    let head = project_files::spaced(base);
    assert(head.len() == 0 || head.last() == '\n');
    lines::lines_of_joined_texts(head, project_files::block());
    let front = lines::text_lines(head);
    let all = lines::text_lines(project_files::with_entry(text));
    let n = front.len() as int;
    assert(all =~= front + seq![
        project_files::GITIGNORE_COMMENT@,
        project_files::GITIGNORE_ENTRY@,
    ]);
    assert forall|i: int| 0 <= i < n implies !project_files::is_entry(#[trigger] front[i]) by {
        if head == base {
            lemma_ended_has_no_entry(text, i);
        } else {
            assert(head =~= base + seq!['\n']);
            lines::lines_of_joined_texts(base, seq!['\n']);
            lines::line_of_ended_text(Seq::empty());
            assert(Seq::<char>::empty().push('\n') =~= seq!['\n']);
            let inner = lines::text_lines(base);
            if i < inner.len() {
                assert(front[i] == inner[i]);
                lemma_ended_has_no_entry(text, i);
            } else {
                assert(front[i] == Seq::<char>::empty());
            }
        }
    }
    assert forall|i: int| 0 <= i < all.len() implies #[trigger] project_files::is_block(all, i) == (i
        == n) by {
        if i + 1 < n {
            assert(all[i + 1] == front[i + 1]);
        } else if i + 1 == n {
            assert(all[i + 1] == project_files::GITIGNORE_COMMENT@);
        }
    }
    project_files::lemma_one_block(all, n, all.len());
    assert(all[n + 1] == project_files::GITIGNORE_ENTRY@);
}

/// Where an installation writes a file, there is a file afterwards.
pub proof fn lemma_installed_is_file(setup: Setup, profile: Seq<char>, path: ProjectPath)
    requires
        setup.well_formed(),
        setup.fault() is None,
    ensures
        file_for(setup.target(), setup.windows, path) is Some ==> after_setup(
            setup,
            profile,
        ).state(path) is File,
        file_for(setup.target(), setup.windows, path) is None && (path == ProjectPath::Binary
            || path == ProjectPath::WindowsBinary || path == ProjectPath::WindowsBridge)
            ==> after_setup(setup, profile).state(path) == setup.state(path),
        setup.owned().contains(path) && file_for(setup.target(), setup.windows, path) is None
            ==> after_setup(setup, profile).state(path) is Missing,
{
    lemma_state_after(setup, profile, path);
    lemma_desires(setup, path);
    if setup.owned().contains(path) {
        lemma_owned_is_text(setup.prior->Some_0.target, path);
    }
}

proof fn lemma_owned_is_text(target: SkillTarget, path: ProjectPath)
    requires
        target.owned().contains(path),
    ensures
        path == ProjectPath::Launcher || path == ProjectPath::Integration
            || project_setup::skills().contains(path),
        path != ProjectPath::Binary,
        path != ProjectPath::WindowsBinary,
        path != ProjectPath::WindowsBridge,
        path != ProjectPath::Gitignore,
        path != ProjectPath::InstallReceipt,
{
    if path != ProjectPath::Launcher && path != ProjectPath::Integration {
        lemma_owned_skills(target, path);
    }
}

/// What an installation leaves of the list of ignored files is left alone by the
/// next one.
pub proof fn lemma_gitignore_settles(setup: Setup, profile: Seq<char>)
    requires
        setup.well_formed(),
        setup.fault() is None,
        !setup.dry_run,
    ensures
        ({
            let next = after_setup(setup, profile);
            &&& project_setup::gitignore_fault(next.state(ProjectPath::Gitignore)) is None
            &&& project_files::block_count(next.gitignore_text()) <= 1
            &&& !next.block_is_modified()
            &&& next.gitignore_action() == SetupActionKind::Unchanged
            &&& next.gitignore() == Some(setup.updated_gitignore())
            &&& next.receipt() == setup.receipt()
        }),
{
    let next = after_setup(setup, profile);
    let path = ProjectPath::Gitignore;
    lemma_state_after(setup, profile, path);
    let text = setup.gitignore_text();
    let updated = setup.updated_gitignore();
    vstd::utf8::encode_utf8_valid_utf8(updated);
    vstd::utf8::encode_utf8_decode_utf8(updated);
    assert(next.gitignore() == Some(updated));
    assert(updated == project_files::with_entry(text));
    if !project_files::lists_binaries(text) {
        lemma_added_block(text);
    }
    assert(project_files::lists_binaries(updated));
    assert(next.updated_gitignore() == updated);
    lemma_target_settles(setup, profile);
}

proof fn lemma_target_settles(setup: Setup, profile: Seq<char>)
    ensures
        after_setup(setup, profile).target() == setup.target(),
        after_setup(setup, profile).files() == setup.files(),
{
}

proof fn lemma_file_settles(setup: Setup, profile: Seq<char>, i: int)
    requires
        setup.well_formed(),
        setup.fault() is None,
        0 <= i < setup.files().len(),
    ensures
        ({
            let next = after_setup(setup, profile);
            let file = setup.files()[i];
            &&& next.file_fault(file) is None
            &&& next.file_action(file) == SetupActionKind::Unchanged || next.file_action(file)
                == SetupActionKind::PreserveRepositoryOwned
        }),
{
    let file = setup.files()[i];
    let next = after_setup(setup, profile);
    lemma_files(setup.target(), setup.windows, i);
    lemma_no_faults(setup, 0, i);
    lemma_state_after(setup, profile, file.path);
    assert(next.contents == setup.contents);
}

pub proof fn lemma_paths_settle(setup: Setup, profile: Seq<char>, path: ProjectPath)
    requires
        setup.well_formed(),
        setup.fault() is None,
        !setup.dry_run,
        project_setup::skills().contains(path) || setup.receipt().target.owned().contains(path),
    ensures
        ({
            let next = after_setup(setup, profile);
            &&& !next.is_retired(path)
            &&& !next.is_stuck(path)
            &&& !next.is_unowned(path)
        }),
{
    let next = after_setup(setup, profile);
    lemma_state_after(setup, profile, path);
    lemma_target_settles(setup, profile);
    lemma_desires(setup, path);
    lemma_desires(next, path);
    let owned = setup.owned();
    let skills = project_setup::skills();
    let unowned = |path: ProjectPath| setup.is_unowned(path);
    let stuck = |path: ProjectPath| setup.is_stuck(path);
    if !setup.desires(path) {
        assert(path != ProjectPath::Launcher && path != ProjectPath::Integration);
        assert(skills.contains(path)) by {
            lemma_owned_skills(setup.receipt().target, path);
        }
        let i = choose|i: int| 0 <= i < skills.len() && skills[i] == path;
        lemma_not_chosen(skills, unowned, 0, i);
        assert(!setup.is_unowned(path));
        assert(file_for(setup.target(), setup.windows, path) is None);
        assert(next.state(path) is Missing);
    }
}

proof fn lemma_owned_skills(target: SkillTarget, path: ProjectPath)
    requires
        target.owned().contains(path) || project_setup::skills().contains(path),
        path != ProjectPath::Launcher,
        path != ProjectPath::Integration,
    ensures
        project_setup::skills().contains(path),
{
    let skills = project_setup::skills();
    assert(skills[0] == ProjectPath::AgentsSkill);
    assert(skills[1] == ProjectPath::AgentsMetadata);
    assert(skills[2] == ProjectPath::AgentsBridgeSkill);
    assert(skills[3] == ProjectPath::ClaudeSkill);
    assert(skills[4] == ProjectPath::ClaudeBridgeSkill);
}

/// An installation that follows another one, of the same release and for the same
/// target, is not refused, and changes nothing.
pub proof fn installing_twice_is_installing_once(setup: Setup, profile: Seq<char>)
    requires
        setup.well_formed(),
        setup.fault() is None,
        !setup.dry_run,
    ensures
        ({
            let next = after_setup(setup, profile);
            &&& next.fault() is None
            &&& forall|i: int|
                0 <= i < next.actions().len() ==> (#[trigger] next.actions()[i]).action
                    == SetupActionKind::Unchanged || next.actions()[i].action
                    == SetupActionKind::PreserveRepositoryOwned
        }),
{
    let next = after_setup(setup, profile);
    lemma_target_settles(setup, profile);
    lemma_gitignore_settles(setup, profile);
    lemma_state_after(setup, profile, ProjectPath::PreviousRuntimeReceipt);
    lemma_state_after(setup, profile, ProjectPath::InstallReceipt);
    assert(next.state(ProjectPath::PreviousRuntimeReceipt) is Missing);
    assert forall|i: int| 0 <= i < next.files().len() implies next.file_fault(
        #[trigger] next.files()[i],
    ) is None by {
        lemma_file_settles(setup, profile, i);
    }
    lemma_faultless(next, 0);
    let owned = next.owned();
    let skills = project_setup::skills();
    let retired = |path: ProjectPath| next.is_retired(path);
    let stuck = |path: ProjectPath| next.is_stuck(path);
    let unowned = |path: ProjectPath| next.is_unowned(path);
    assert(owned == setup.receipt().target.owned());
    assert forall|i: int| 0 <= i < owned.len() implies !retired(#[trigger] owned[i]) && !stuck(
        owned[i],
    ) by {
        assert(owned.contains(owned[i]));
        lemma_paths_settle(setup, profile, owned[i]);
    }
    assert forall|i: int| 0 <= i < skills.len() implies !unowned(#[trigger] skills[i]) by {
        assert(skills.contains(skills[i]));
        lemma_paths_settle(setup, profile, skills[i]);
    }
    lemma_none_chosen(owned, retired, owned.len(), 0);
    lemma_none_chosen(owned, stuck, owned.len(), 0);
    lemma_none_chosen(skills, unowned, skills.len(), 0);
    assert(next.retired() =~= Seq::empty());
    assert(next.unowned() =~= Seq::empty());
    assert(next.receipt_content() == setup.receipt_content());
    assert(next.receipt_action() == SetupActionKind::Unchanged);
    let actions = next.actions();
    let files = next.file_actions();
    assert(actions.len() == files.len() + 2);
    assert forall|i: int| 0 <= i < actions.len() implies (#[trigger] actions[i]).action
        == SetupActionKind::Unchanged || actions[i].action
        == SetupActionKind::PreserveRepositoryOwned by {
        if i < files.len() {
            lemma_file_settles(setup, profile, i);
            assert(actions[i] == files[i]);
        }
    }
}

/// Once a project is set up, every file of the release is there as it is shipped, up to
/// the ends of its lines where it is text, and can be run where it is a program; the
/// repository's own configuration is kept where there is one.
pub proof fn setup_leaves_every_file_as_shipped(setup: Setup, profile: Seq<char>, path: ProjectPath)
    requires
        setup.well_formed(),
        setup.fault() is None,
        file_for(setup.target(), setup.windows, path) is Some,
    ensures
        ({
            let file = file_for(setup.target(), setup.windows, path)->0;
            let before = setup.state(path);
            let after = after_setup(setup, profile).state(path);
            let shipped = (setup.contents)(path);
            &&& after is File
            &&& file.ownership == SetupFileOwnership::ReleaseManagedRuntime ==> after->File_0
                == shipped && after->File_1
            &&& file.ownership == SetupFileOwnership::ReleaseManagedText
                ==> project_files::unix_text(after->File_0, 0) == project_files::unix_text(
                shipped,
                0,
            )
            &&& file.executable && file.ownership != SetupFileOwnership::RepositoryOwnedConfig
                ==> after->File_1
            &&& file.ownership == SetupFileOwnership::RepositoryOwnedConfig && before is File
                ==> after == before
            &&& before is Missing ==> after->File_0 == shipped
        }),
{
    lemma_state_after(setup, profile, path);
    lemma_installed_is_file(setup, profile, path);
    lemma_file_of(setup, path);
}

/// The file of a path is among those that are installed.
proof fn lemma_file_of(setup: Setup, path: ProjectPath)
    requires
        file_for(setup.target(), setup.windows, path) is Some,
    ensures
        file_for(setup.target(), setup.windows, path)->0.path == path,
        file_for(setup.target(), setup.windows, path)->0.ownership
            == SetupFileOwnership::ReleaseManagedRuntime ==> file_for(
            setup.target(),
            setup.windows,
            path,
        )->0.executable,
{
}

/// What a setup does not install, does not own and does not keep its records in, it
/// leaves as it was.
pub proof fn setup_leaves_other_files_alone(setup: Setup, profile: Seq<char>, path: ProjectPath)
    requires
        setup.well_formed(),
        file_for(setup.target(), setup.windows, path) is None,
        !setup.owned().contains(path),
        path != ProjectPath::Gitignore,
        path != ProjectPath::InstallReceipt,
        path != ProjectPath::PreviousRuntimeReceipt,
    ensures
        after_setup(setup, profile).state(path) == setup.state(path),
{
    lemma_state_after(setup, profile, path);
}

} // verus!
