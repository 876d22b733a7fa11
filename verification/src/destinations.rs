//! Where an installation may write: below its root, through directories alone.
use vstd::prelude::*;

use crate::paths;
use crate::paths::{components_of, Host};
use crate::strings;
use crate::strings::{chars_of, push_text, same_text};

verus! {

/// What is at a path, links not followed.
#[derive(Debug, Clone, Copy, PartialEq, Eq, Structural)]
pub enum EntryKind {
    Missing,
    Link,
    Directory,
    File,
    /// Neither a link, a directory nor a file.
    Special,
}

/// Why an installation may not write to a path. A position is that of the
/// component at which the path is refused.
#[derive(Debug, Clone, Copy, PartialEq, Eq, Structural)]
pub enum DestinationFault {
    NotNormalized,
    Link(usize),
    NotDirectory(usize),
    /// A path of a personal installation is not what it has to be.
    WrongKind(usize),
}

/// Whether a component is the name of something below: not the root, `.`, `..` or,
/// on Windows, a drive.
pub open spec fn is_name(component: Seq<char>, host: Host) -> bool {
    &&& component != "/"@
    &&& component != "."@
    &&& component != ".."@
    &&& !(host is Windows && component.len() >= 2 && component[1] == ':')
}

fn component_is_name(component: &str, host: Host) -> (held: bool)
    ensures
        held == is_name(component@, host),
{
    if same_text(component, "/") || same_text(component, ".") || same_text(component, "..") {
        return false;
    }
    match host {
        Host::Windows => {
            let chars = chars_of(component);
            !(chars.len() >= 2 && chars[1] == ':')
        },
        Host::Posix => true,
    }
}

pub open spec fn all_names(list: Seq<Seq<char>>, host: Host) -> bool {
    forall|i: int| 0 <= i < list.len() ==> is_name(#[trigger] list[i], host)
}

/// The first refusal on the way down a project path, from a component on.
pub open spec fn refused_from(kinds: Seq<EntryKind>, at: int) -> Option<DestinationFault>
    decreases kinds.len() - at,
{
    if at < 0 || at >= kinds.len() {
        None
    } else if kinds[at] is Link {
        Some(DestinationFault::Link(at as usize))
    } else if at + 1 < kinds.len() && !(kinds[at] is Directory) && !(kinds[at] is Missing) {
        Some(DestinationFault::NotDirectory(at as usize))
    } else {
        refused_from(kinds, at + 1)
    }
}

/// Why a project path may not be written.
pub open spec fn destination_fault(
    relative: Seq<char>,
    kinds: Seq<EntryKind>,
    host: Host,
) -> Option<DestinationFault> {
    let list = paths::components(relative, host);
    if list.len() == 0 || !all_names(list, host) {
        Some(DestinationFault::NotNormalized)
    } else {
        refused_from(kinds, 0)
    }
}

/// Checks that a path below a project may be written; `kinds` is what is at each
/// component on the way down to it.
pub fn validate_destination(relative: &str, kinds: &[EntryKind], host: Host) -> (verdict: Result<
    (),
    DestinationFault,
>)
    ensures
        match verdict {
            Ok(_) => destination_fault(relative@, kinds@, host) is None,
            Err(fault) => destination_fault(relative@, kinds@, host) == Some(fault),
        },
{
    let list = components_of(relative, host);
    let ghost all = strings::texts(list@);
    assert(all.len() == list@.len());
    if list.len() == 0 {
        return Err(DestinationFault::NotNormalized);
    }
    let mut i: usize = 0;
    while i < list.len()
        invariant
            i <= list.len(),
            all == strings::texts(list@),
            all == paths::components(relative@, host),
            forall|k: int| 0 <= k < i ==> is_name(#[trigger] all[k], host),
        decreases list.len() - i,
    {
        assert(all[i as int] == list@[i as int]@);
        if !component_is_name(list[i].as_str(), host) {
            assert(!all_names(all, host));
            return Err(DestinationFault::NotNormalized);
        }
        i += 1;
    }
    assert(all_names(all, host));
    let n: usize = kinds.len();
    let mut at: usize = 0;
    while at < n
        invariant
            at <= n,
            n == kinds@.len(),
            refused_from(kinds@, at as int) == refused_from(kinds@, 0),
            refused_from(kinds@, 0) == destination_fault(relative@, kinds@, host),
        decreases n - at,
    {
        match kinds[at] {
            EntryKind::Link => {
                return Err(DestinationFault::Link(at));
            },
            EntryKind::File | EntryKind::Special => {
                if n - at > 1 {
                    return Err(DestinationFault::NotDirectory(at));
                }
            },
            EntryKind::Directory | EntryKind::Missing => {},
        }
        at += 1;
    }
    Ok(())
}

/// Whether something is not what a path of a personal installation has to be there.
pub open spec fn is_wrong(kind: EntryKind, last: bool) -> bool {
    match kind {
        EntryKind::Missing => false,
        EntryKind::Directory => last,
        EntryKind::File => !last,
        EntryKind::Link | EntryKind::Special => true,
    }
}

/// The first refusal on the way down a path of a personal installation, from a
/// component on.
pub open spec fn refused_personal_from(
    list: Seq<Seq<char>>,
    kinds: Seq<EntryKind>,
    host: Host,
    at: int,
) -> Option<DestinationFault>
    decreases list.len() - at,
{
    if at < 0 || at >= list.len() {
        None
    } else if !is_name(list[at], host) {
        Some(DestinationFault::NotNormalized)
    } else if at < kinds.len() && is_wrong(kinds[at], at + 1 == list.len()) {
        Some(DestinationFault::WrongKind(at as usize))
    } else {
        refused_personal_from(list, kinds, host, at + 1)
    }
}

/// Checks that a path below a home may be read and written; `kinds` is what is at
/// each component on the way down to it.
pub fn validate_path(relative: &str, kinds: &[EntryKind], host: Host) -> (verdict: Result<
    (),
    DestinationFault,
>)
    ensures
        match verdict {
            Ok(_) => refused_personal_from(
                paths::components(relative@, host),
                kinds@,
                host,
                0,
            ) is None,
            Err(fault) => refused_personal_from(
                paths::components(relative@, host),
                kinds@,
                host,
                0,
            ) == Some(fault),
        },
{
    let list = components_of(relative, host);
    let ghost all = strings::texts(list@);
    assert(all.len() == list@.len());
    let mut at: usize = 0;
    while at < list.len()
        invariant
            at <= list.len(),
            all.len() == list@.len(),
            all == strings::texts(list@),
            refused_personal_from(all, kinds@, host, at as int) == refused_personal_from(
                all,
                kinds@,
                host,
                0,
            ),
            all == paths::components(relative@, host),
        decreases list.len() - at,
    {
        assert(all[at as int] == list@[at as int]@);
        if !component_is_name(list[at].as_str(), host) {
            return Err(DestinationFault::NotNormalized);
        }
        if at < kinds.len() {
            let last = at + 1 == list.len();
            let wrong = match kinds[at] {
                EntryKind::Missing => false,
                EntryKind::Directory => last,
                EntryKind::File => !last,
                EntryKind::Link | EntryKind::Special => true,
            };
            if wrong {
                return Err(DestinationFault::WrongKind(at));
            }
        }
        at += 1;
    }
    Ok(())
}

impl DestinationFault {
    pub open spec fn text(self, relative: Seq<char>, at: Seq<char>, personal: bool) -> Seq<char> {
        match self {
            DestinationFault::NotNormalized => if personal {
                "invalid personal install path "@ + relative
                    + "; use a verified release's setup-user"@
            } else {
                "managed destination must be a normalized project-relative path: "@ + relative
            },
            DestinationFault::Link(_) => "managed destination traverses symlink "@ + at
                + "; move the link or choose a regular project tree"@,
            DestinationFault::NotDirectory(_) =>
                "managed destination parent is not a directory: "@ + at,
            DestinationFault::WrongKind(_) => "personal install path "@ + at
                + " is a link or wrong file type; move it aside before setup-user"@,
        }
    }

    /// What to say of a refused path; `at` is where on the way down it is refused.
    pub fn message(self, relative: &str, at: &str, personal: bool) -> (message: String)
        ensures
            message@ == self.text(relative@, at@, personal),
    {
        match self {
            DestinationFault::NotNormalized => if personal {
                "invalid personal install path ".to_owned().concat(relative).concat(
                    "; use a verified release's setup-user",
                )
            } else {
                "managed destination must be a normalized project-relative path: ".to_owned().concat(
                    relative,
                )
            },
            DestinationFault::Link(_) => "managed destination traverses symlink ".to_owned().concat(
                at,
            ).concat("; move the link or choose a regular project tree"),
            DestinationFault::NotDirectory(_) =>
                "managed destination parent is not a directory: ".to_owned().concat(at),
            DestinationFault::WrongKind(_) => "personal install path ".to_owned().concat(at).concat(
                " is a link or wrong file type; move it aside before setup-user",
            ),
        }
    }
}

/// A project path that may be written has directories, or nothing yet, above it, and
/// no link on the way.
pub proof fn destinations_stay_below_their_root(
    relative: Seq<char>,
    kinds: Seq<EntryKind>,
    host: Host,
    i: int,
)
    requires
        destination_fault(relative, kinds, host) is None,
        0 <= i < kinds.len(),
    ensures
        !paths::components(relative, host).contains(".."@),
        !(kinds[i] is Link),
        i + 1 < kinds.len() ==> kinds[i] is Directory || kinds[i] is Missing,
{
    let list = paths::components(relative, host);
    if list.contains(".."@) {
        let at = list.index_of(".."@);
        assert(is_name(list[at], host));
    }
    lemma_not_refused(kinds, 0, i);
}

proof fn lemma_not_refused(kinds: Seq<EntryKind>, at: int, i: int)
    requires
        refused_from(kinds, at) is None,
        0 <= at <= i < kinds.len(),
    ensures
        !(kinds[i] is Link),
        i + 1 < kinds.len() ==> kinds[i] is Directory || kinds[i] is Missing,
    decreases i - at,
{
    if at < i {
        lemma_not_refused(kinds, at + 1, i);
    }
}

/// The directories that a removal takes away once they are empty, the inner ones
/// first.
pub open spec fn prunable(harness: Seq<char>) -> Seq<Seq<char>> {
    seq![
        ".agents/skills/contextmink/agents"@,
        ".agents/skills/contextmink"@,
        "."@ + harness + "/skills/contextmink"@,
        ".agents/skills/contextmink-bridge"@,
        "."@ + harness + "/skills/contextmink-bridge"@,
        "tools/contextmink/bin"@,
        "tools/contextmink"@,
    ]
}

/// The directories that a removal takes away once they are empty, the inner ones
/// first.
pub fn empty_managed_directories(harness: &str) -> (list: Vec<String>)
    ensures
        strings::texts(list@) == prunable(harness@),
{
    let own = ".".to_owned().concat(harness);
    let mut list: Vec<String> = Vec::new();
    assert(strings::texts(list@) =~= Seq::empty());
    push_text(&mut list, ".agents/skills/contextmink/agents".to_owned());
    push_text(&mut list, ".agents/skills/contextmink".to_owned());
    push_text(&mut list, own.clone().concat("/skills/contextmink"));
    push_text(&mut list, ".agents/skills/contextmink-bridge".to_owned());
    push_text(&mut list, own.concat("/skills/contextmink-bridge"));
    push_text(&mut list, "tools/contextmink/bin".to_owned());
    push_text(&mut list, "tools/contextmink".to_owned());
    assert(strings::texts(list@) =~= prunable(harness@));
    list
}

/// A destination is refused only for what the laws of destinations forbid: one whose
/// components are all names, with no link on the way and nothing but directories before
/// its end, is accepted.
pub proof fn plain_destinations_are_accepted(
    relative: Seq<char>,
    kinds: Seq<EntryKind>,
    host: Host,
)
    requires
        paths::components(relative, host).len() > 0,
        all_names(paths::components(relative, host), host),
        forall|i: int| 0 <= i < kinds.len() ==> !((#[trigger] kinds[i]) is Link),
        forall|i: int|
            0 <= i < kinds.len() - 1 ==> (#[trigger] kinds[i]) is Directory || kinds[i] is Missing,
    ensures
        destination_fault(relative, kinds, host) is None,
{
    lemma_accepted(kinds, 0);
}

proof fn lemma_accepted(kinds: Seq<EntryKind>, at: int)
    requires
        0 <= at <= kinds.len(),
        forall|i: int| 0 <= i < kinds.len() ==> !((#[trigger] kinds[i]) is Link),
        forall|i: int|
            0 <= i < kinds.len() - 1 ==> (#[trigger] kinds[i]) is Directory || kinds[i] is Missing,
    ensures
        refused_from(kinds, at) is None,
    decreases kinds.len() - at,
{
    if at < kinds.len() {
        lemma_accepted(kinds, at + 1);
    }
}

} // verus!
