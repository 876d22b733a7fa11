//! Whether an MSYS shell has rewritten an argument.
//!
//! An MSYS shell that starts a native Windows program turns every argument, and
//! every value behind `--flag=`, that looks like a POSIX path into a path below its
//! own root. A search for `/skills` would then report on a text that nobody asked
//! for, so such an argument is refused.
use vstd::prelude::*;

use crate::paths;
use crate::paths::to_slashes;
use crate::strings;
use crate::strings::{
    chars_of, cut_string, ends_with, push_text, rfind_class_of, same_text,
    same_text_ignoring_case, split_first, split_text, starts_with, string_of, to_lower, trim_of,
    CharClass,
};

verus! {

/// What in the environment decides whether arguments may have been rewritten.
#[derive(Debug, Clone)]
pub struct MsysEnvironment {
    pub msystem: Option<String>,
    pub no_pathconv: Option<String>,
    pub arg_conv_excl: Option<String>,
    pub path: Option<String>,
    /// The image of the parent process.
    pub parent_image: Option<String>,
}

pub open spec fn is_set(value: Option<Seq<char>>) -> bool {
    value is Some && value->Some_0.len() > 0
}

/// The root of an entry `<root>/usr/bin`, with a slash behind; only one with a
/// drive counts, since a bare slash would claim every absolute path.
pub open spec fn root_of(entry: Seq<char>) -> Option<Seq<char>> {
    let forward = strings::trim_end(paths::slashes(strings::trim(entry)), CharClass::Only('/'));
    if !"/usr/bin"@.is_suffix_of(strings::lower_text(forward)) {
        None
    } else {
        let root = forward.take(forward.len() - 7);
        if root.len() >= 3 && (strings::is_upper(root[0]) || strings::is_lower(root[0])) && root[1]
            == ':' && root[2] == '/' {
            Some(root)
        } else {
            None
        }
    }
}

pub open spec fn knows_root(roots: Seq<Seq<char>>, root: Seq<char>) -> bool {
    exists|i: int|
        0 <= i < roots.len() && strings::same_ignoring_case(#[trigger] roots[i], root)
}

/// The roots of the first `n` entries, each once whatever its case.
pub open spec fn roots_of(entries: Seq<Seq<char>>, n: nat) -> Seq<Seq<char>>
    decreases n,
{
    if n == 0 || n > entries.len() {
        Seq::empty()
    } else {
        let before = roots_of(entries, (n - 1) as nat);
        match root_of(entries[n - 1]) {
            Some(root) => if knows_root(before, root) {
                before
            } else {
                before.push(root)
            },
            None => before,
        }
    }
}

fn read_root(entry: &str) -> (root: Option<String>)
    ensures
        strings::text_option(root) == root_of(entry@),
{
    let forward = to_slashes(trim_of(entry).as_str());
    let chars = strings::trim_end_of(&chars_of(forward.as_str()), CharClass::Only('/'));
    let lowered = to_lower(string_of(&chars).as_str());
    if !ends_with(lowered.as_str(), "/usr/bin") {
        return None;
    }
    proof {
        reveal_strlit("/usr/bin");
        assert(lowered@.len() == chars@.len());
    }
    let root = strings::cut(&chars, 0, chars.len() - 7);
    assert(root@ =~= chars@.take(chars@.len() - 7));
    if root.len() >= 3 && (('A' <= root[0] && root[0] <= 'Z') || ('a' <= root[0] && root[0] <= 'z'))
        && root[1] == ':' && root[2] == '/' {
        Some(string_of(&root))
    } else {
        None
    }
}

/// The argument, or the value behind `=` in one that starts with a dash.
pub open spec fn argument_value(arg: Seq<char>) -> Seq<char> {
    if "-"@.is_prefix_of(arg) {
        match strings::split_at_first(arg, CharClass::Only('=')) {
            Some((_, value)) => value,
            None => arg,
        }
    } else {
        arg
    }
}

/// Whether the value starts with the root, whatever its case.
pub open spec fn starts_with_root(value: Seq<char>, root: Seq<char>) -> bool {
    value.len() >= root.len() && strings::same_ignoring_case(
        value.take(root.len() as int),
        root,
    )
}

/// Whether the image lies in the root's `usr/bin` or `bin`.
pub open spec fn runs_from(image: Seq<char>, root: Seq<char>) -> bool {
    let forward = paths::slashes(image);
    let directory = forward.take(
        strings::rfind_class(forward, CharClass::Only('/'), forward.len() as int),
    );
    strings::same_ignoring_case(directory, root + "usr/bin/"@) || strings::same_ignoring_case(
        directory,
        root + "bin/"@,
    )
}

pub open spec fn refusal(arg: Seq<char>, root: Seq<char>) -> Seq<char> {
    "argument `"@ + arg + "` starts with the MSYS installation root `"@ + root
        + "`: Git Bash rewrote a leading-`/` value (for example `"@ + argument_value(arg).skip(
        root.len() - 1,
    )
        + "`) into a Windows path before contextmink started, so results would describe a different value. Rerun with the command prefixed by `MSYS_NO_PATHCONV=1` (for example `MSYS_NO_PATHCONV=1 contextmink ...`)"@
}

/// The first root from here on that the parent runs from and the value starts
/// with.
pub open spec fn root_in_front(value: Seq<char>, image: Seq<char>, roots: Seq<Seq<char>>, at: int) -> Option<
    Seq<char>,
>
    decreases roots.len() - at,
{
    if at < 0 || at >= roots.len() {
        None
    } else if runs_from(image, roots[at]) && starts_with_root(value, roots[at]) {
        Some(roots[at])
    } else {
        root_in_front(value, image, roots, at + 1)
    }
}

/// What to say of the first argument from here on that was rewritten.
pub open spec fn rewritten_from(
    args: Seq<Seq<char>>,
    image: Seq<char>,
    roots: Seq<Seq<char>>,
    at: int,
) -> Option<Seq<char>>
    decreases args.len() - at,
{
    if at < 0 || at >= args.len() {
        None
    } else {
        match root_in_front(argument_value(args[at]), image, roots, 0) {
            Some(root) => Some(refusal(args[at], root)),
            None => rewritten_from(args, image, roots, at + 1),
        }
    }
}

impl MsysEnvironment {
    /// Whether arguments may have been rewritten at all.
    pub open spec fn converts(&self) -> bool {
        &&& is_set(strings::text_option(self.msystem))
        &&& !is_set(strings::text_option(self.no_pathconv))
        &&& strings::text_option(self.arg_conv_excl) != Some("*"@)
    }

    pub open spec fn path_roots(&self) -> Seq<Seq<char>> {
        match self.path {
            Some(path) => {
                let entries = strings::parts_of(path@, CharClass::Only(';'));
                roots_of(entries, entries.len())
            },
            None => Seq::empty(),
        }
    }

    pub fn conversion_possible(&self) -> (held: bool)
        ensures
            held == self.converts(),
    {
        let on = match &self.msystem {
            Some(value) => !value.as_str().is_empty(),
            None => false,
        };
        let off = match &self.no_pathconv {
            Some(value) => !value.as_str().is_empty(),
            None => false,
        };
        let excluded = match &self.arg_conv_excl {
            Some(value) => same_text(value.as_str(), "*"),
            None => false,
        };
        on && !off && !excluded
    }

    /// The roots that the search path names, with slashes, and one behind.
    pub fn roots(&self) -> (roots: Vec<String>)
        ensures
            strings::texts(roots@) == self.path_roots(),
    {
        let mut roots: Vec<String> = Vec::new();
        assert(strings::texts(roots@) =~= Seq::empty());
        let path = match &self.path {
            Some(path) => path,
            None => {
                return roots;
            },
        };
        let entries = split_text(path.as_str(), CharClass::Only(';'));
        let ghost texts = strings::texts(entries@);
        let mut i: usize = 0;
        while i < entries.len()
            invariant
                i <= entries.len(),
                texts == strings::texts(entries@),
                strings::texts(roots@) == roots_of(texts, i as nat),
            decreases entries.len() - i,
        {
            assert(texts[i as int] == entries@[i as int]@);
            if let Some(root) = read_root(entries[i].as_str()) {
                if !has_root(&roots, root.as_str()) {
                    push_text(&mut roots, root);
                }
            }
            i += 1;
        }
        roots
    }
}

fn has_root(roots: &[String], root: &str) -> (held: bool)
    ensures
        held == knows_root(strings::texts(roots@), root@),
{
    let ghost texts = strings::texts(roots@);
    let mut i: usize = 0;
    while i < roots.len()
        invariant
            i <= roots.len(),
            texts == strings::texts(roots@),
            forall|k: int|
                0 <= k < i ==> !strings::same_ignoring_case(#[trigger] texts[k], root@),
        decreases roots.len() - i,
    {
        assert(texts[i as int] == roots@[i as int]@);
        if same_text_ignoring_case(roots[i].as_str(), root) {
            return true;
        }
        i += 1;
    }
    false
}

fn value_of_argument(arg: &str) -> (value: String)
    ensures
        value@ == argument_value(arg@),
{
    if starts_with(arg, "-") {
        match split_first(arg, CharClass::Only('=')) {
            Some((_, value)) => value,
            None => arg.to_owned(),
        }
    } else {
        arg.to_owned()
    }
}

fn image_runs_from(image: &str, root: &str) -> (held: bool)
    ensures
        held == runs_from(image@, root@),
{
    let forward = to_slashes(image);
    let chars = chars_of(forward.as_str());
    let end = rfind_class_of(&chars, CharClass::Only('/'));
    let directory = cut_string(&chars, 0, end);
    assert(directory@ =~= forward@.take(end as int));
    same_text_ignoring_case(directory.as_str(), root.to_owned().concat("usr/bin/").as_str())
        || same_text_ignoring_case(directory.as_str(), root.to_owned().concat("bin/").as_str())
}

fn value_starts_with(value: &[char], root: &str) -> (held: bool)
    ensures
        held == starts_with_root(value@, root@),
{
    let length = chars_of(root).len();
    if value.len() < length {
        return false;
    }
    let head = cut_string(value, 0, length);
    assert(head@ =~= value@.take(root@.len() as int));
    same_text_ignoring_case(head.as_str(), root)
}

proof fn lemma_roots_are_long(entries: Seq<Seq<char>>, n: nat)
    ensures
        forall|i: int|
            0 <= i < roots_of(entries, n).len() ==> (#[trigger] roots_of(entries, n)[i]).len() >= 3,
    decreases n,
{
    if n > 0 && n <= entries.len() {
        lemma_roots_are_long(entries, (n - 1) as nat);
        let before = roots_of(entries, (n - 1) as nat);
        assert forall|i: int| 0 <= i < roots_of(entries, n).len() implies (
        #[trigger] roots_of(entries, n)[i]).len() >= 3 by {
            if i < before.len() {
                assert(roots_of(entries, n)[i] == before[i]);
            }
        }
    }
}

/// What to say of the first argument behind the program that an MSYS shell has
/// rewritten: one that starts with the root of the shell that is the parent.
pub fn rewritten_argument_refusal(args: &[String], environment: &MsysEnvironment) -> (message: Option<
    String,
>)
    ensures
        strings::text_option(message) == (if environment.converts()
            && environment.parent_image is Some {
            rewritten_from(
                strings::texts(args@),
                environment.parent_image->Some_0@,
                environment.path_roots(),
                1,
            )
        } else {
            None
        }),
{
    if !environment.conversion_possible() {
        return None;
    }
    let image = match &environment.parent_image {
        Some(image) => image,
        None => {
            return None;
        },
    };
    let roots = environment.roots();
    let ghost known = strings::texts(roots@);
    let ghost texts = strings::texts(args@);
    proof {
        if let Some(path) = &environment.path {
            let entries = strings::parts_of(path@, CharClass::Only(';'));
            lemma_roots_are_long(entries, entries.len());
        }
    }
    let mut i: usize = 1;
    while i < args.len()
        invariant
            1 <= i,
            texts == strings::texts(args@),
            environment.converts(),
            environment.parent_image == Some(*image),
            known == environment.path_roots(),
            known == strings::texts(roots@),
            forall|k: int| 0 <= k < known.len() ==> (#[trigger] known[k]).len() >= 3,
            rewritten_from(texts, image@, known, i as int) == rewritten_from(
                texts,
                image@,
                known,
                1,
            ),
        decreases args.len() - i,
    {
        assert(texts[i as int] == args@[i as int]@);
        let arg = args[i].as_str();
        let value = chars_of(value_of_argument(arg).as_str());
        let mut k: usize = 0;
        while k < roots.len()
            invariant
                k <= roots.len(),
                i < args.len(),
                texts == strings::texts(args@),
                environment.converts(),
                environment.parent_image == Some(*image),
                known == environment.path_roots(),
                arg@ == texts[i as int],
                value@ == argument_value(arg@),
                known == strings::texts(roots@),
                forall|k: int| 0 <= k < known.len() ==> (#[trigger] known[k]).len() >= 3,
                rewritten_from(texts, image@, known, i as int) == rewritten_from(
                    texts,
                    image@,
                    known,
                    1,
                ),
                root_in_front(value@, image@, known, k as int) == root_in_front(
                    value@,
                    image@,
                    known,
                    0,
                ),
            decreases roots.len() - k,
        {
            assert(known[k as int] == roots@[k as int]@);
            let root = roots[k].as_str();
            if image_runs_from(image.as_str(), root) && value_starts_with(&value, root) {
                let length = chars_of(root).len();
                let original = cut_string(&value, length - 1, value.len());
                assert(original@ =~= value@.skip(root@.len() - 1));
                return Some(
                    "argument `".to_owned().concat(arg).concat(
                        "` starts with the MSYS installation root `",
                    ).concat(root).concat(
                        "`: Git Bash rewrote a leading-`/` value (for example `",
                    ).concat(original.as_str()).concat(
                        "`) into a Windows path before contextmink started, so results would describe a different value. Rerun with the command prefixed by `MSYS_NO_PATHCONV=1` (for example `MSYS_NO_PATHCONV=1 contextmink ...`)",
                    ),
                );
            }
            k += 1;
        }
        i += 1;
    }
    None
}

/// Whether a text starts with another, the case of ASCII letters aside.
pub open spec fn begins_alike(value: Seq<char>, front: Seq<char>) -> bool {
    value.len() >= front.len() && (forall|i: int|
        0 <= i < front.len() ==> strings::lower_char(#[trigger] value[i]) == strings::lower_char(
            front[i],
        ))
}

/// Arguments are refused if and only if the value of one of them starts with a root that
/// the program's image lies in, whatever the case of either.
pub proof fn rewritten_arguments_are_refused(
    args: Seq<Seq<char>>,
    image: Seq<char>,
    roots: Seq<Seq<char>>,
)
    ensures
        rewritten_from(args, image, roots, 0) is Some <==> (exists|i: int, k: int|
            0 <= i < args.len() && 0 <= k < roots.len() && runs_from(image, #[trigger] roots[k])
                && begins_alike(argument_value(#[trigger] args[i]), roots[k])),
{
    lemma_rewritten(args, image, roots, 0);
}

proof fn lemma_rewritten(args: Seq<Seq<char>>, image: Seq<char>, roots: Seq<Seq<char>>, at: int)
    requires
        0 <= at <= args.len(),
    ensures
        rewritten_from(args, image, roots, at) is Some <==> (exists|i: int, k: int|
            at <= i < args.len() && 0 <= k < roots.len() && runs_from(image, #[trigger] roots[k])
                && begins_alike(argument_value(#[trigger] args[i]), roots[k])),
    decreases args.len() - at,
{
    if at < args.len() {
        lemma_rewritten(args, image, roots, at + 1);
        lemma_root_in_front(argument_value(args[at]), image, roots, 0);
        if exists|i: int, k: int|
            at <= i < args.len() && 0 <= k < roots.len() && runs_from(image, #[trigger] roots[k])
                && begins_alike(argument_value(#[trigger] args[i]), roots[k]) {
            let (i, k) = choose|i: int, k: int|
                at <= i < args.len() && 0 <= k < roots.len() && runs_from(
                    image,
                    #[trigger] roots[k],
                ) && begins_alike(argument_value(#[trigger] args[i]), roots[k]);
            if i > at {
                assert(begins_alike(argument_value(args[i]), roots[k]));
            }
        }
        if root_in_front(argument_value(args[at]), image, roots, 0) is Some {
            let k = choose|k: int|
                0 <= k < roots.len() && runs_from(image, #[trigger] roots[k]) && begins_alike(
                    argument_value(args[at]),
                    roots[k],
                );
            assert(begins_alike(argument_value(args[at]), roots[k]));
        }
    }
}

proof fn lemma_root_in_front(value: Seq<char>, image: Seq<char>, roots: Seq<Seq<char>>, at: int)
    requires
        0 <= at <= roots.len(),
    ensures
        root_in_front(value, image, roots, at) is Some <==> (exists|k: int|
            at <= k < roots.len() && runs_from(image, #[trigger] roots[k]) && begins_alike(
                value,
                roots[k],
            )),
    decreases roots.len() - at,
{
    if at < roots.len() {
        lemma_root_in_front(value, image, roots, at + 1);
        lemma_begins(value, roots[at]);
    }
}

proof fn lemma_begins(value: Seq<char>, root: Seq<char>)
    ensures
        starts_with_root(value, root) == begins_alike(value, root),
{
    if value.len() >= root.len() {
        let a = strings::lower_text(value.take(root.len() as int));
        let b = strings::lower_text(root);
        if a == b {
            assert forall|i: int| 0 <= i < root.len() implies strings::lower_char(
                #[trigger] value[i],
            ) == strings::lower_char(root[i]) by {
                assert(a[i] == strings::lower_char(value[i]));
                assert(b[i] == strings::lower_char(root[i]));
            }
        } else if begins_alike(value, root) {
            assert(a =~= b);
        }
    }
}

/// The value of an option is what stands behind its first `=`; any other argument is its
/// own value.
pub proof fn option_values_stand_behind_the_equals(name: Seq<char>, value: Seq<char>)
    requires
        !name.contains('='),
    ensures
        argument_value(seq!['-'] + name + seq!['='] + value) == value,
        argument_value(seq!['-'] + name) == seq!['-'] + name,
        value.len() > 0 && value[0] != '-' ==> argument_value(value) == value,
{
    reveal_strlit("-");
    assert("-"@ =~= seq!['-']);
    let option = seq!['-'] + name + seq!['='] + value;
    let at = name.len() as int + 1;
    assert("-"@ =~= option.take(1));
    strings::lemma_find_class_bounds(option, CharClass::Only('='), 0);
    let found = strings::find_class(option, CharClass::Only('='), 0);
    assert(option[at] == '=');
    if found < at {
        if found > 0 {
            assert(option[found] == name[found - 1]);
            assert(name.contains(name[found - 1]));
        }
    }
    assert(found == at);
    assert(option.subrange(at + 1, option.len() as int) =~= value);
    let bare = seq!['-'] + name;
    strings::lemma_find_class_bounds(bare, CharClass::Only('='), 0);
    let none = strings::find_class(bare, CharClass::Only('='), 0);
    if none < bare.len() {
        if none > 0 {
            assert(bare[none] == name[none - 1]);
            assert(name.contains(name[none - 1]));
        }
    }
    if value.len() > 0 && value[0] != '-' {
        if "-"@.is_prefix_of(value) {
            assert(value[0] == "-"@[0]);
        }
    }
}

/// Every entry of the search path that is the program directory of an installation gives
/// the installation's root, each root once.
pub proof fn roots_are_known_once(entries: Seq<Seq<char>>, n: nat, i: int, j: int)
    requires
        n <= entries.len(),
    ensures
        0 <= i < j < roots_of(entries, n).len() ==> !strings::same_ignoring_case(
            roots_of(entries, n)[i],
            roots_of(entries, n)[j],
        ),
        0 <= i < n ==> (root_of(entries[i]) matches Some(root) ==> knows_root(
            roots_of(entries, n),
            root,
        )),
    decreases n,
{
    if n > 0 {
        roots_are_known_once(entries, (n - 1) as nat, i, j);
        let before = roots_of(entries, (n - 1) as nat);
        let all = roots_of(entries, n);
        if all.len() > before.len() {
            let last = all.last();
            assert(all =~= before.push(last));
            if 0 <= i < j < all.len() {
                assert(all[i] == before[i]);
                if j < before.len() {
                    assert(all[j] == before[j]);
                } else if strings::same_ignoring_case(before[i], last) {
                    assert(knows_root(before, last));
                }
            }
            if 0 <= i < n && root_of(entries[i]) is Some {
                let root = root_of(entries[i])->0;
                if i == n - 1 {
                    assert(strings::same_ignoring_case(all[before.len() as int], root));
                } else {
                    let k = choose|k: int|
                        0 <= k < before.len() && strings::same_ignoring_case(
                            #[trigger] before[k],
                            root,
                        );
                    assert(all[k] == before[k]);
                }
            }
        }
    }
}

} // verus!
