//! What a deletion command deletes, and how its flags are spelled.
use vstd::prelude::*;

use crate::program;
use crate::program::is_dashed;
use crate::strings;
use crate::strings::{
    chars_of, contains, cut_string, same_text, same_text_ignoring_case, split_first, starts_with,
    strip_prefix, to_lower, trim_of, CharClass,
};

verus! {

pub open spec fn is_deletion(stem: Seq<char>) -> bool {
    stem == "rm"@ || stem == "del"@ || stem == "erase"@ || stem == "unlink"@ || stem
        == "remove-item"@ || stem == "ri"@ || stem == "rmdir"@ || stem == "rd"@
}

/// A cluster of short options that holds one of the letters.
pub open spec fn has_short_flag(word: Seq<char>, letters: Seq<char>) -> bool {
    &&& program::is_option(word)
    &&& !"--"@.is_prefix_of(word)
    &&& exists|i: int| 1 <= i < word.len() && letters.contains(#[trigger] word[i])
}

/// A word that sets a flag, spelled long or as a letter of a short cluster.
pub open spec fn sets_flag(word: Seq<char>, letters: Seq<char>, long: Seq<char>) -> bool {
    word == long || has_short_flag(word, letters)
}

/// Whether a PowerShell switch value switches off.
pub open spec fn is_false(value: Seq<char>) -> bool {
    let lower = strings::lower_text(value);
    lower == "false"@ || lower == "$false"@ || lower == "0"@
}

/// `-Recurse`, or a prefix of it, not switched off.
pub open spec fn sets_recurse(word: Seq<char>) -> bool {
    match strings::without_prefix(word, "-"@) {
        None => false,
        Some(rest) => match strings::split_at_first(rest, CharClass::Only(':')) {
            None => names_recurse(rest),
            Some((name, value)) => names_recurse(name) && !is_false(value),
        },
    }
}

pub open spec fn names_recurse(name: Seq<char>) -> bool {
    name.len() > 0 && strings::lower_text(name).is_prefix_of("recurse"@)
}

/// `-EncodedCommand`, or one of its short forms.
pub open spec fn is_encoded_flag(word: Seq<char>) -> bool {
    match strings::without_prefix(word, "-"@) {
        None => false,
        Some(rest) => {
            let name = strings::lower_text(flag_name(rest));
            name == "e"@ || name == "ec"@ || (name.len() > 0 && name.is_prefix_of(
                "encodedcommand"@,
            ))
        },
    }
}

/// What stands before the first `:` or `=`.
pub open spec fn flag_name(rest: Seq<char>) -> Seq<char> {
    let colon = strings::find_class(rest, CharClass::Only(':'), 0);
    let equals = strings::find_class(rest, CharClass::Only('='), 0);
    rest.take(
        if colon <= equals {
            colon
        } else {
            equals
        },
    )
}

/// The path that a `-Path:value` or `-LiteralPath:value` word names.
pub open spec fn attached_path(word: Seq<char>) -> Option<Seq<char>> {
    match strings::split_at_first(word, CharClass::Only(':')) {
        None => None,
        Some((parameter, value)) => match strings::without_prefix(parameter, "-"@) {
            None => None,
            Some(name) => {
                let lower = strings::lower_text(name);
                if value.len() > 0 && (lower == "path"@ || lower == "literalpath"@) {
                    Some(value)
                } else {
                    None
                }
            },
        },
    }
}

pub open spec fn has_attached_paths(stem: Seq<char>) -> bool {
    stem == "remove-item"@ || stem == "ri"@ || stem == "del"@ || stem == "erase"@
}

pub open spec fn has_slash_options(stem: Seq<char>) -> bool {
    stem == "del"@ || stem == "erase"@ || stem == "rmdir"@ || stem == "rd"@
}

/// An option whose value, the next word, is no deletion target.
pub open spec fn takes_other_value(word: Seq<char>) -> bool {
    let lower = strings::lower_text(word);
    lower == "-exclude"@ || lower == "-filter"@ || lower == "-include"@ || lower
        == "--pathspec-from-file"@
}

/// The deletion targets among the arguments from `i` on.
pub open spec fn targets_from(
    stem: Seq<char>,
    args: Seq<Seq<char>>,
    i: int,
    options_done: bool,
    skip: bool,
) -> Seq<Seq<char>>
    decreases args.len() - i,
{
    if i < 0 || i >= args.len() {
        Seq::empty()
    } else if skip {
        targets_from(stem, args, i + 1, options_done, false)
    } else if !options_done && args[i] == "--"@ {
        targets_from(stem, args, i + 1, true, false)
    } else if !options_done && program::is_option(args[i]) {
        if has_attached_paths(stem) && attached_path(args[i]) is Some {
            seq![attached_path(args[i])->0] + targets_from(stem, args, i + 1, options_done, false)
        } else {
            targets_from(stem, args, i + 1, options_done, takes_other_value(args[i]))
        }
    } else if !options_done && has_slash_options(stem) && args[i].len() > 0 && args[i][0] == '/' {
        targets_from(stem, args, i + 1, options_done, false)
    } else {
        seq![args[i]] + targets_from(stem, args, i + 1, options_done, false)
    }
}

/// The deletion targets of a command.
pub open spec fn targets(stem: Seq<char>, args: Seq<Seq<char>>) -> Seq<Seq<char>> {
    targets_from(stem, args, 0, false, false)
}

/// The first fragment from `k` on, trimmed, that occurs in the lower-case word
/// without regard to case.
pub open spec fn fragment_in(lower: Seq<char>, fragments: Seq<Seq<char>>, k: int) -> Option<
    Seq<char>,
>
    decreases fragments.len() - k,
{
    if k < 0 || k >= fragments.len() {
        None
    } else {
        let fragment = strings::trim(fragments[k]);
        if fragment.len() > 0 && strings::contains_text(lower, strings::lower_text(fragment)) {
            Some(fragment)
        } else {
            fragment_in(lower, fragments, k + 1)
        }
    }
}

/// The first fragment found in the words from `i` on.
pub open spec fn first_fragment(words: Seq<Seq<char>>, fragments: Seq<Seq<char>>, i: int) -> Option<
    Seq<char>,
>
    decreases words.len() - i,
{
    if i < 0 || i >= words.len() {
        None
    } else {
        match fragment_in(strings::lower_text(words[i]), fragments, 0) {
            Some(fragment) => Some(fragment),
            None => first_fragment(words, fragments, i + 1),
        }
    }
}

/// A cluster of the short options of `git rm`.
pub open spec fn is_git_rm_cluster(word: Seq<char>) -> bool {
    &&& word.len() > 1
    &&& word[0] == '-'
    &&& forall|i: int| 1 <= i < word.len() ==> (#[trigger] word[i] == 'f' || word[i] == 'n' || word[i]
        == 'q' || word[i] == 'r')
}

/// An option of `git rm` that is spelled in full and not negated.
pub open spec fn is_git_rm_option(word: Seq<char>) -> bool {
    word == "--cached"@ || word == "--dry-run"@ || word == "--force"@ || word == "--quiet"@ || word
        == "--ignore-unmatch"@ || word == "--sparse"@ || word == "--pathspec-file-nul"@
        || "--pathspec-from-file="@.is_prefix_of(word) || is_git_rm_cluster(word)
}

/// An option under which `git rm` leaves the working files alone.
pub open spec fn keeps_files(word: Seq<char>) -> bool {
    word == "--cached"@ || word == "--dry-run"@ || (is_git_rm_cluster(word) && exists|i: int|
        1 <= i < word.len() && #[trigger] word[i] == 'n')
}

/// Whether a `git rm` with these arguments is known to leave the working files
/// alone: one of its options says so, and each of them is unambiguous. Words
/// after `--` are filenames.
pub open spec fn git_rm_keeps_files(args: Seq<Seq<char>>, i: int, kept: bool) -> bool
    decreases args.len() - i,
{
    if i < 0 || i >= args.len() || args[i] == "--"@ {
        kept
    } else if !program::is_option(args[i]) || args[i] == "-"@ {
        git_rm_keeps_files(args, i + 1, kept)
    } else if args[i] == "--pathspec-from-file"@ {
        git_rm_keeps_files(args, program::within(args, i + 2), kept)
    } else if is_git_rm_option(args[i]) {
        git_rm_keeps_files(args, i + 1, kept || keeps_files(args[i]))
    } else {
        false
    }
}

/// Whether a stem names a command that deletes.
pub fn deletes(stem: &str) -> (held: bool)
    ensures
        held == is_deletion(stem@),
{
    same_text(stem, "rm") || same_text(stem, "del") || same_text(stem, "erase") || same_text(
        stem,
        "unlink",
    ) || same_text(stem, "remove-item") || same_text(stem, "ri") || same_text(stem, "rmdir")
        || same_text(stem, "rd")
}

/// `-rf`, `-fr`, `-r`, `-Rf` or the long spelling: a short cluster carries the
/// letter anywhere.
pub fn rm_flag(token: &str, letters: &[char], long: &str) -> (held: bool)
    ensures
        held == sets_flag(token@, letters@, long@),
{
    if same_text(token, long) {
        return true;
    }
    if !is_dashed(token) || starts_with(token, "--") {
        return false;
    }
    let chars = chars_of(token);
    let mut i: usize = 1;
    while i < chars.len()
        invariant
            1 <= i,
            chars@ == token@,
            program::is_option(token@),
            !"--"@.is_prefix_of(token@),
            forall|k: int| 1 <= k < i ==> !letters@.contains(#[trigger] token@[k]),
        decreases chars.len() - i,
    {
        if is_among(chars[i], letters) {
            assert(letters@.contains(token@[i as int]));
            return true;
        }
        i += 1;
    }
    false
}

fn is_among(c: char, letters: &[char]) -> (held: bool)
    ensures
        held == letters@.contains(c),
{
    let mut l: usize = 0;
    while l < letters.len()
        invariant
            l <= letters.len(),
            forall|k: int| 0 <= k < l ==> #[trigger] letters@[k] != c,
        decreases letters.len() - l,
    {
        if letters[l] == c {
            return true;
        }
        l += 1;
    }
    false
}

/// Whether a word is `-Recurse` in one of the spellings that PowerShell accepts.
pub fn powershell_recurse_flag(token: &str) -> (held: bool)
    ensures
        held == sets_recurse(token@),
{
    match strip_prefix(token, "-") {
        None => false,
        Some(rest) => match split_first(rest.as_str(), CharClass::Only(':')) {
            None => is_recurse_name(rest.as_str()),
            Some((name, value)) => {
                let lower = to_lower(value.as_str());
                is_recurse_name(name.as_str()) && !(same_text(lower.as_str(), "false")
                    || same_text(lower.as_str(), "$false") || same_text(lower.as_str(), "0"))
            },
        },
    }
}

fn is_recurse_name(name: &str) -> (held: bool)
    ensures
        held == names_recurse(name@),
{
    !name.is_empty() && starts_with("recurse", to_lower(name).as_str())
}

/// Whether a word asks PowerShell to run an encoded command.
pub fn powershell_encoded_flag(token: &str) -> (held: bool)
    ensures
        held == is_encoded_flag(token@),
{
    match strip_prefix(token, "-") {
        None => false,
        Some(rest) => {
            let chars = chars_of(rest.as_str());
            let colon = strings::find_class_from(&chars, CharClass::Only(':'), 0);
            let equals = strings::find_class_from(&chars, CharClass::Only('='), 0);
            let end = if colon <= equals {
                colon
            } else {
                equals
            };
            let name = to_lower(cut_string(&chars, 0, end).as_str());
            same_text(name.as_str(), "e") || same_text(name.as_str(), "ec") || (
            !name.as_str().is_empty() && starts_with("encodedcommand", name.as_str()))
        },
    }
}

/// The path in a `-Path:value` or `-LiteralPath:value` word.
pub fn powershell_attached_path_operand(token: &str) -> (path: Option<String>)
    ensures
        match path {
            Some(path) => attached_path(token@) == Some(path@),
            None => attached_path(token@) is None,
        },
{
    match split_first(token, CharClass::Only(':')) {
        None => None,
        Some((parameter, value)) => match strip_prefix(parameter.as_str(), "-") {
            None => None,
            Some(name) => {
                let lower = to_lower(name.as_str());
                if !value.as_str().is_empty() && (same_text(lower.as_str(), "path") || same_text(
                    lower.as_str(),
                    "literalpath",
                )) {
                    Some(value)
                } else {
                    None
                }
            },
        },
    }
}

/// The words of a deletion command that name what it deletes.
pub fn path_operands(stem: &str, args: &[String]) -> (operands: Vec<String>)
    ensures
        strings::texts(operands@) == targets(stem@, strings::texts(args@)),
{
    let ghost words = strings::texts(args@);
    let attached = same_text(stem, "remove-item") || same_text(stem, "ri") || same_text(stem, "del")
        || same_text(stem, "erase");
    let slashed = same_text(stem, "del") || same_text(stem, "erase") || same_text(stem, "rmdir")
        || same_text(stem, "rd");
    let mut operands: Vec<String> = Vec::new();
    let mut options_done = false;
    let mut skip = false;
    let mut i: usize = 0;
    assert(strings::texts(operands@) + targets(stem@, words) =~= targets(stem@, words));
    while i < args.len()
        invariant
            i <= args.len(),
            words == strings::texts(args@),
            attached == has_attached_paths(stem@),
            slashed == has_slash_options(stem@),
            strings::texts(operands@) + targets_from(stem@, words, i as int, options_done, skip)
                == targets(stem@, words),
        decreases args.len() - i,
    {
        assert(words[i as int] == args@[i as int]@);
        let ghost before = operands@;
        let ghost rest = targets_from(stem@, words, i + 1, options_done, false);
        let word = args[i].as_str();
        if skip {
            skip = false;
        } else if !options_done && same_text(word, "--") {
            options_done = true;
        } else if !options_done && is_dashed(word) {
            let path = if attached {
                powershell_attached_path_operand(word)
            } else {
                None
            };
            match path {
                Some(path) => {
                    operands.push(path);
                    assert(strings::texts(operands@) =~= strings::texts(before).push(path@));
                    assert(strings::texts(operands@) + rest =~= strings::texts(before) + (seq![
                        path@,
                    ] + rest));
                },
                None => {
                    let lower = to_lower(word);
                    skip = same_text(lower.as_str(), "-exclude") || same_text(
                        lower.as_str(),
                        "-filter",
                    ) || same_text(lower.as_str(), "-include") || same_text(
                        lower.as_str(),
                        "--pathspec-from-file",
                    );
                },
            }
        } else {
            let chars = chars_of(word);
            if !options_done && slashed && chars.len() > 0 && chars[0] == '/' {
            } else {
                let operand = args[i].clone();
                operands.push(operand);
                assert(strings::texts(operands@) =~= strings::texts(before).push(operand@));
                assert(strings::texts(operands@) + rest =~= strings::texts(before) + (seq![
                    operand@,
                ] + rest));
            }
        }
        i += 1;
    }
    assert(strings::texts(operands@) + targets_from(stem@, words, i as int, options_done, skip)
        =~= strings::texts(operands@));
    operands
}

/// The first configured fragment that one of the words holds, without regard to
/// case; blank fragments hold nothing.
pub fn any_fragment(tokens: &[String], fragments: &[String]) -> (found: Option<String>)
    ensures
        ({
            let first = first_fragment(strings::texts(tokens@), strings::texts(fragments@), 0);
            match found {
                Some(found) => first == Some(found@),
                None => first is None,
            }
        }),
{
    let ghost words = strings::texts(tokens@);
    let ghost all = strings::texts(fragments@);
    let mut i: usize = 0;
    while i < tokens.len()
        invariant
            i <= tokens.len(),
            words == strings::texts(tokens@),
            all == strings::texts(fragments@),
            first_fragment(words, all, i as int) == first_fragment(words, all, 0),
        decreases tokens.len() - i,
    {
        assert(words[i as int] == tokens@[i as int]@);
        let lower = to_lower(tokens[i].as_str());
        let mut k: usize = 0;
        while k < fragments.len()
            invariant
                k <= fragments.len(),
                i < tokens.len(),
                words == strings::texts(tokens@),
                words[i as int] == tokens@[i as int]@,
                all == strings::texts(fragments@),
                lower@ == strings::lower_text(words[i as int]),
                first_fragment(words, all, i as int) == first_fragment(words, all, 0),
                fragment_in(lower@, all, k as int) == fragment_in(lower@, all, 0),
            decreases fragments.len() - k,
        {
            assert(all[k as int] == fragments@[k as int]@);
            let fragment = trim_of(fragments[k].as_str());
            if !fragment.as_str().is_empty() && contains(
                lower.as_str(),
                to_lower(fragment.as_str()).as_str(),
            ) {
                return Some(fragment);
            }
            k += 1;
        }
        i += 1;
    }
    None
}

fn is_rm_cluster(word: &str) -> (held: (bool, bool))
    ensures
        held.0 == is_git_rm_cluster(word@),
        held.0 ==> held.1 == keeps_files(word@),
{
    let chars = chars_of(word);
    if chars.len() < 2 || chars[0] != '-' {
        return (false, false);
    }
    let mut dry = false;
    let mut i: usize = 1;
    while i < chars.len()
        invariant
            1 <= i <= chars.len(),
            chars@ == word@,
            forall|k: int|
                1 <= k < i ==> (#[trigger] word@[k] == 'f' || word@[k] == 'n' || word@[k] == 'q'
                    || word@[k] == 'r'),
            dry == exists|k: int| 1 <= k < i && #[trigger] word@[k] == 'n',
        decreases chars.len() - i,
    {
        let c = chars[i];
        if c != 'f' && c != 'n' && c != 'q' && c != 'r' {
            assert(!(word@[i as int] == 'f' || word@[i as int] == 'n' || word@[i as int] == 'q'
                || word@[i as int] == 'r'));
            return (false, false);
        }
        if c == 'n' {
            assert(word@[i as int] == 'n');
            dry = true;
        }
        i += 1;
    }
    proof {
        reveal_strlit("--cached");
        reveal_strlit("--dry-run");
        assert("--cached"@[1] == '-');
        assert("--dry-run"@[1] == '-');
    }
    (true, dry)
}

/// Whether a `git rm` with these arguments leaves the working files alone.
pub fn git_rm_is_harmless(args: &[String]) -> (held: bool)
    ensures
        held == git_rm_keeps_files(strings::texts(args@), 0, false),
{
    let ghost words = strings::texts(args@);
    let mut kept = false;
    let mut i: usize = 0;
    while i < args.len()
        invariant
            i <= args.len(),
            words == strings::texts(args@),
            git_rm_keeps_files(words, i as int, kept) == git_rm_keeps_files(words, 0, false),
        decreases args.len() - i,
    {
        assert(words[i as int] == args@[i as int]@);
        let word = args[i].as_str();
        if same_text(word, "--") {
            return kept;
        }
        if !is_dashed(word) || same_text(word, "-") {
            i += 1;
        } else if same_text(word, "--pathspec-from-file") {
            i = if args.len() - i >= 2 {
                i + 2
            } else {
                args.len()
            };
        } else {
            let (cluster, dry) = is_rm_cluster(word);
            let known = same_text(word, "--cached") || same_text(word, "--dry-run") || same_text(
                word,
                "--force",
            ) || same_text(word, "--quiet") || same_text(word, "--ignore-unmatch") || same_text(
                word,
                "--sparse",
            ) || same_text(word, "--pathspec-file-nul") || starts_with(
                word,
                "--pathspec-from-file=",
            );
            if !cluster && !known {
                return false;
            }
            let keeps = if cluster {
                dry
            } else {
                same_text(word, "--cached") || same_text(word, "--dry-run")
            };
            kept = kept || keeps;
            i += 1;
        }
    }
    kept
}

/// Whether one of the words sets the flag.
pub open spec fn any_sets_flag(words: Seq<Seq<char>>, letters: Seq<char>, long: Seq<char>) -> bool {
    exists|i: int| 0 <= i < words.len() && sets_flag(#[trigger] words[i], letters, long)
}

/// The letters of the recursive flag of `rm`.
pub open spec fn recursive_letters() -> Seq<char> {
    seq!['r', 'R']
}

/// Whether a deletion with these arguments descends into directories.
pub open spec fn is_recursive(stem: Seq<char>, args: Seq<Seq<char>>) -> bool {
    if stem == "rm"@ {
        any_sets_flag(args, recursive_letters(), "--recursive"@)
    } else if stem == "remove-item"@ || stem == "ri"@ {
        exists|i: int| 0 <= i < args.len() && sets_recurse(#[trigger] args[i])
    } else if stem == "del"@ || stem == "erase"@ {
        exists|i: int|
            0 <= i < args.len() && (sets_recurse(#[trigger] args[i]) || strings::same_ignoring_case(
                args[i],
                "/s"@,
            ))
    } else if stem == "rmdir"@ || stem == "rd"@ {
        exists|i: int| 0 <= i < args.len() && strings::same_ignoring_case(#[trigger] args[i], "/s"@)
    } else {
        false
    }
}

/// Whether one of the arguments asks `rm` to descend into directories.
pub fn has_recursive_flag(args: &[String]) -> (held: bool)
    ensures
        held == any_sets_flag(strings::texts(args@), recursive_letters(), "--recursive"@),
{
    let ghost words = strings::texts(args@);
    let letters: [char; 2] = ['r', 'R'];
    assert(letters@ =~= recursive_letters());
    let mut i: usize = 0;
    while i < args.len()
        invariant
            i <= args.len(),
            words == strings::texts(args@),
            letters@ == recursive_letters(),
            forall|k: int|
                0 <= k < i ==> !sets_flag(#[trigger] words[k], recursive_letters(), "--recursive"@),
        decreases args.len() - i,
    {
        assert(words[i as int] == args@[i as int]@);
        if rm_flag(args[i].as_str(), &letters, "--recursive") {
            return true;
        }
        i += 1;
    }
    false
}

/// Whether a deletion with these arguments descends into directories. `del` and
/// `erase` are both builtins of `cmd` and PowerShell aliases.
pub fn deletes_recursively(stem: &str, args: &[String]) -> (held: bool)
    ensures
        held == is_recursive(stem@, strings::texts(args@)),
{
    let ghost words = strings::texts(args@);
    if same_text(stem, "rm") {
        return has_recursive_flag(args);
    }
    let alias = same_text(stem, "remove-item") || same_text(stem, "ri");
    let both = same_text(stem, "del") || same_text(stem, "erase");
    let slash = same_text(stem, "rmdir") || same_text(stem, "rd");
    if !alias && !both && !slash {
        return false;
    }
    let mut i: usize = 0;
    while i < args.len()
        invariant
            i <= args.len(),
            words == strings::texts(args@),
            stem@ != "rm"@,
            alias == (stem@ == "remove-item"@ || stem@ == "ri"@),
            both == (stem@ == "del"@ || stem@ == "erase"@),
            slash == (stem@ == "rmdir"@ || stem@ == "rd"@),
            alias || both || slash,
            alias || (both && !alias) ==> forall|k: int|
                0 <= k < i ==> !sets_recurse(#[trigger] words[k]),
            !alias ==> forall|k: int|
                0 <= k < i ==> !strings::same_ignoring_case(#[trigger] words[k], "/s"@),
        decreases args.len() - i,
    {
        assert(words[i as int] == args@[i as int]@);
        let word = args[i].as_str();
        let recurse = powershell_recurse_flag(word);
        let sub = same_text_ignoring_case(word, "/s");
        if alias {
            if recurse {
                return true;
            }
        } else if both {
            if recurse || sub {
                return true;
            }
        } else if sub {
            return true;
        }
        i += 1;
    }
    false
}

} // verus!
