//! What holds of the verdicts on commands: which words make a deletion recursive, which
//! of them are its targets, and what wrappers, shells and separators do to a verdict.
use vstd::prelude::*;

use crate::braces;
use crate::deletion;
use crate::destructive_guard;
use crate::destructive_guard::{Rules, MAX_NESTED_SHELL_DEPTH};
use crate::program;
use crate::program::{OptionKind, Wrapper};
use crate::shell_laws;
use crate::shell_parse;
use crate::shell_parse::ShellDialect;
use crate::strings;
use crate::strings::CharClass;

verus! {

/// A word with one dash in front and something behind it that is no dash.
pub open spec fn is_cluster(word: Seq<char>) -> bool {
    word.len() >= 2 && word[0] == '-' && word[1] != '-'
}

/// A short cluster sets the flag of each of its letters, wherever in it the letter
/// stands.
pub proof fn clusters_set_each_letter(word: Seq<char>, letters: Seq<char>, long: Seq<char>, k: int)
    requires
        is_cluster(word),
        1 <= k < word.len(),
        letters.contains(word[k]),
    ensures
        deletion::sets_flag(word, letters, long),
{
    reveal_strlit("--");
    assert("--"@[1] == '-');
}

/// Two short clusters of the same letters, in whatever order and however often, set the
/// same flags.
pub proof fn letters_may_stand_in_any_order(
    a: Seq<char>,
    b: Seq<char>,
    letters: Seq<char>,
    long: Seq<char>,
)
    requires
        is_cluster(a),
        is_cluster(b),
        forall|c: char| #[trigger] a.skip(1).contains(c) == b.skip(1).contains(c),
        "--"@.is_prefix_of(long),
    ensures
        deletion::sets_flag(a, letters, long) == deletion::sets_flag(b, letters, long),
{
    reveal_strlit("--");
    assert(long[0] == "--"@[0] && long[1] == "--"@[1]);
    lemma_letter_moves(a, b, letters);
    lemma_letter_moves(b, a, letters);
}

proof fn lemma_letter_moves(a: Seq<char>, b: Seq<char>, letters: Seq<char>)
    requires
        is_cluster(a),
        is_cluster(b),
        forall|c: char| #[trigger] a.skip(1).contains(c) == b.skip(1).contains(c),
    ensures
        deletion::has_short_flag(a, letters) ==> deletion::has_short_flag(b, letters),
{
    reveal_strlit("--");
    if deletion::has_short_flag(a, letters) {
        let i = choose|i: int| 1 <= i < a.len() && letters.contains(#[trigger] a[i]);
        assert(a.skip(1)[i - 1] == a[i]);
        assert(a.skip(1).contains(a[i]));
        assert(b.skip(1).contains(a[i]));
        let j = b.skip(1).index_of(a[i]);
        assert(b.skip(1)[j] == a[i]);
        assert(b[j + 1] == a[i]);
    }
}

/// A word sets a flag only by its long spelling or as a cluster that holds one of its
/// letters.
pub proof fn only_spellings_set_a_flag(word: Seq<char>, letters: Seq<char>, long: Seq<char>)
    requires
        deletion::sets_flag(word, letters, long),
        word != long,
    ensures
        is_cluster(word),
        exists|k: int| 1 <= k < word.len() && letters.contains(#[trigger] word[k]),
{
    reveal_strlit("--");
    if word[1] == '-' {
        assert("--"@ =~= word.take(2));
        assert("--"@.is_prefix_of(word));
    }
}

/// A word that asks `rm` to descend into directories: `--recursive`, or a cluster with
/// an `r` or an `R` anywhere in it.
pub open spec fn asks_rm_to_descend(word: Seq<char>) -> bool {
    word == "--recursive"@ || (is_cluster(word) && (word.skip(1).contains('r') || word.skip(
        1,
    ).contains('R')))
}

/// A deletion by `rm` is recursive if and only if one of its words asks for it.
pub proof fn rm_descends_where_asked(args: Seq<Seq<char>>)
    ensures
        deletion::is_recursive("rm"@, args) <==> (exists|i: int|
            0 <= i < args.len() && asks_rm_to_descend(#[trigger] args[i])),
{
    assert forall|i: int| 0 <= i < args.len() implies asks_rm_to_descend(#[trigger] args[i])
        == deletion::sets_flag(
        args[i],
        deletion::recursive_letters(),
        "--recursive"@,
    ) by {
        lemma_rm_flag(args[i]);
    }
}

proof fn lemma_rm_flag(word: Seq<char>)
    ensures
        asks_rm_to_descend(word) == deletion::sets_flag(
            word,
            deletion::recursive_letters(),
            "--recursive"@,
        ),
{
    let letters = deletion::recursive_letters();
    assert(letters[0] == 'r' && letters[1] == 'R');
    if word != "--recursive"@ {
        if deletion::sets_flag(word, letters, "--recursive"@) {
            only_spellings_set_a_flag(word, letters, "--recursive"@);
            let k = choose|k: int| 1 <= k < word.len() && letters.contains(#[trigger] word[k]);
            assert(word.skip(1)[k - 1] == word[k]);
            assert(word.skip(1).contains(word[k]));
        }
        if asks_rm_to_descend(word) {
            let c = if word.skip(1).contains('r') {
                'r'
            } else {
                'R'
            };
            let k = word.skip(1).index_of(c);
            assert(word.skip(1)[k] == c);
            assert(word[k + 1] == c);
            clusters_set_each_letter(word, letters, "--recursive"@, k + 1);
        }
    }
}

/// A word that PowerShell reads as the switch `-Recurse`, which may be cut short and
/// spelled in any case.
pub open spec fn spells_recurse(word: Seq<char>) -> bool {
    &&& 2 <= word.len() <= 8
    &&& word[0] == '-'
    &&& strings::lower_text(word.skip(1)) == "recurse"@.take(word.len() - 1)
}

/// A PowerShell deletion with the switch is recursive, and so is one where the switch
/// has a value that does not switch it off; a value that does, leaves it as it was.
pub proof fn powershell_descends_where_asked(
    stem: Seq<char>,
    args: Seq<Seq<char>>,
    i: int,
    switch: Seq<char>,
    value: Seq<char>,
)
    requires
        stem == "remove-item"@ || stem == "ri"@ || stem == "del"@ || stem == "erase"@,
        0 <= i < args.len(),
        spells_recurse(switch),
    ensures
        args[i] == switch ==> deletion::is_recursive(stem, args),
        args[i] == switch + seq![':'] + value && strings::lower_text(value) != "false"@
            && strings::lower_text(value) != "$false"@ && strings::lower_text(value) != "0"@
            ==> deletion::is_recursive(stem, args),
        args == seq![switch + seq![':'] + value] && (strings::lower_text(value) == "false"@
            || strings::lower_text(value) == "$false"@ || strings::lower_text(value) == "0"@)
            ==> !deletion::is_recursive(stem, args),
{
    lemma_names_differ();
    reveal_strlit("-");
    reveal_strlit("recurse");
    reveal_strlit("/s");
    let rest = switch.skip(1);
    let lower = strings::lower_text(rest);
    assert(switch =~= "-"@ + rest);
    assert(lower.is_prefix_of("recurse"@));
    assert forall|k: int| 0 <= k < rest.len() implies #[trigger] rest[k] != ':' by {
        assert(lower[k] == strings::lower_char(rest[k]));
        assert(lower[k] == "recurse"@[k]);
    }
    if args[i] == switch {
        assert("-"@ =~= args[i].take(1));
        assert(args[i].subrange(1, args[i].len() as int) =~= rest);
        strings::lemma_find_class_bounds(rest, CharClass::Only(':'), 0);
        assert(deletion::sets_recurse(args[i]));
    }
    let with_value = switch + seq![':'] + value;
    let tail = rest + seq![':'] + value;
    assert("-"@ =~= with_value.take(1));
    assert(with_value.subrange(1, with_value.len() as int) =~= tail);
    lemma_first_is_at(tail, CharClass::Only(':'), rest.len() as int);
    assert(tail.subrange(0, rest.len() as int) =~= rest);
    assert(tail.subrange(rest.len() as int + 1, tail.len() as int) =~= value);
    assert(deletion::sets_recurse(with_value) == !deletion::is_false(value));
    if args == seq![with_value] {
        assert(args[0] == with_value);
        assert(strings::lower_text(with_value)[0] == strings::lower_char('-'));
        assert(strings::lower_text("/s"@)[0] == strings::lower_char('/'));
        assert(!strings::same_ignoring_case(with_value, "/s"@));
    }
}

proof fn lemma_first_is_at(text: Seq<char>, class: CharClass, at: int)
    requires
        0 <= at < text.len(),
        strings::in_class(class, text[at]),
        forall|i: int| 0 <= i < at ==> !strings::in_class(class, #[trigger] text[i]),
    ensures
        strings::find_class(text, class, 0) == at,
{
    strings::lemma_find_class_bounds(text, class, 0);
    let found = strings::find_class(text, class, 0);
    if found < at {
        assert(strings::in_class(class, text[found]));
    }
}

/// The deletions of `cmd` are recursive where `/s` is among their words, in either
/// case, and `rmdir` only there; `unlink` never is.
pub proof fn cmd_descends_where_asked(stem: Seq<char>, args: Seq<Seq<char>>)
    ensures
        (stem == "del"@ || stem == "erase"@ || stem == "rmdir"@ || stem == "rd"@) && (args.contains(
            seq!['/', 's'],
        ) || args.contains(seq!['/', 'S'])) ==> deletion::is_recursive(stem, args),
        (stem == "rmdir"@ || stem == "rd"@) && deletion::is_recursive(stem, args) ==> args.contains(
            seq!['/', 's'],
        ) || args.contains(seq!['/', 'S']),
        stem == "unlink"@ ==> !deletion::is_recursive(stem, args),
{
    lemma_names_differ();
    reveal_strlit("/s");
    let wanted = strings::lower_text("/s"@);
    assert(wanted =~= seq!['/', 's']);
    assert(strings::lower_text(seq!['/', 's']) =~= wanted);
    assert('S' as u32 == 83 && 's' as u32 == 115);
    assert(strings::lower_char('S') == 's');
    assert(strings::lower_text(seq!['/', 'S']) =~= wanted);
    if args.contains(seq!['/', 's']) {
        let i = args.index_of(seq!['/', 's']);
        assert(strings::same_ignoring_case(args[i], "/s"@));
    }
    if args.contains(seq!['/', 'S']) {
        let i = args.index_of(seq!['/', 'S']);
        assert(strings::same_ignoring_case(args[i], "/s"@));
    }
    if (stem == "rmdir"@ || stem == "rd"@) && deletion::is_recursive(stem, args) {
        let i = choose|i: int|
            0 <= i < args.len() && strings::same_ignoring_case(#[trigger] args[i], "/s"@);
        let word = args[i];
        let lower = strings::lower_text(word);
        assert(lower == wanted);
        assert(lower.len() == word.len());
        assert(lower[0] == strings::lower_char(word[0]));
        assert(lower[1] == strings::lower_char(word[1]));
        lemma_lower_of(word[0]);
        lemma_lower_of(word[1]);
        assert(word[0] == '/');
        assert(word[1] == 's' || word[1] == 'S');
        if word[1] == 's' {
            assert(word =~= seq!['/', 's']);
        } else {
            assert(word =~= seq!['/', 'S']);
        }
    }
}

proof fn lemma_lower_of(c: char)
    ensures
        strings::lower_char(c) == '/' ==> c == '/',
        strings::lower_char(c) == 's' ==> c == 's' || c == 'S',
{
    if 'A' <= c <= 'Z' {
        assert(65u32 <= c as u32 <= 90u32);
        assert(strings::lower_char(c) as u32 == c as u32 + 32);
    }
}

/// The names by which commands are told apart are different texts.
proof fn lemma_names_differ()
    ensures
        "rm"@ != "unlink"@ && "del"@ != "unlink"@ && "erase"@ != "unlink"@ && "rmdir"@
            != "unlink"@ && "rd"@ != "unlink"@ && "remove-item"@ != "unlink"@ && "ri"@
            != "unlink"@,
        "rm"@ != "rmdir"@ && "rm"@ != "rd"@ && "rm"@ != "del"@ && "rm"@ != "erase"@,
        "ri"@ != "rmdir"@ && "ri"@ != "rd"@ && "ri"@ != "del"@ && "ri"@ != "erase"@,
        "remove-item"@ != "rmdir"@ && "remove-item"@ != "rd"@ && "remove-item"@ != "del"@
            && "remove-item"@ != "erase"@,
        "rm"@ != "ri"@ && "rm"@ != "remove-item"@,
        "del"@ != "rd"@ && "del"@ != "rmdir"@ && "erase"@ != "rmdir"@ && "erase"@ != "rd"@,
{
    reveal_strlit("rm");
    reveal_strlit("del");
    reveal_strlit("erase");
    reveal_strlit("unlink");
    reveal_strlit("remove-item");
    reveal_strlit("ri");
    reveal_strlit("rmdir");
    reveal_strlit("rd");
    assert("rm"@.len() == 2 && "rmdir"@.len() == 5 && "del"@.len() == 3 && "erase"@.len() == 5);
    assert("remove-item"@.len() == 11 && "ri"@.len() == 2 && "rd"@.len() == 2);
    assert("rm"@[1] == 'm' && "ri"@[1] == 'i' && "rd"@[1] == 'd');
    assert("del"@[0] == 'd' && "rd"@[0] == 'r');
    assert("erase"@[0] == 'e' && "rmdir"@[0] == 'r');
    assert("unlink"@[0] == 'u');
}

/// Whether a stem names a program that deletes.
pub open spec fn names_a_deletion(stem: Seq<char>) -> bool {
    ||| stem == "rm"@
    ||| stem == "unlink"@
    ||| stem == "rmdir"@
    ||| stem == "rd"@
    ||| stem == "del"@
    ||| stem == "erase"@
    ||| stem == "remove-item"@
    ||| stem == "ri"@
}

proof fn lemma_deletions_are_nothing_else(stem: Seq<char>)
    requires
        names_a_deletion(stem),
    ensures
        stem != "git"@,
        stem != "bash"@,
        stem != "sh"@,
        stem != "dash"@,
        stem != "zsh"@,
        stem != "ksh"@,
        stem != "powershell"@,
        stem != "pwsh"@,
        stem != "cmd"@,
        stem != "eval"@,
        stem != "find"@,
        stem != "then"@,
        stem != "else"@,
        stem != "elif"@,
        stem != "elseif"@,
        stem != "do"@,
        stem != "!"@,
        stem != "while"@,
        stem != "until"@,
        stem != "nohup"@,
        stem != "chronic"@,
        stem != "call"@,
        stem != "if"@,
        stem != "for"@,
        stem != "select"@,
        stem != "nice"@,
        stem != "env"@,
        stem != "command"@,
        stem != "sudo"@,
        stem != "exec"@,
        stem != "time"@,
        stem != "timeout"@,
        stem != "stdbuf"@,
        stem != "setsid"@,
        stem != "doas"@,
        stem != "xargs"@,
{
    reveal_strlit("rm");
    reveal_strlit("del");
    reveal_strlit("erase");
    reveal_strlit("unlink");
    reveal_strlit("remove-item");
    reveal_strlit("ri");
    reveal_strlit("rmdir");
    reveal_strlit("rd");
    reveal_strlit("git");
    reveal_strlit("bash");
    reveal_strlit("sh");
    reveal_strlit("dash");
    reveal_strlit("zsh");
    reveal_strlit("ksh");
    reveal_strlit("powershell");
    reveal_strlit("pwsh");
    reveal_strlit("cmd");
    reveal_strlit("eval");
    reveal_strlit("find");
    reveal_strlit("then");
    reveal_strlit("else");
    reveal_strlit("elif");
    reveal_strlit("elseif");
    reveal_strlit("do");
    reveal_strlit("!");
    reveal_strlit("while");
    reveal_strlit("until");
    reveal_strlit("nohup");
    reveal_strlit("chronic");
    reveal_strlit("call");
    reveal_strlit("if");
    reveal_strlit("for");
    reveal_strlit("select");
    reveal_strlit("nice");
    reveal_strlit("env");
    reveal_strlit("command");
    reveal_strlit("sudo");
    reveal_strlit("exec");
    reveal_strlit("time");
    reveal_strlit("timeout");
    reveal_strlit("stdbuf");
    reveal_strlit("setsid");
    reveal_strlit("doas");
    reveal_strlit("xargs");
    assert("rm"@.len() == 2 && "rm"@[0] == 'r');
    assert("del"@.len() == 3 && "del"@[0] == 'd');
    assert("erase"@.len() == 5 && "erase"@[0] == 'e');
    assert("unlink"@.len() == 6 && "unlink"@[0] == 'u');
    assert("remove-item"@.len() == 11 && "remove-item"@[0] == 'r');
    assert("ri"@.len() == 2 && "ri"@[0] == 'r');
    assert("rmdir"@.len() == 5 && "rmdir"@[0] == 'r');
    assert("rd"@.len() == 2 && "rd"@[0] == 'r');
    assert("git"@.len() == 3 && "git"@[0] == 'g');
    assert("bash"@.len() == 4 && "bash"@[0] == 'b');
    assert("sh"@.len() == 2 && "sh"@[0] == 's');
    assert("dash"@.len() == 4 && "dash"@[0] == 'd');
    assert("zsh"@.len() == 3 && "zsh"@[0] == 'z');
    assert("ksh"@.len() == 3 && "ksh"@[0] == 'k');
    assert("powershell"@.len() == 10 && "powershell"@[0] == 'p');
    assert("pwsh"@.len() == 4 && "pwsh"@[0] == 'p');
    assert("cmd"@.len() == 3 && "cmd"@[0] == 'c');
    assert("eval"@.len() == 4 && "eval"@[0] == 'e');
    assert("find"@.len() == 4 && "find"@[0] == 'f');
    assert("then"@.len() == 4 && "then"@[0] == 't');
    assert("else"@.len() == 4 && "else"@[0] == 'e');
    assert("elif"@.len() == 4 && "elif"@[0] == 'e');
    assert("elseif"@.len() == 6 && "elseif"@[0] == 'e');
    assert("do"@.len() == 2 && "do"@[0] == 'd');
    assert("!"@.len() == 1 && "!"@[0] == '!');
    assert("while"@.len() == 5 && "while"@[0] == 'w');
    assert("until"@.len() == 5 && "until"@[0] == 'u');
    assert("nohup"@.len() == 5 && "nohup"@[0] == 'n');
    assert("chronic"@.len() == 7 && "chronic"@[0] == 'c');
    assert("call"@.len() == 4 && "call"@[0] == 'c');
    assert("if"@.len() == 2 && "if"@[0] == 'i');
    assert("for"@.len() == 3 && "for"@[0] == 'f');
    assert("select"@.len() == 6 && "select"@[0] == 's');
    assert("nice"@.len() == 4 && "nice"@[0] == 'n');
    assert("env"@.len() == 3 && "env"@[0] == 'e');
    assert("command"@.len() == 7 && "command"@[0] == 'c');
    assert("sudo"@.len() == 4 && "sudo"@[0] == 's');
    assert("exec"@.len() == 4 && "exec"@[0] == 'e');
    assert("time"@.len() == 4 && "time"@[0] == 't');
    assert("timeout"@.len() == 7 && "timeout"@[0] == 't');
    assert("stdbuf"@.len() == 6 && "stdbuf"@[0] == 's');
    assert("setsid"@.len() == 6 && "setsid"@[0] == 's');
    assert("doas"@.len() == 4 && "doas"@[0] == 'd');
    assert("xargs"@.len() == 5 && "xargs"@[0] == 'x');
}

/// A word that is no option is a target of the deletion, unless it is the value of an
/// option in front of it that has another use for it, or an option of `cmd`.
pub proof fn plain_words_are_targets(stem: Seq<char>, args: Seq<Seq<char>>, j: int)
    requires
        0 <= j < args.len(),
        args[j].len() > 0 ==> args[j][0] != '-',
        args[j].len() > 0 && args[j][0] == '/' ==> stem != "del"@ && stem != "erase"@ && stem
            != "rmdir"@ && stem != "rd"@,
        j > 0 ==> leaves_the_next_word(args[j - 1]),
    ensures
        deletion::targets(stem, args).contains(args[j]),
{
    reveal_strlit("--");
    assert("--"@[0] == '-');
    lemma_becomes_target(stem, args, 0, false, false, j);
}

/// A word that is none of the options whose value, the next word, is no target.
pub open spec fn leaves_the_next_word(word: Seq<char>) -> bool {
    let lower = strings::lower_text(word);
    lower != "-exclude"@ && lower != "-filter"@ && lower != "-include"@ && lower
        != "--pathspec-from-file"@
}

proof fn lemma_becomes_target(
    stem: Seq<char>,
    args: Seq<Seq<char>>,
    i: int,
    options_done: bool,
    skip: bool,
    j: int,
)
    requires
        0 <= i <= j < args.len(),
        i == j ==> !skip,
        options_done || ((args[j].len() > 0 ==> args[j][0] != '-') && args[j] != "--"@ && (
        args[j].len() > 0 && args[j][0] == '/' ==> stem != "del"@ && stem != "erase"@ && stem
            != "rmdir"@ && stem != "rd"@)),
        options_done || i == j || leaves_the_next_word(args[j - 1]),
    ensures
        deletion::targets_from(stem, args, i, options_done, skip).contains(args[j]),
    decreases args.len() - i,
{
    let rest = deletion::targets_from(stem, args, i, options_done, skip);
    if i == j {
        assert(rest[0] == args[j]);
    } else if skip {
        lemma_becomes_target(stem, args, i + 1, options_done, false, j);
    } else if !options_done && args[i] == "--"@ {
        lemma_becomes_target(stem, args, i + 1, true, false, j);
    } else if !options_done && program::is_option(args[i]) {
        if deletion::has_attached_paths(stem) && deletion::attached_path(args[i]) is Some {
            lemma_becomes_target(stem, args, i + 1, options_done, false, j);
            let more = deletion::targets_from(stem, args, i + 1, options_done, false);
            let k = more.index_of(args[j]);
            assert(rest[k + 1] == args[j]);
        } else {
            lemma_becomes_target(
                stem,
                args,
                i + 1,
                options_done,
                deletion::takes_other_value(args[i]),
                j,
            );
        }
    } else if !options_done && deletion::has_slash_options(stem) && args[i].len() > 0 && args[i][0]
        == '/' {
        lemma_becomes_target(stem, args, i + 1, options_done, false, j);
    } else {
        lemma_becomes_target(stem, args, i + 1, options_done, false, j);
        let more = deletion::targets_from(stem, args, i + 1, options_done, false);
        let k = more.index_of(args[j]);
        assert(rest[k + 1] == args[j]);
    }
}

/// Behind `--` every word is a target, whatever it looks like.
pub proof fn words_behind_the_dashes_are_targets(
    stem: Seq<char>,
    args: Seq<Seq<char>>,
    end: int,
    j: int,
)
    requires
        0 <= end < j < args.len(),
        args[end] == "--"@,
        end > 0 ==> leaves_the_next_word(args[end - 1]),
    ensures
        deletion::targets(stem, args).contains(args[j]),
{
    lemma_becomes_target_behind(stem, args, 0, false, false, end, j);
}

proof fn lemma_becomes_target_behind(
    stem: Seq<char>,
    args: Seq<Seq<char>>,
    i: int,
    options_done: bool,
    skip: bool,
    end: int,
    j: int,
)
    requires
        0 <= i <= end < j < args.len(),
        args[end] == "--"@,
        i == end ==> !skip,
        i == end || leaves_the_next_word(args[end - 1]),
    ensures
        deletion::targets_from(stem, args, i, options_done, skip).contains(args[j]),
    decreases args.len() - i,
{
    let rest = deletion::targets_from(stem, args, i, options_done, skip);
    if options_done && !skip {
        lemma_becomes_target(stem, args, i, options_done, skip, j);
    } else if i == end {
        lemma_becomes_target(stem, args, i + 1, true, false, j);
    } else if skip {
        lemma_becomes_target_behind(stem, args, i + 1, options_done, false, end, j);
    } else if args[i] == "--"@ {
        lemma_becomes_target(stem, args, i + 1, true, false, j);
    } else if program::is_option(args[i]) {
        if deletion::has_attached_paths(stem) && deletion::attached_path(args[i]) is Some {
            lemma_becomes_target_behind(stem, args, i + 1, options_done, false, end, j);
            let more = deletion::targets_from(stem, args, i + 1, options_done, false);
            let k = more.index_of(args[j]);
            assert(rest[k + 1] == args[j]);
        } else {
            lemma_becomes_target_behind(
                stem,
                args,
                i + 1,
                options_done,
                deletion::takes_other_value(args[i]),
                end,
                j,
            );
        }
    } else if deletion::has_slash_options(stem) && args[i].len() > 0 && args[i][0] == '/' {
        lemma_becomes_target_behind(stem, args, i + 1, options_done, false, end, j);
    } else {
        lemma_becomes_target_behind(stem, args, i + 1, options_done, false, end, j);
        let more = deletion::targets_from(stem, args, i + 1, options_done, false);
        let k = more.index_of(args[j]);
        assert(rest[k + 1] == args[j]);
    }
}

/// Every target of a deletion is one of its words, or stands at the end of one behind a
/// colon.
pub proof fn targets_come_from_the_words(stem: Seq<char>, args: Seq<Seq<char>>, target: Seq<char>)
    requires
        deletion::targets(stem, args).contains(target),
    ensures
        exists|i: int|
            0 <= i < args.len() && (#[trigger] args[i] == target || (exists|before: Seq<char>|
                args[i] == #[trigger] (before + seq![':'] + target))),
{
    lemma_target_has_a_source(stem, args, 0, false, false, target);
}

proof fn lemma_target_has_a_source(
    stem: Seq<char>,
    args: Seq<Seq<char>>,
    i: int,
    options_done: bool,
    skip: bool,
    target: Seq<char>,
)
    requires
        0 <= i,
        deletion::targets_from(stem, args, i, options_done, skip).contains(target),
    ensures
        exists|i: int|
            0 <= i < args.len() && (#[trigger] args[i] == target || (exists|before: Seq<char>|
                args[i] == #[trigger] (before + seq![':'] + target))),
    decreases args.len() - i,
{
    let rest = deletion::targets_from(stem, args, i, options_done, skip);
    let k = rest.index_of(target);
    if i < args.len() {
        if skip {
            lemma_target_has_a_source(stem, args, i + 1, options_done, false, target);
        } else if !options_done && args[i] == "--"@ {
            lemma_target_has_a_source(stem, args, i + 1, true, false, target);
        } else if !options_done && program::is_option(args[i]) {
            if deletion::has_attached_paths(stem) && deletion::attached_path(args[i]) is Some {
                let more = deletion::targets_from(stem, args, i + 1, options_done, false);
                if k == 0 {
                    strings::lemma_find_class_bounds(args[i], CharClass::Only(':'), 0);
                    let at = strings::find_class(args[i], CharClass::Only(':'), 0);
                    let before = args[i].take(at);
                    assert(args[i] =~= before + seq![':'] + target);
                } else {
                    assert(more[k - 1] == target);
                    lemma_target_has_a_source(stem, args, i + 1, options_done, false, target);
                }
            } else {
                lemma_target_has_a_source(
                    stem,
                    args,
                    i + 1,
                    options_done,
                    deletion::takes_other_value(args[i]),
                    target,
                );
            }
        } else if !options_done && deletion::has_slash_options(stem) && args[i].len() > 0
            && args[i][0] == '/' {
            lemma_target_has_a_source(stem, args, i + 1, options_done, false, target);
        } else {
            let more = deletion::targets_from(stem, args, i + 1, options_done, false);
            if k == 0 {
                assert(args[i] == target);
            } else {
                assert(more[k - 1] == target);
                lemma_target_has_a_source(stem, args, i + 1, options_done, false, target);
            }
        }
    }
}

/// Whether a word holds a fragment: without the white space round it, which must leave
/// something, the fragment is a part of the word, the case of ASCII letters aside.
pub open spec fn holds_fragment(word: Seq<char>, fragment: Seq<char>) -> bool {
    &&& strings::trim(fragment).len() > 0
    &&& exists|before: Seq<char>, behind: Seq<char>|
        strings::lower_text(word) == #[trigger] (before + strings::lower_text(
            strings::trim(fragment),
        ) + behind)
}

pub open spec fn some_word_holds_a_fragment(
    words: Seq<Seq<char>>,
    fragments: Seq<Seq<char>>,
) -> bool {
    exists|i: int, k: int|
        0 <= i < words.len() && 0 <= k < fragments.len() && holds_fragment(
            #[trigger] words[i],
            #[trigger] fragments[k],
        )
}

/// A fragment is found among words if and only if one of the words holds one of the
/// fragments.
pub proof fn fragments_are_found_in_any_word(words: Seq<Seq<char>>, fragments: Seq<Seq<char>>)
    ensures
        deletion::first_fragment(words, fragments, 0) is Some <==> some_word_holds_a_fragment(
            words,
            fragments,
        ),
{
    lemma_fragment_found(words, fragments, 0);
}

proof fn lemma_fragment_found(words: Seq<Seq<char>>, fragments: Seq<Seq<char>>, i: int)
    requires
        0 <= i <= words.len(),
    ensures
        deletion::first_fragment(words, fragments, i) is Some <==> (exists|at: int, k: int|
            i <= at < words.len() && 0 <= k < fragments.len() && holds_fragment(
                #[trigger] words[at],
                #[trigger] fragments[k],
            )),
    decreases words.len() - i,
{
    if i < words.len() {
        lemma_fragment_in_word(words[i], fragments, 0);
        lemma_fragment_found(words, fragments, i + 1);
        if deletion::first_fragment(words, fragments, i) is Some {
            if deletion::fragment_in(strings::lower_text(words[i]), fragments, 0) is Some {
                let k = choose|k: int|
                    0 <= k < fragments.len() && holds_fragment(words[i], #[trigger] fragments[k]);
                assert(holds_fragment(words[i], fragments[k]));
            }
        }
        if exists|at: int, k: int|
            i <= at < words.len() && 0 <= k < fragments.len() && holds_fragment(
                #[trigger] words[at],
                #[trigger] fragments[k],
            ) {
            let (at, k) = choose|at: int, k: int|
                i <= at < words.len() && 0 <= k < fragments.len() && holds_fragment(
                    #[trigger] words[at],
                    #[trigger] fragments[k],
                );
            if at > i {
                assert(holds_fragment(words[at], fragments[k]));
            }
        }
    }
}

proof fn lemma_fragment_in_word(word: Seq<char>, fragments: Seq<Seq<char>>, k: int)
    requires
        0 <= k <= fragments.len(),
    ensures
        deletion::fragment_in(strings::lower_text(word), fragments, k) is Some <==> (exists|at: int|
            k <= at < fragments.len() && holds_fragment(word, #[trigger] fragments[at])),
    decreases fragments.len() - k,
{
    if k < fragments.len() {
        lemma_fragment_in_word(word, fragments, k + 1);
        strings::holding_is_a_split(
            strings::lower_text(word),
            strings::lower_text(strings::trim(fragments[k])),
        );
    }
}

/// What a deletion runs into: a recursive one into the fragments of either list, any
/// other into those of the second alone.
pub proof fn protection_is_by_fragment(targets: Seq<Seq<char>>, recursive: bool, rules: Rules)
    ensures
        destructive_guard::protected_target(targets, recursive, rules) is Some <==> ((recursive
            && some_word_holds_a_fragment(targets, rules.recursive)) || some_word_holds_a_fragment(
            targets,
            rules.delete,
        )),
{
    fragments_are_found_in_any_word(targets, rules.recursive);
    fragments_are_found_in_any_word(targets, rules.delete);
}

/// A command whose first word names a program that is neither a wrapper nor a shell
/// keyword runs that program.
proof fn lemma_first_word_is_the_program(words: Seq<Seq<char>>, dialect: ShellDialect)
    requires
        words.len() > 0,
        !words[0].contains('='),
        names_a_deletion(program::program_stem(words[0])),
    ensures
        program::past_assignments(words, 0) == 0,
        program::program_index(words, dialect) == Some(0int),
        program::env_payload(words, 0) is None,
{
    lemma_no_assignment(words[0]);
    lemma_deletions_are_nothing_else(program::program_stem(words[0]));
}

proof fn lemma_no_assignment(word: Seq<char>)
    requires
        !word.contains('='),
    ensures
        !program::is_assignment(word),
{
    strings::lemma_find_class_bounds(word, CharClass::Only('='), 0);
    let at = strings::find_class(word, CharClass::Only('='), 0);
    if at < word.len() {
        assert(word.contains(word[at]));
    }
}

/// What decides on a deletion is whether its targets hold fragments of the list that
/// applies to it.
pub proof fn deletions_are_denied_by_their_targets(
    words: Seq<Seq<char>>,
    rules: Rules,
    depth: nat,
    dialect: ShellDialect,
)
    requires
        words.len() > 0,
        !words[0].contains('='),
        names_a_deletion(program::program_stem(words[0])),
        depth <= MAX_NESTED_SHELL_DEPTH,
    ensures
        ({
            let stem = program::program_stem(words[0]);
            let targets = deletion::targets(stem, words.skip(1));
            destructive_guard::denied_command(words, rules, depth, dialect) is Some
                <==> rules.active && ((deletion::is_recursive(stem, words.skip(1))
                && some_word_holds_a_fragment(targets, rules.recursive))
                || some_word_holds_a_fragment(targets, rules.delete))
        }),
{
    let stem = program::program_stem(words[0]);
    let args = words.skip(1);
    lemma_first_word_is_the_program(words, dialect);
    lemma_deletions_are_nothing_else(stem);
    protection_is_by_fragment(
        deletion::targets(stem, args),
        deletion::is_recursive(stem, args),
        rules,
    );
}

/// Deleting a tree with `rm` is denied wherever one of its words has an `r` or an `R`
/// anywhere behind a single dash, or spells the option out, and a target among them
/// holds one of the fragments that recursive deletions must keep away from.
pub proof fn recursive_rm_of_a_protected_tree_is_denied(
    words: Seq<Seq<char>>,
    rules: Rules,
    depth: nat,
    dialect: ShellDialect,
    flag: int,
    target: int,
    fragment: int,
)
    requires
        rules.active,
        words.len() > 0,
        !words[0].contains('='),
        program::program_stem(words[0]) == "rm"@,
        0 < flag < words.len(),
        asks_rm_to_descend(words[flag]),
        0 < target < words.len(),
        words[target].len() > 0 ==> words[target][0] != '-',
        target == 1 || leaves_the_next_word(words[target - 1]),
        0 <= fragment < rules.recursive.len(),
        holds_fragment(words[target], rules.recursive[fragment]),
    ensures
        destructive_guard::denied_command(words, rules, depth, dialect) is Some,
        destructive_guard::denied_argv(words, rules) is Some,
{
    let args = words.skip(1);
    lemma_names_differ();
    assert(args[flag - 1] == words[flag]);
    assert(asks_rm_to_descend(args[flag - 1]));
    rm_descends_where_asked(args);
    assert(args[target - 1] == words[target]);
    if target > 1 {
        assert(args[target - 2] == words[target - 1]);
    }
    plain_words_are_targets("rm"@, args, target - 1);
    let targets = deletion::targets("rm"@, args);
    let at = targets.index_of(words[target]);
    assert(holds_fragment(targets[at], rules.recursive[fragment]));
    assert(some_word_holds_a_fragment(targets, rules.recursive));
    deletions_are_denied_by_their_targets(words, rules, 0, ShellDialect::Posix);
    if depth <= MAX_NESTED_SHELL_DEPTH {
        deletions_are_denied_by_their_targets(words, rules, depth, dialect);
    }
}

/// The same with the program spelled out: `rm`, in any case, behind any directory and
/// with any extension or none.
pub proof fn every_spelling_of_rm_is_denied(
    directory: Seq<char>,
    name: Seq<char>,
    args: Seq<Seq<char>>,
    rules: Rules,
    flag: int,
    target: int,
    fragment: int,
)
    requires
        rules.active,
        program::is_directory_part(directory),
        !directory.contains('='),
        name == seq!['r', 'm'] || name == seq!['R', 'M'] || name == seq!['R', 'm'] || name
            == seq!['r', 'M'],
        0 <= flag < args.len(),
        asks_rm_to_descend(args[flag]),
        0 <= target < args.len(),
        args[target].len() > 0 ==> args[target][0] != '-',
        target == 0 || leaves_the_next_word(args[target - 1]),
        0 <= fragment < rules.recursive.len(),
        holds_fragment(args[target], rules.recursive[fragment]),
    ensures
        destructive_guard::denied_argv(seq![directory + name] + args, rules) is Some,
        destructive_guard::denied_argv(
            seq![directory + name + seq!['.'] + seq!['e', 'x', 'e']] + args,
            rules,
        ) is Some,
{
    reveal_strlit("rm");
    assert('R' as u32 == 82 && 'M' as u32 == 77 && 'r' as u32 == 114 && 'm' as u32 == 109);
    assert(strings::lower_char('R') == 'r' && strings::lower_char('M') == 'm');
    assert(strings::lower_text(name) =~= "rm"@);
    let exe = seq!['e', 'x', 'e'];
    program::programs_are_known_by_name(directory, name, exe);
    let plain = directory + name;
    let full = directory + name + seq!['.'] + exe;
    assert forall|i: int| 0 <= i < plain.len() implies plain[i] != '=' by {
        if i < directory.len() {
            assert(directory.contains(directory[i]));
        }
    }
    assert forall|i: int| 0 <= i < full.len() implies full[i] != '=' by {
        if i < directory.len() {
            assert(directory.contains(directory[i]));
        }
    }
    let a = seq![plain] + args;
    let b = seq![full] + args;
    assert(a[0] == plain && b[0] == full);
    assert(a[flag + 1] == args[flag] && b[flag + 1] == args[flag]);
    assert(a[target + 1] == args[target] && b[target + 1] == args[target]);
    if target > 0 {
        assert(a[target] == args[target - 1] && b[target] == args[target - 1]);
    }
    recursive_rm_of_a_protected_tree_is_denied(
        a,
        rules,
        0,
        ShellDialect::Posix,
        flag + 1,
        target + 1,
        fragment,
    );
    recursive_rm_of_a_protected_tree_is_denied(
        b,
        rules,
        0,
        ShellDialect::Posix,
        flag + 1,
        target + 1,
        fragment,
    );
}

/// Deleting anything, recursively or not and with whatever program, is denied wherever
/// a target holds one of the fragments that all deletions must keep away from.
pub proof fn deletion_of_a_protected_file_is_denied(
    words: Seq<Seq<char>>,
    rules: Rules,
    depth: nat,
    dialect: ShellDialect,
    target: int,
    fragment: int,
)
    requires
        rules.active,
        words.len() > 0,
        !words[0].contains('='),
        names_a_deletion(program::program_stem(words[0])),
        0 < target < words.len(),
        words[target].len() > 0 ==> words[target][0] != '-' && words[target][0] != '/',
        target == 1 || leaves_the_next_word(words[target - 1]),
        0 <= fragment < rules.delete.len(),
        holds_fragment(words[target], rules.delete[fragment]),
    ensures
        destructive_guard::denied_command(words, rules, depth, dialect) is Some,
        destructive_guard::denied_argv(words, rules) is Some,
{
    let stem = program::program_stem(words[0]);
    let args = words.skip(1);
    assert(args[target - 1] == words[target]);
    if target > 1 {
        assert(args[target - 2] == words[target - 1]);
    }
    plain_words_are_targets(stem, args, target - 1);
    let targets = deletion::targets(stem, args);
    let at = targets.index_of(words[target]);
    assert(holds_fragment(targets[at], rules.delete[fragment]));
    assert(some_word_holds_a_fragment(targets, rules.delete));
    deletions_are_denied_by_their_targets(words, rules, 0, ShellDialect::Posix);
    if depth <= MAX_NESTED_SHELL_DEPTH {
        deletions_are_denied_by_their_targets(words, rules, depth, dialect);
    }
}

/// A deletion is denied only where one of its words holds a configured fragment; and
/// one that is not recursive is not denied for the fragments of the first list.
pub proof fn other_deletions_are_let_through(
    words: Seq<Seq<char>>,
    rules: Rules,
    depth: nat,
    dialect: ShellDialect,
)
    requires
        words.len() > 0,
        !words[0].contains('='),
        names_a_deletion(program::program_stem(words[0])),
        depth <= MAX_NESTED_SHELL_DEPTH,
        destructive_guard::denied_command(words, rules, depth, dialect) is Some,
    ensures
        rules.active,
        some_word_holds_a_fragment(words, rules.recursive) || some_word_holds_a_fragment(
            words,
            rules.delete,
        ),
        program::program_stem(words[0]) == "rm"@ && (forall|i: int|
            0 < i < words.len() ==> !asks_rm_to_descend(#[trigger] words[i]))
            ==> some_word_holds_a_fragment(words, rules.delete),
{
    let stem = program::program_stem(words[0]);
    let args = words.skip(1);
    let targets = deletion::targets(stem, args);
    deletions_are_denied_by_their_targets(words, rules, depth, dialect);
    if some_word_holds_a_fragment(targets, rules.recursive) {
        lemma_fragment_in_a_word(words, targets, rules.recursive);
    }
    if some_word_holds_a_fragment(targets, rules.delete) {
        lemma_fragment_in_a_word(words, targets, rules.delete);
    }
    if stem == "rm"@ && (forall|i: int|
        0 < i < words.len() ==> !asks_rm_to_descend(#[trigger] words[i])) {
        rm_descends_where_asked(args);
        assert forall|i: int| 0 <= i < args.len() implies !asks_rm_to_descend(
            #[trigger] args[i],
        ) by {
            assert(args[i] == words[i + 1]);
        }
    }
}

proof fn lemma_fragment_in_a_word(
    words: Seq<Seq<char>>,
    targets: Seq<Seq<char>>,
    fragments: Seq<Seq<char>>,
)
    requires
        words.len() > 0,
        targets == deletion::targets(program::program_stem(words[0]), words.skip(1)),
        some_word_holds_a_fragment(targets, fragments),
    ensures
        some_word_holds_a_fragment(words, fragments),
{
    let args = words.skip(1);
    let (i, k) = choose|i: int, k: int|
        0 <= i < targets.len() && 0 <= k < fragments.len() && holds_fragment(
            #[trigger] targets[i],
            #[trigger] fragments[k],
        );
    let target = targets[i];
    targets_come_from_the_words(program::program_stem(words[0]), args, target);
    let j = choose|j: int|
        0 <= j < args.len() && (#[trigger] args[j] == target || (exists|before: Seq<char>|
            args[j] == #[trigger] (before + seq![':'] + target)));
    assert(words[j + 1] == args[j]);
    if args[j] != target {
        let front = choose|before: Seq<char>| args[j] == #[trigger] (before + seq![':'] + target);
        let needle = strings::lower_text(strings::trim(fragments[k]));
        let (before, behind) = choose|before: Seq<char>, behind: Seq<char>|
            strings::lower_text(target) == #[trigger] (before + needle + behind);
        let longer = strings::lower_text(front + seq![':']) + before;
        assert(strings::lower_text(args[j]) =~= strings::lower_text(front + seq![':'])
            + strings::lower_text(target));
        assert(strings::lower_text(args[j]) =~= longer + needle + behind);
    }
    assert(holds_fragment(words[j + 1], fragments[k]));
}

/// Replacing a cluster of `rm` by another one of the same letters, in whatever order,
/// leaves the verdict as it is, unless either is spelled like an option that has its own
/// use for the next word.
pub proof fn order_of_letters_leaves_the_verdict(
    words: Seq<Seq<char>>,
    at: int,
    other: Seq<char>,
    rules: Rules,
    depth: nat,
    dialect: ShellDialect,
)
    requires
        words.len() > 0,
        !words[0].contains('='),
        program::program_stem(words[0]) == "rm"@,
        0 < at < words.len(),
        is_cluster(words[at]),
        is_cluster(other),
        forall|c: char| #[trigger] words[at].skip(1).contains(c) == other.skip(1).contains(c),
        leaves_the_next_word(words[at]),
        leaves_the_next_word(other),
        // What stands behind `--` is a name, not a cluster.
        forall|i: int| 0 < i < at ==> #[trigger] words[i] != "--"@,
    ensures
        (destructive_guard::denied_command(words, rules, depth, dialect) is Some) == (
        destructive_guard::denied_command(words.update(at, other), rules, depth, dialect) is Some),
{
    if depth <= MAX_NESTED_SHELL_DEPTH {
        let changed = words.update(at, other);
        let a = words.skip(1);
        let b = changed.skip(1);
        lemma_names_differ();
        assert(b =~= a.update(at - 1, other));
        assert forall|i: int| 0 <= i < at - 1 implies #[trigger] a[i] != "--"@ by {
            assert(a[i] == words[i + 1]);
        }
        reveal_strlit("--");
        assert("--"@[1] == '-');
        lemma_targets_alike("rm"@, a, b, 0, false, false, at - 1);
        rm_descends_where_asked(a);
        rm_descends_where_asked(b);
        reveal_strlit("--recursive");
        assert("--recursive"@[1] == '-');
        assert(asks_rm_to_descend(words[at]) == asks_rm_to_descend(other));
        if deletion::is_recursive("rm"@, a) {
            let i = choose|i: int| 0 <= i < a.len() && asks_rm_to_descend(#[trigger] a[i]);
            assert(asks_rm_to_descend(b[i]));
        }
        if deletion::is_recursive("rm"@, b) {
            let i = choose|i: int| 0 <= i < b.len() && asks_rm_to_descend(#[trigger] b[i]);
            assert(asks_rm_to_descend(a[i]));
        }
        assert(changed[0] == words[0]);
        deletions_are_denied_by_their_targets(words, rules, depth, dialect);
        deletions_are_denied_by_their_targets(changed, rules, depth, dialect);
    }
}

proof fn lemma_targets_alike(
    stem: Seq<char>,
    a: Seq<Seq<char>>,
    b: Seq<Seq<char>>,
    i: int,
    options_done: bool,
    skip: bool,
    at: int,
)
    requires
        stem == "rm"@,
        0 <= i <= a.len(),
        0 <= at < a.len(),
        b == a.update(at, b[at]),
        b.len() == a.len(),
        is_cluster(a[at]),
        is_cluster(b[at]),
        a[at] != "--"@,
        b[at] != "--"@,
        leaves_the_next_word(a[at]),
        leaves_the_next_word(b[at]),
        i <= at ==> !options_done,
        forall|k: int| 0 <= k < at ==> #[trigger] a[k] != "--"@,
    ensures
        deletion::targets_from(stem, a, i, options_done, skip) == deletion::targets_from(
            stem,
            b,
            i,
            options_done,
            skip,
        ),
    decreases a.len() - i,
{
    lemma_names_differ();
    lemma_names_differ_more();
    if i < a.len() {
        if i != at {
            assert(b[i] == a[i]);
        }
        lemma_targets_alike(stem, a, b, i + 1, options_done, false, at);
        if i >= at {
            lemma_targets_alike(stem, a, b, i + 1, true, false, at);
        }
        lemma_targets_alike(
            stem,
            a,
            b,
            i + 1,
            options_done,
            deletion::takes_other_value(a[i]),
            at,
        );
    }
}

proof fn lemma_names_differ_more()
    ensures
        !deletion::has_attached_paths("rm"@),
        !deletion::has_slash_options("rm"@),
{
    lemma_names_differ();
}

/// How the names of programs begin and how long they are, which tells them apart.
proof fn lemma_names()
    ensures
        "rm"@.len() == 2 && "rm"@[0] == 'r' && "rm"@[1] == 'm',
        "del"@.len() == 3 && "del"@[0] == 'd' && "del"@[1] == 'e' && "del"@[2] == 'l',
        "erase"@.len() == 5 && "erase"@[0] == 'e' && "erase"@[1] == 'r' && "erase"@[2] == 'a',
        "unlink"@.len() == 6 && "unlink"@[0] == 'u' && "unlink"@[1] == 'n' && "unlink"@[2] == 'l',
        "remove-item"@.len() == 11 && "remove-item"@[0] == 'r' && "remove-item"@[1] == 'e' && "remove-item"@[2] == 'm',
        "ri"@.len() == 2 && "ri"@[0] == 'r' && "ri"@[1] == 'i',
        "rmdir"@.len() == 5 && "rmdir"@[0] == 'r' && "rmdir"@[1] == 'm' && "rmdir"@[2] == 'd',
        "rd"@.len() == 2 && "rd"@[0] == 'r' && "rd"@[1] == 'd',
        "git"@.len() == 3 && "git"@[0] == 'g' && "git"@[1] == 'i' && "git"@[2] == 't',
        "bash"@.len() == 4 && "bash"@[0] == 'b' && "bash"@[1] == 'a' && "bash"@[2] == 's',
        "sh"@.len() == 2 && "sh"@[0] == 's' && "sh"@[1] == 'h',
        "dash"@.len() == 4 && "dash"@[0] == 'd' && "dash"@[1] == 'a' && "dash"@[2] == 's',
        "zsh"@.len() == 3 && "zsh"@[0] == 'z' && "zsh"@[1] == 's' && "zsh"@[2] == 'h',
        "ksh"@.len() == 3 && "ksh"@[0] == 'k' && "ksh"@[1] == 's' && "ksh"@[2] == 'h',
        "powershell"@.len() == 10 && "powershell"@[0] == 'p' && "powershell"@[1] == 'o' && "powershell"@[2] == 'w',
        "pwsh"@.len() == 4 && "pwsh"@[0] == 'p' && "pwsh"@[1] == 'w' && "pwsh"@[2] == 's',
        "cmd"@.len() == 3 && "cmd"@[0] == 'c' && "cmd"@[1] == 'm' && "cmd"@[2] == 'd',
        "eval"@.len() == 4 && "eval"@[0] == 'e' && "eval"@[1] == 'v' && "eval"@[2] == 'a',
        "find"@.len() == 4 && "find"@[0] == 'f' && "find"@[1] == 'i' && "find"@[2] == 'n',
        "then"@.len() == 4 && "then"@[0] == 't' && "then"@[1] == 'h' && "then"@[2] == 'e',
        "else"@.len() == 4 && "else"@[0] == 'e' && "else"@[1] == 'l' && "else"@[2] == 's',
        "elif"@.len() == 4 && "elif"@[0] == 'e' && "elif"@[1] == 'l' && "elif"@[2] == 'i',
        "elseif"@.len() == 6 && "elseif"@[0] == 'e' && "elseif"@[1] == 'l' && "elseif"@[2] == 's',
        "do"@.len() == 2 && "do"@[0] == 'd' && "do"@[1] == 'o',
        "!"@.len() == 1 && "!"@[0] == '!',
        "while"@.len() == 5 && "while"@[0] == 'w' && "while"@[1] == 'h' && "while"@[2] == 'i',
        "until"@.len() == 5 && "until"@[0] == 'u' && "until"@[1] == 'n' && "until"@[2] == 't',
        "nohup"@.len() == 5 && "nohup"@[0] == 'n' && "nohup"@[1] == 'o' && "nohup"@[2] == 'h',
        "chronic"@.len() == 7 && "chronic"@[0] == 'c' && "chronic"@[1] == 'h' && "chronic"@[2] == 'r',
        "call"@.len() == 4 && "call"@[0] == 'c' && "call"@[1] == 'a' && "call"@[2] == 'l',
        "if"@.len() == 2 && "if"@[0] == 'i' && "if"@[1] == 'f',
        "for"@.len() == 3 && "for"@[0] == 'f' && "for"@[1] == 'o' && "for"@[2] == 'r',
        "select"@.len() == 6 && "select"@[0] == 's' && "select"@[1] == 'e' && "select"@[2] == 'l',
        "nice"@.len() == 4 && "nice"@[0] == 'n' && "nice"@[1] == 'i' && "nice"@[2] == 'c',
        "env"@.len() == 3 && "env"@[0] == 'e' && "env"@[1] == 'n' && "env"@[2] == 'v',
        "command"@.len() == 7 && "command"@[0] == 'c' && "command"@[1] == 'o' && "command"@[2] == 'm',
        "sudo"@.len() == 4 && "sudo"@[0] == 's' && "sudo"@[1] == 'u' && "sudo"@[2] == 'd',
        "exec"@.len() == 4 && "exec"@[0] == 'e' && "exec"@[1] == 'x' && "exec"@[2] == 'e',
        "time"@.len() == 4 && "time"@[0] == 't' && "time"@[1] == 'i' && "time"@[2] == 'm',
        "timeout"@.len() == 7 && "timeout"@[0] == 't' && "timeout"@[1] == 'i' && "timeout"@[2] == 'm',
        "stdbuf"@.len() == 6 && "stdbuf"@[0] == 's' && "stdbuf"@[1] == 't' && "stdbuf"@[2] == 'd',
        "setsid"@.len() == 6 && "setsid"@[0] == 's' && "setsid"@[1] == 'e' && "setsid"@[2] == 't',
        "doas"@.len() == 4 && "doas"@[0] == 'd' && "doas"@[1] == 'o' && "doas"@[2] == 'a',
        "xargs"@.len() == 5 && "xargs"@[0] == 'x' && "xargs"@[1] == 'a' && "xargs"@[2] == 'r',
{
    reveal_strlit("rm");
    reveal_strlit("del");
    reveal_strlit("erase");
    reveal_strlit("unlink");
    reveal_strlit("remove-item");
    reveal_strlit("ri");
    reveal_strlit("rmdir");
    reveal_strlit("rd");
    reveal_strlit("git");
    reveal_strlit("bash");
    reveal_strlit("sh");
    reveal_strlit("dash");
    reveal_strlit("zsh");
    reveal_strlit("ksh");
    reveal_strlit("powershell");
    reveal_strlit("pwsh");
    reveal_strlit("cmd");
    reveal_strlit("eval");
    reveal_strlit("find");
    reveal_strlit("then");
    reveal_strlit("else");
    reveal_strlit("elif");
    reveal_strlit("elseif");
    reveal_strlit("do");
    reveal_strlit("!");
    reveal_strlit("while");
    reveal_strlit("until");
    reveal_strlit("nohup");
    reveal_strlit("chronic");
    reveal_strlit("call");
    reveal_strlit("if");
    reveal_strlit("for");
    reveal_strlit("select");
    reveal_strlit("nice");
    reveal_strlit("env");
    reveal_strlit("command");
    reveal_strlit("sudo");
    reveal_strlit("exec");
    reveal_strlit("time");
    reveal_strlit("timeout");
    reveal_strlit("stdbuf");
    reveal_strlit("setsid");
    reveal_strlit("doas");
    reveal_strlit("xargs");
}

/// A program that is neither a wrapper nor a shell keyword.
pub open spec fn runs_itself(stem: Seq<char>) -> bool {
    &&& stem != "then"@ && stem != "else"@ && stem != "elif"@ && stem != "elseif"@ && stem
        != "do"@ && stem != "!"@ && stem != "while"@ && stem != "until"@ && stem != "call"@
    &&& stem != "if"@ && stem != "for"@ && stem != "select"@
    &&& stem != "nohup"@ && stem != "chronic"@ && stem != "nice"@ && stem != "env"@ && stem
        != "command"@ && stem != "sudo"@ && stem != "exec"@ && stem != "time"@ && stem
        != "timeout"@ && stem != "stdbuf"@ && stem != "setsid"@ && stem != "doas"@ && stem
        != "xargs"@
}

proof fn lemma_first_word_runs(words: Seq<Seq<char>>, dialect: ShellDialect)
    requires
        words.len() > 0,
        !words[0].contains('='),
        runs_itself(program::program_stem(words[0])),
    ensures
        program::past_assignments(words, 0) == 0,
        program::program_index(words, dialect) == Some(0int),
        program::env_payload(words, 0) is None,
{
    lemma_no_assignment(words[0]);
}

/// A program that neither deletes, nor is git, `find`, `eval` or a shell, is let through
/// whatever its words are.
pub proof fn other_programs_are_let_through(
    words: Seq<Seq<char>>,
    rules: Rules,
    depth: nat,
    dialect: ShellDialect,
)
    requires
        words.len() > 0,
        !words[0].contains('='),
        depth <= MAX_NESTED_SHELL_DEPTH,
        runs_itself(program::program_stem(words[0])),
        ({
            let stem = program::program_stem(words[0]);
            &&& !names_a_deletion(stem)
            &&& stem != "git"@ && stem != "find"@ && stem != "eval"@
            &&& stem != "bash"@ && stem != "sh"@ && stem != "dash"@ && stem != "zsh"@ && stem
                != "ksh"@ && stem != "powershell"@ && stem != "pwsh"@ && stem != "cmd"@
        }),
    ensures
        destructive_guard::denied_command(words, rules, depth, dialect) is None,
{
    lemma_first_word_runs(words, dialect);
}

/// `git clean` is denied under all rules and at every depth, in whatever case it is
/// spelled and whatever follows, directly behind git or behind options with a value.
pub proof fn git_clean_is_denied_as_spelled(
    words: Seq<Seq<char>>,
    rules: Rules,
    depth: nat,
    dialect: ShellDialect,
)
    requires
        words.len() > 1,
        !words[0].contains('='),
        program::program_stem(words[0]) == "git"@,
        strings::lower_text(words[1]) == "clean"@ || (words.len() > 3 && (words[1] == "-C"@
            || words[1] == "-c"@ || words[1] == "--git-dir"@ || words[1] == "--work-tree"@)
            && strings::lower_text(words[3]) == "clean"@),
    ensures
        destructive_guard::denied_command(words, rules, depth, dialect) is Some,
{
    lemma_names();
    reveal_strlit("clean");
    reveal_strlit("-C");
    reveal_strlit("-c");
    reveal_strlit("--git-dir");
    reveal_strlit("--work-tree");
    reveal_strlit("--");
    reveal_strlit("-");
    lemma_first_word_runs(words, dialect);
    let args = words.skip(1);
    assert(args[0] == words[1]);
    assert(strings::lower_text("clean"@) =~= "clean"@);
    assert("-C"@.len() == 2 && "-c"@.len() == 2 && "-C"@[1] == 'C' && "-c"@[1] == 'c');
    assert("-C"@[0] == '-' && "-c"@[0] == '-');
    assert("--git-dir"@[0] == '-' && "--git-dir"@.len() == 9);
    assert("--work-tree"@[0] == '-' && "--work-tree"@.len() == 11);
    assert("--"@.len() == 2 && "--"@[1] == '-' && "-"@.len() == 1);
    let sub: int = if strings::lower_text(words[1]) == "clean"@ {
        0
    } else {
        2
    };
    assert(args[sub] == words[sub + 1]);
    lemma_clean_is_no_option(args[sub]);
    if sub == 2 {
        assert(program::git_subcommand_at(args, 2) == 2);
    }
    assert(program::git_subcommand_at(args, 0) == sub);
    destructive_guard::git_clean_is_always_denied(words, rules, depth, dialect);
}

proof fn lemma_clean_is_no_option(word: Seq<char>)
    requires
        strings::lower_text(word) == "clean"@,
    ensures
        word.len() == 5,
        word[0] != '-',
{
    reveal_strlit("clean");
    assert(strings::lower_text(word).len() == word.len());
    assert(strings::lower_text(word)[0] == strings::lower_char(word[0]));
    assert("clean"@[0] == 'c');
}

/// `git rm` is denied where it would delete what is protected: a target holds a fragment
/// of the first list and one of its words asks to descend, or it holds one of the
/// second, and no word tells git to leave the files alone.
pub proof fn git_rm_of_protected_files_is_denied(
    words: Seq<Seq<char>>,
    rules: Rules,
    depth: nat,
    dialect: ShellDialect,
    flag: int,
    target: int,
    fragment: int,
)
    requires
        rules.active,
        words.len() > 1,
        !words[0].contains('='),
        program::program_stem(words[0]) == "git"@,
        words[1] == "rm"@,
        forall|i: int| 1 < i < words.len() ==> may_delete(#[trigger] words[i]),
        1 < target < words.len(),
        words[target].len() > 0 ==> words[target][0] != '-',
        target == 2 || leaves_the_next_word(words[target - 1]),
        (0 <= fragment < rules.delete.len() && holds_fragment(
            words[target],
            rules.delete[fragment],
        )) || (0 <= fragment < rules.recursive.len() && holds_fragment(
            words[target],
            rules.recursive[fragment],
        ) && 1 < flag < words.len() && asks_rm_to_descend(words[flag])),
    ensures
        destructive_guard::denied_command(words, rules, depth, dialect) is Some,
{
    lemma_names();
    lemma_first_word_runs(words, dialect);
    let args = words.skip(1);
    let rest = args.skip(1);
    assert(args[0] == words[1]);
    reveal_strlit("--");
    reveal_strlit("clean");
    assert("--"@.len() == 2 && "--"@[0] == '-');
    assert("clean"@.len() == 5);
    assert(program::git_subcommand_at(args, 0) == 0);
    assert(strings::lower_text("clean"@).len() == 5);
    assert(strings::lower_text("rm"@).len() == 2);
    assert(rest =~= words.skip(2));
    assert forall|i: int| 0 <= i < rest.len() implies may_delete(#[trigger] rest[i]) by {
        assert(rest[i] == words[i + 2]);
    }
    lemma_may_delete(rest, 0);
    assert(rest[target - 2] == words[target]);
    if target > 2 {
        assert(rest[target - 3] == words[target - 1]);
    }
    reveal_strlit("git-rm");
    assert("git-rm"@.len() == 6 && "git-rm"@[0] == 'g');
    plain_words_are_targets("git-rm"@, rest, target - 2);
    let targets = deletion::targets("git-rm"@, rest);
    let at = targets.index_of(words[target]);
    let letters = deletion::recursive_letters();
    if 0 <= fragment < rules.delete.len() && holds_fragment(
        words[target],
        rules.delete[fragment],
    ) {
        assert(holds_fragment(targets[at], rules.delete[fragment]));
        assert(some_word_holds_a_fragment(targets, rules.delete));
    } else {
        assert(holds_fragment(targets[at], rules.recursive[fragment]));
        assert(some_word_holds_a_fragment(targets, rules.recursive));
        assert(rest[flag - 2] == words[flag]);
        lemma_rm_flag(rest[flag - 2]);
        assert(deletion::any_sets_flag(rest, letters, "--recursive"@));
    }
    protection_is_by_fragment(
        targets,
        deletion::any_sets_flag(rest, letters, "--recursive"@),
        rules,
    );
    if depth <= MAX_NESTED_SHELL_DEPTH {
        assert(destructive_guard::denied_alias(args, rules, depth, 0) is None);
        assert(destructive_guard::denied_git(args, rules, depth) is Some);
        assert(destructive_guard::denied_program("git"@, args, rules, depth, dialect) is Some);
    }
}

/// A word that does not tell `git rm` to leave the files alone: neither `--cached` nor
/// `--dry-run`, nor a cluster with an `n` in it.
pub open spec fn may_delete(word: Seq<char>) -> bool {
    word != "--cached"@ && word != "--dry-run"@ && (is_cluster(word) ==> !word.skip(1).contains(
        'n',
    ))
}

proof fn lemma_may_delete(args: Seq<Seq<char>>, i: int)
    requires
        0 <= i,
        forall|k: int| 0 <= k < args.len() ==> may_delete(#[trigger] args[k]),
    ensures
        !deletion::git_rm_keeps_files(args, i, false),
    decreases args.len() - i,
{
    if i < args.len() {
        let word = args[i];
        assert(may_delete(word));
        if deletion::keeps_files(word) {
            let k = choose|k: int| 1 <= k < word.len() && #[trigger] word[k] == 'n';
            assert(word.skip(1)[k - 1] == 'n');
            assert(word.skip(1).contains('n'));
            assert(word[1] == 'f' || word[1] == 'n' || word[1] == 'q' || word[1] == 'r');
        }
        lemma_may_delete(args, i + 1);
        lemma_may_delete(args, program::within(args, i + 2));
    }
}

/// `git rm` that only takes files out of the index, or only says what it would do, is
/// let through.
pub proof fn git_rm_that_keeps_files_is_let_through(
    words: Seq<Seq<char>>,
    rules: Rules,
    depth: nat,
    dialect: ShellDialect,
)
    requires
        depth <= MAX_NESTED_SHELL_DEPTH,
        words.len() > 2,
        !words[0].contains('='),
        program::program_stem(words[0]) == "git"@,
        words[1] == "rm"@,
        words[2] == "--cached"@ || words[2] == "--dry-run"@ || words[2] == "-n"@,
        forall|i: int|
            2 < i < words.len() ==> (#[trigger] words[i]).len() == 0 || words[i][0] != '-',
    ensures
        destructive_guard::denied_command(words, rules, depth, dialect) is None,
{
    lemma_names();
    lemma_first_word_runs(words, dialect);
    let args = words.skip(1);
    let rest = args.skip(1);
    assert(args[0] == words[1]);
    reveal_strlit("--");
    reveal_strlit("-");
    reveal_strlit("-n");
    reveal_strlit("--cached");
    reveal_strlit("--dry-run");
    reveal_strlit("--pathspec-from-file");
    reveal_strlit("clean");
    assert("--"@.len() == 2 && "--"@[0] == '-' && "-n"@.len() == 2 && "-n"@[1] == 'n' && "-n"@[0]
        == '-');
    assert("--"@[1] == '-' && "-"@.len() == 1);
    assert("--cached"@.len() == 8 && "--cached"@[0] == '-' && "--dry-run"@.len() == 9
        && "--dry-run"@[0] == '-');
    assert("--pathspec-from-file"@.len() == 20);
    assert(program::git_subcommand_at(args, 0) == 0);
    assert(strings::lower_text("clean"@).len() == 5);
    assert(strings::lower_text("rm"@).len() == 2);
    assert(rest[0] == words[2]);
    assert forall|i: int| 1 <= i < rest.len() implies (#[trigger] rest[i]).len() == 0 || rest[i][0]
        != '-' by {
        assert(rest[i] == words[i + 2]);
    }
    lemma_kept_stays(rest, 1);
    assert(deletion::is_git_rm_cluster("-n"@));
    assert(deletion::keeps_files(rest[0]));
    assert(deletion::git_rm_keeps_files(rest, 0, false));
    assert(destructive_guard::denied_alias(args, rules, depth, 0) is None);
    assert(destructive_guard::denied_git(args, rules, depth) is None);
}

proof fn lemma_kept_stays(args: Seq<Seq<char>>, i: int)
    requires
        1 <= i,
        forall|k: int| 1 <= k < args.len() ==> (#[trigger] args[k]).len() == 0 || args[k][0] != '-',
    ensures
        deletion::git_rm_keeps_files(args, i, true),
    decreases args.len() - i,
{
    if i < args.len() {
        lemma_kept_stays(args, i + 1);
    }
}

/// A shell that is handed a script is denied exactly where the script is, read in the
/// shell's own dialect and one level deeper; a cluster with a `c` anywhere in it hands a
/// POSIX shell its script in the next word.
pub proof fn scripts_are_judged_by_what_they_run(
    words: Seq<Seq<char>>,
    rules: Rules,
    depth: nat,
    dialect: ShellDialect,
)
    requires
        depth <= MAX_NESTED_SHELL_DEPTH,
        words.len() > 2,
        !words[0].contains('='),
    ensures
        ({
            let stem = program::program_stem(words[0]);
            let denial = destructive_guard::denied_command(words, rules, depth, dialect);
            &&& (stem == "bash"@ || stem == "sh"@ || stem == "dash"@ || stem == "zsh"@ || stem
                == "ksh"@) && is_cluster(words[1]) && words[1].skip(1).contains('c') ==> denial
                == destructive_guard::denied_payload(
                words[2],
                rules,
                depth + 1,
                ShellDialect::Posix,
            )
            &&& stem == "cmd"@ && (words[1] == seq!['/', 'c'] || words[1] == seq!['/', 'C'])
                ==> denial == destructive_guard::denied_payload(
                strings::join_texts(words.skip(2), " "@),
                rules,
                depth + 1,
                ShellDialect::Cmd,
            )
            &&& stem == "eval"@ ==> denial == destructive_guard::denied_payload(
                strings::join_texts(words.skip(1), " "@),
                rules,
                depth + 1,
                ShellDialect::Posix,
            )
        }),
{
    lemma_names();
    let stem = program::program_stem(words[0]);
    let args = words.skip(1);
    assert(args[0] == words[1] && args[1] == words[2]);
    assert(args.skip(1) =~= words.skip(2));
    if stem == "bash"@ || stem == "sh"@ || stem == "dash"@ || stem == "zsh"@ || stem == "ksh"@ {
        lemma_first_word_runs(words, dialect);
        if is_cluster(words[1]) && words[1].skip(1).contains('c') {
            reveal_strlit("--");
            assert("--"@[1] == '-');
            let k = words[1].skip(1).index_of('c');
            assert(words[1].skip(1)[k] == 'c');
            assert(words[1][k + 1] == 'c');
            assert(destructive_guard::is_script_flag(stem, args[0]));
            assert(destructive_guard::script_from(stem, args, 0) == Some(words[2]));
        }
    }
    if stem == "cmd"@ {
        lemma_first_word_runs(words, dialect);
        reveal_strlit("/c");
        assert('C' as u32 == 67 && 'c' as u32 == 99);
        assert(strings::lower_char('C') == 'c');
        assert(strings::lower_text("/c"@) =~= seq!['/', 'c']);
        assert(strings::lower_text(seq!['/', 'c']) =~= seq!['/', 'c']);
        assert(strings::lower_text(seq!['/', 'C']) =~= seq!['/', 'c']);
    }
    if stem == "eval"@ {
        lemma_first_word_runs(words, dialect);
    }
}

/// A PowerShell that is handed a script by `-Command`, in any case or cut short, is
/// denied exactly where the script is, unless one of its words says that the script is
/// encoded.
pub proof fn powershell_scripts_are_judged(
    words: Seq<Seq<char>>,
    rules: Rules,
    depth: nat,
    dialect: ShellDialect,
)
    requires
        depth <= MAX_NESTED_SHELL_DEPTH,
        words.len() > 2,
        !words[0].contains('='),
        program::program_stem(words[0]) == "powershell"@ || program::program_stem(words[0])
            == "pwsh"@,
        2 <= words[1].len() <= 8,
        words[1][0] == '-',
        strings::lower_text(words[1].skip(1)) == "command"@.take(words[1].len() - 1),
        forall|i: int| 1 < i < words.len() ==> (#[trigger] words[i]).len() == 0 || words[i][0] != '-',
    ensures
        destructive_guard::denied_command(words, rules, depth, dialect)
            == destructive_guard::denied_payload(
            strings::join_texts(words.skip(2), " "@),
            rules,
            depth + 1,
            ShellDialect::Powershell,
        ),
{
    lemma_names();
    lemma_first_word_runs(words, dialect);
    let stem = program::program_stem(words[0]);
    let args = words.skip(1);
    let name = words[1].skip(1);
    let lower = strings::lower_text(name);
    reveal_strlit("-");
    reveal_strlit("command");
    reveal_strlit("encodedcommand");
    reveal_strlit("e");
    reveal_strlit("ec");
    assert(args[0] == words[1]);
    assert(args.skip(1) =~= words.skip(2));
    assert("-"@ =~= words[1].take(1));
    assert(words[1].subrange(1, words[1].len() as int) =~= name);
    assert(lower.is_prefix_of("command"@));
    assert(lower[0] == 'c');
    assert(destructive_guard::script_from(stem, args, 0) == Some(
        strings::join_texts(words.skip(2), " "@),
    ));
    assert forall|i: int| 0 <= i < args.len() implies !deletion::is_encoded_flag(
        #[trigger] args[i],
    ) by {
        if i == 0 {
            strings::lemma_find_class_bounds(name, CharClass::Only(':'), 0);
            strings::lemma_find_class_bounds(name, CharClass::Only('='), 0);
            assert(lower[0] == strings::lower_char(name[0]));
            assert(name[0] != ':' && name[0] != '=');
            let flag = deletion::flag_name(name);
            assert(flag.len() > 0);
            assert(flag[0] == name[0]);
            assert(strings::lower_text(flag)[0] == lower[0]);
            assert("encodedcommand"@[0] == 'e' && "e"@[0] == 'e' && "ec"@[0] == 'e');
        } else {
            assert(args[i] == words[i + 1]);
            if "-"@.is_prefix_of(args[i]) {
                assert(args[i][0] == "-"@[0]);
            }
        }
    }
}

/// A PowerShell whose script is encoded is denied whatever else its words are: the
/// switch may be cut short, spelled in any case and have its value behind a colon.
pub proof fn encoded_scripts_are_denied(
    words: Seq<Seq<char>>,
    rules: Rules,
    depth: nat,
    dialect: ShellDialect,
    at: int,
    switch: Seq<char>,
    value: Seq<char>,
)
    requires
        words.len() > 1,
        !words[0].contains('='),
        program::program_stem(words[0]) == "powershell"@ || program::program_stem(words[0])
            == "pwsh"@,
        0 < at < words.len(),
        2 <= switch.len() <= 15,
        switch[0] == '-',
        strings::lower_text(switch.skip(1)) == "encodedcommand"@.take(switch.len() - 1)
            || strings::lower_text(switch.skip(1)) == "ec"@,
        words[at] == switch || words[at] == switch + seq![':'] + value,
    ensures
        destructive_guard::denied_command(words, rules, depth, dialect) is Some,
{
    lemma_names();
    lemma_first_word_runs(words, dialect);
    let args = words.skip(1);
    let word = words[at];
    let name = switch.skip(1);
    let lower = strings::lower_text(name);
    reveal_strlit("-");
    reveal_strlit("encodedcommand");
    reveal_strlit("e");
    reveal_strlit("ec");
    assert(args[at - 1] == word);
    assert("-"@ =~= word.take(1));
    let rest = word.skip(1);
    assert(word.subrange(1, word.len() as int) =~= rest);
    let full = "encodedcommand"@;
    assert(full[0] == 'e');
    assert(full[1] == 'n');
    assert(full[2] == 'c');
    assert(full[3] == 'o');
    assert(full[4] == 'd');
    assert(full[5] == 'e');
    assert(full[6] == 'd');
    assert(full[7] == 'c');
    assert(full[8] == 'o');
    assert(full[9] == 'm');
    assert(full[10] == 'm');
    assert(full[11] == 'a');
    assert(full[12] == 'n');
    assert(full[13] == 'd');
    assert(full.len() == 14);
    assert(lower.len() == name.len());
    assert forall|k: int| 0 <= k < 14 implies full[k] != ':' && full[k] != '=' by {}
    assert forall|k: int| 0 <= k < name.len() implies #[trigger] name[k] != ':' && name[k]
        != '=' by {
        assert(lower[k] == strings::lower_char(name[k]));
        if lower == "ec"@ {
            assert(lower[k] == "ec"@[k]);
        } else {
            assert(lower[k] == "encodedcommand"@[k]);
        }
    }
    assert forall|k: int| 0 <= k < name.len() implies #[trigger] rest[k] == name[k] by {}
    strings::lemma_find_class_bounds(rest, CharClass::Only(':'), 0);
    strings::lemma_find_class_bounds(rest, CharClass::Only('='), 0);
    let colon = strings::find_class(rest, CharClass::Only(':'), 0);
    let equals = strings::find_class(rest, CharClass::Only('='), 0);
    if colon < name.len() {
        assert(rest[colon] == name[colon]);
    }
    if equals < name.len() {
        assert(rest[equals] == name[equals]);
    }
    if word == switch {
        assert(rest =~= name);
        assert(deletion::flag_name(rest) =~= name);
    } else {
        assert(rest =~= name + seq![':'] + value);
        assert(rest[name.len() as int] == ':');
        assert(colon == name.len());
        assert(deletion::flag_name(rest) =~= name);
    }
    if lower != "ec"@ {
        assert(lower.is_prefix_of("encodedcommand"@));
    }
    assert(deletion::is_encoded_flag(args[at - 1]));
}

/// `find` with `-delete` is denied wherever one of its words holds a fragment of either
/// list; and a command behind `-exec` or `-execdir`, up to its `;` or `+`, is judged as
/// if it stood alone, one level deeper.
pub proof fn find_is_judged_by_what_it_runs(
    words: Seq<Seq<char>>,
    rules: Rules,
    depth: nat,
    dialect: ShellDialect,
)
    requires
        words.len() > 0,
        !words[0].contains('='),
        program::program_stem(words[0]) == "find"@,
    ensures
        rules.active && words.skip(1).contains("-delete"@) && (some_word_holds_a_fragment(
            words.skip(1),
            rules.recursive,
        ) || some_word_holds_a_fragment(words.skip(1), rules.delete))
            ==> destructive_guard::denied_command(words, rules, depth, dialect) is Some,
        forall|
            before: Seq<Seq<char>>,
            command: Seq<Seq<char>>,
            stop: Seq<char>,
            behind: Seq<Seq<char>>,
        |
            ({
                &&& words.skip(1) == #[trigger] (before + seq!["-exec"@] + command + seq![stop]
                    + behind)
                &&& stop == ";"@ || stop == "+"@
                &&& !before.contains("-exec"@) && !before.contains("-execdir"@)
                &&& !command.contains(";"@) && !command.contains("+"@)
                &&& destructive_guard::denied_command(command, rules, depth + 1, dialect) is Some
            }) ==> destructive_guard::denied_command(words, rules, depth, dialect) is Some,
{
    lemma_names();
    lemma_first_word_runs(words, dialect);
    let args = words.skip(1);
    protection_is_by_fragment(args, true, rules);
    if depth <= MAX_NESTED_SHELL_DEPTH {
        assert forall|
            before: Seq<Seq<char>>,
            command: Seq<Seq<char>>,
            stop: Seq<char>,
            behind: Seq<Seq<char>>,
        |
            ({
                &&& args == #[trigger] (before + seq!["-exec"@] + command + seq![stop] + behind)
                &&& stop == ";"@ || stop == "+"@
                &&& !before.contains("-exec"@) && !before.contains("-execdir"@)
                &&& !command.contains(";"@) && !command.contains("+"@)
                &&& destructive_guard::denied_command(command, rules, depth + 1, dialect) is Some
            }) implies destructive_guard::denied_command(words, rules, depth, dialect) is Some by {
            lemma_exec_found(args, before, command, stop, behind, rules, depth, dialect, 0);
        }
    }
}

proof fn lemma_exec_found(
    args: Seq<Seq<char>>,
    before: Seq<Seq<char>>,
    command: Seq<Seq<char>>,
    stop: Seq<char>,
    behind: Seq<Seq<char>>,
    rules: Rules,
    depth: nat,
    dialect: ShellDialect,
    i: int,
)
    requires
        depth <= MAX_NESTED_SHELL_DEPTH,
        args == before + seq!["-exec"@] + command + seq![stop] + behind,
        stop == ";"@ || stop == "+"@,
        !before.contains("-exec"@) && !before.contains("-execdir"@),
        !command.contains(";"@) && !command.contains("+"@),
        destructive_guard::denied_command(command, rules, depth + 1, dialect) is Some,
        0 <= i <= before.len(),
    ensures
        destructive_guard::denied_exec(args, rules, depth, dialect, i) is Some,
    decreases before.len() - i,
{
    if i < before.len() {
        assert(args[i] == before[i]);
        assert(before.contains(before[i]));
        lemma_exec_found(args, before, command, stop, behind, rules, depth, dialect, i + 1);
    } else {
        assert(args[i] == "-exec"@);
        lemma_exec_ends(args, before, command, stop, behind, i + 1);
        let end = destructive_guard::exec_end(args, i + 1);
        destructive_guard::lemma_exec_end_bounds(args, i + 1);
        assert(args.subrange(i + 1, end) =~= command);
    }
}

proof fn lemma_exec_ends(
    args: Seq<Seq<char>>,
    before: Seq<Seq<char>>,
    command: Seq<Seq<char>>,
    stop: Seq<char>,
    behind: Seq<Seq<char>>,
    i: int,
)
    requires
        args == before + seq!["-exec"@] + command + seq![stop] + behind,
        stop == ";"@ || stop == "+"@,
        !command.contains(";"@) && !command.contains("+"@),
        before.len() < i <= before.len() + 1 + command.len(),
    ensures
        destructive_guard::exec_end(args, i) == before.len() + 1 + command.len(),
    decreases args.len() - i,
{
    let end = before.len() + 1 + command.len();
    if i < end {
        assert(args[i] == command[i - before.len() - 1]);
        assert(command.contains(command[i - before.len() - 1]));
        lemma_exec_ends(args, before, command, stop, behind, i + 1);
    } else {
        assert(args[i] == stop);
    }
}

proof fn lemma_operand(wrapper: Wrapper, word: Seq<char>)
    requires
        word.len() > 0,
        word[0] != '-',
        !word.contains('='),
    ensures
        program::option_kind(wrapper, word) == OptionKind::Operand,
{
    lemma_no_assignment(word);
    reveal_strlit("-");
    reveal_strlit("--");
    reveal_strlit("--append");
    reveal_strlit("--arg-file");
    reveal_strlit("--argv0");
    reveal_strlit("--chdir");
    reveal_strlit("--chroot");
    reveal_strlit("--close-from");
    reveal_strlit("--ctty");
    reveal_strlit("--delimiter");
    reveal_strlit("--error");
    reveal_strlit("--error=");
    reveal_strlit("--foreground");
    reveal_strlit("--fork");
    reveal_strlit("--format");
    reveal_strlit("--format=");
    reveal_strlit("--group");
    reveal_strlit("--help");
    reveal_strlit("--host");
    reveal_strlit("--input");
    reveal_strlit("--input=");
    reveal_strlit("--kill-after");
    reveal_strlit("--kill-after=");
    reveal_strlit("--output");
    reveal_strlit("--output=");
    reveal_strlit("--preserve-status");
    reveal_strlit("--prompt");
    reveal_strlit("--quiet");
    reveal_strlit("--signal");
    reveal_strlit("--signal=");
    reveal_strlit("--unset");
    reveal_strlit("--user");
    reveal_strlit("--verbose");
    reveal_strlit("--version");
    reveal_strlit("--wait");
    reveal_strlit("-C");
    reveal_strlit("-D");
    reveal_strlit("-E");
    reveal_strlit("-I");
    reveal_strlit("-L");
    reveal_strlit("-P");
    reveal_strlit("-R");
    reveal_strlit("-V");
    reveal_strlit("-a");
    reveal_strlit("-c");
    reveal_strlit("-cl");
    reveal_strlit("-d");
    reveal_strlit("-e");
    reveal_strlit("-f");
    reveal_strlit("-g");
    reveal_strlit("-h");
    reveal_strlit("-i");
    reveal_strlit("-k");
    reveal_strlit("-l");
    reveal_strlit("-lc");
    reveal_strlit("-n");
    reveal_strlit("-o");
    reveal_strlit("-p");
    reveal_strlit("-q");
    reveal_strlit("-s");
    reveal_strlit("-u");
    reveal_strlit("-v");
    reveal_strlit("-w");
    assert("-"@.len() > 0 && "-"@[0] == '-');
    assert("--"@.len() > 0 && "--"@[0] == '-');
    assert("--append"@.len() > 0 && "--append"@[0] == '-');
    assert("--arg-file"@.len() > 0 && "--arg-file"@[0] == '-');
    assert("--argv0"@.len() > 0 && "--argv0"@[0] == '-');
    assert("--chdir"@.len() > 0 && "--chdir"@[0] == '-');
    assert("--chroot"@.len() > 0 && "--chroot"@[0] == '-');
    assert("--close-from"@.len() > 0 && "--close-from"@[0] == '-');
    assert("--ctty"@.len() > 0 && "--ctty"@[0] == '-');
    assert("--delimiter"@.len() > 0 && "--delimiter"@[0] == '-');
    assert("--error"@.len() > 0 && "--error"@[0] == '-');
    assert("--error="@.len() > 0 && "--error="@[0] == '-');
    assert("--foreground"@.len() > 0 && "--foreground"@[0] == '-');
    assert("--fork"@.len() > 0 && "--fork"@[0] == '-');
    assert("--format"@.len() > 0 && "--format"@[0] == '-');
    assert("--format="@.len() > 0 && "--format="@[0] == '-');
    assert("--group"@.len() > 0 && "--group"@[0] == '-');
    assert("--help"@.len() > 0 && "--help"@[0] == '-');
    assert("--host"@.len() > 0 && "--host"@[0] == '-');
    assert("--input"@.len() > 0 && "--input"@[0] == '-');
    assert("--input="@.len() > 0 && "--input="@[0] == '-');
    assert("--kill-after"@.len() > 0 && "--kill-after"@[0] == '-');
    assert("--kill-after="@.len() > 0 && "--kill-after="@[0] == '-');
    assert("--output"@.len() > 0 && "--output"@[0] == '-');
    assert("--output="@.len() > 0 && "--output="@[0] == '-');
    assert("--preserve-status"@.len() > 0 && "--preserve-status"@[0] == '-');
    assert("--prompt"@.len() > 0 && "--prompt"@[0] == '-');
    assert("--quiet"@.len() > 0 && "--quiet"@[0] == '-');
    assert("--signal"@.len() > 0 && "--signal"@[0] == '-');
    assert("--signal="@.len() > 0 && "--signal="@[0] == '-');
    assert("--unset"@.len() > 0 && "--unset"@[0] == '-');
    assert("--user"@.len() > 0 && "--user"@[0] == '-');
    assert("--verbose"@.len() > 0 && "--verbose"@[0] == '-');
    assert("--version"@.len() > 0 && "--version"@[0] == '-');
    assert("--wait"@.len() > 0 && "--wait"@[0] == '-');
    assert("-C"@.len() > 0 && "-C"@[0] == '-');
    assert("-D"@.len() > 0 && "-D"@[0] == '-');
    assert("-E"@.len() > 0 && "-E"@[0] == '-');
    assert("-I"@.len() > 0 && "-I"@[0] == '-');
    assert("-L"@.len() > 0 && "-L"@[0] == '-');
    assert("-P"@.len() > 0 && "-P"@[0] == '-');
    assert("-R"@.len() > 0 && "-R"@[0] == '-');
    assert("-V"@.len() > 0 && "-V"@[0] == '-');
    assert("-a"@.len() > 0 && "-a"@[0] == '-');
    assert("-c"@.len() > 0 && "-c"@[0] == '-');
    assert("-cl"@.len() > 0 && "-cl"@[0] == '-');
    assert("-d"@.len() > 0 && "-d"@[0] == '-');
    assert("-e"@.len() > 0 && "-e"@[0] == '-');
    assert("-f"@.len() > 0 && "-f"@[0] == '-');
    assert("-g"@.len() > 0 && "-g"@[0] == '-');
    assert("-h"@.len() > 0 && "-h"@[0] == '-');
    assert("-i"@.len() > 0 && "-i"@[0] == '-');
    assert("-k"@.len() > 0 && "-k"@[0] == '-');
    assert("-l"@.len() > 0 && "-l"@[0] == '-');
    assert("-lc"@.len() > 0 && "-lc"@[0] == '-');
    assert("-n"@.len() > 0 && "-n"@[0] == '-');
    assert("-o"@.len() > 0 && "-o"@[0] == '-');
    assert("-p"@.len() > 0 && "-p"@[0] == '-');
    assert("-q"@.len() > 0 && "-q"@[0] == '-');
    assert("-s"@.len() > 0 && "-s"@[0] == '-');
    assert("-u"@.len() > 0 && "-u"@[0] == '-');
    assert("-v"@.len() > 0 && "-v"@[0] == '-');
    assert("-w"@.len() > 0 && "-w"@[0] == '-');
}

/// Whether a stem names a program that runs the command which follows, as one word in
/// front of it or with options of its own, or a shell keyword that does.
pub open spec fn names_a_wrapper(stem: Seq<char>) -> bool {
    ||| stem == "sudo"@
    ||| stem == "doas"@
    ||| stem == "env"@
    ||| stem == "command"@
    ||| stem == "exec"@
    ||| stem == "time"@
    ||| stem == "setsid"@
    ||| stem == "stdbuf"@
    ||| stem == "xargs"@
    ||| stem == "nohup"@
    ||| stem == "chronic"@
    ||| stem == "nice"@
    ||| stem == "then"@
    ||| stem == "else"@
    ||| stem == "elif"@
    ||| stem == "do"@
    ||| stem == "while"@
    ||| stem == "until"@
    ||| stem == "!"@
}

/// A wrapper or a keyword in front of a command leaves the verdict on it as it is.
pub proof fn wrappers_leave_the_verdict(
    wrapper: Seq<char>,
    words: Seq<Seq<char>>,
    rules: Rules,
    depth: nat,
    dialect: ShellDialect,
)
    requires
        names_a_wrapper(program::program_stem(wrapper)),
        !wrapper.contains('='),
        words.len() > 0,
        words[0].len() > 0,
        words[0][0] != '-',
        !words[0].contains('='),
        runs_itself(program::program_stem(words[0])),
    ensures
        destructive_guard::denied_command(seq![wrapper] + words, rules, depth, dialect)
            == destructive_guard::denied_command(words, rules, depth, dialect),
{
    lemma_wrapped(seq![wrapper], words, rules, depth, dialect);
}

/// Whether words in front of a command are a wrapper with what it takes: an account, a
/// directory, a duration, a priority or a variable.
pub open spec fn is_wrapper_with_value(front: Seq<Seq<char>>) -> bool {
    &&& front.len() > 0
    &&& !front[0].contains('=')
    &&& ({
        let stem = program::program_stem(front[0]);
        ||| front.len() == 1 && names_a_wrapper(stem)
        ||| front.len() == 2 && stem == "timeout"@ && front[1].len() > 0 && front[1][0] != '-'
            && !front[1].contains('=')
        ||| front.len() == 3 && stem == "sudo"@ && (front[1] == "-u"@ || front[1] == "--user"@
            || front[1] == "-g"@)
        ||| front.len() == 3 && stem == "doas"@ && front[1] == "-u"@
        ||| front.len() == 3 && stem == "nice"@ && front[1] == "-n"@
        ||| front.len() == 2 && stem == "env"@ && program::is_assignment(front[1])
            && strings::is_alphanumeric(front[1][0])
        ||| front.len() == 3 && stem == "env"@ && (front[1] == "-u"@ || front[1] == "-C"@)
    })
}

/// A wrapper with the value that it takes leaves the verdict on the command behind it as
/// it is.
pub proof fn wrappers_with_values_leave_the_verdict(
    front: Seq<Seq<char>>,
    words: Seq<Seq<char>>,
    rules: Rules,
    depth: nat,
    dialect: ShellDialect,
)
    requires
        is_wrapper_with_value(front),
        words.len() > 0,
        words[0].len() > 0,
        words[0][0] != '-',
        !words[0].contains('='),
        runs_itself(program::program_stem(words[0])),
    ensures
        destructive_guard::denied_command(front + words, rules, depth, dialect)
            == destructive_guard::denied_command(words, rules, depth, dialect),
{
    lemma_wrapped(front, words, rules, depth, dialect);
}

proof fn lemma_wrapped(
    front: Seq<Seq<char>>,
    words: Seq<Seq<char>>,
    rules: Rules,
    depth: nat,
    dialect: ShellDialect,
)
    requires
        is_wrapper_with_value(front),
        words.len() > 0,
        words[0].len() > 0,
        words[0][0] != '-',
        !words[0].contains('='),
        runs_itself(program::program_stem(words[0])),
    ensures
        destructive_guard::denied_command(front + words, rules, depth, dialect)
            == destructive_guard::denied_command(words, rules, depth, dialect),
{
    lemma_names();
    let all = front + words;
    let at = front.len() as int;
    assert(all[0] == front[0]);
    assert(all[at] == words[0]);
    lemma_no_assignment(front[0]);
    lemma_first_word_runs(words, dialect);
    let stem = program::program_stem(front[0]);
    match program::wrapper_named(stem) {
        Some(wrapper) => {
            lemma_operand(wrapper, words[0]);
            assert(program::past_options(all, wrapper, at) == Some(at));
            lemma_wrapper_options(front, all, wrapper, words[0]);
        },
        None => {},
    }
    if front.len() == 3 && stem == "nice"@ {
        assert(all[1] == front[1]);
    }
    if stem == "nice"@ && front.len() == 1 {
        reveal_strlit("-n");
        assert("-n"@[0] == '-');
    }
    assert(program::past_wrapper(all, dialect, at) == Some(at));
    assert(program::program_from(all, dialect, at) == Some(at));
    assert(program::past_wrapper(all, dialect, 0) == Some(at));
    assert(program::program_index(all, dialect) == Some(at));
    assert(all.skip(at + 1) =~= words.skip(1));
}

/// The options of a wrapper end where the command starts, and no text to split is among
/// them.
proof fn lemma_wrapper_options(
    front: Seq<Seq<char>>,
    all: Seq<Seq<char>>,
    wrapper: Wrapper,
    first: Seq<char>,
)
    requires
        is_wrapper_with_value(front),
        front.is_prefix_of(all),
        all.len() > front.len(),
        all[front.len() as int] == first,
        program::option_kind(wrapper, first) == OptionKind::Operand,
        program::past_options(all, wrapper, front.len() as int) == Some(front.len() as int),
        program::wrapper_named(program::program_stem(front[0])) == Some(wrapper),
        runs_itself(program::program_stem(first)),
        first.len() > 0,
        first[0] != '-',
    ensures
        wrapper != Wrapper::Timeout ==> program::past_options(all, wrapper, 1) == Some(
            front.len() as int,
        ),
        wrapper == Wrapper::Timeout ==> program::past_options(all, wrapper, 1) == Some(
            front.len() - 1,
        ),
        program::env_payload(all, 0) is None,
{
    lemma_names();
    assert(all[0] == front[0]);
    reveal_strlit("-S");
    reveal_strlit("--split-string");
    reveal_strlit("--split-string=");
    reveal_strlit("--");
    reveal_strlit("-u");
    reveal_strlit("-C");
    reveal_strlit("-g");
    reveal_strlit("--user");
    reveal_strlit("--help");
    reveal_strlit("--version");
    assert("-S"@[0] == '-' && "-S"@[1] == 'S' && "-S"@.len() == 2);
    assert("--split-string"@[0] == '-' && "--split-string"@.len() == 14);
    assert("--split-string="@[0] == '-' && "--split-string="@.len() == 15);
    assert("--"@[0] == '-' && "--"@[1] == '-' && "--"@.len() == 2);
    assert("-u"@[0] == '-' && "-u"@[1] == 'u' && "-u"@.len() == 2);
    assert("-C"@[0] == '-' && "-C"@[1] == 'C' && "-C"@.len() == 2);
    assert("-g"@[0] == '-' && "-g"@[1] == 'g' && "-g"@.len() == 2);
    assert("--user"@[0] == '-' && "--user"@[1] == '-' && "--user"@.len() == 6);
    if front.len() > 1 {
        assert(all[1] == front[1]);
        if wrapper == Wrapper::Timeout {
            lemma_operand(wrapper, front[1]);
        } else if wrapper == Wrapper::Env && front.len() == 2 {
            assert(program::option_kind(wrapper, front[1]) == OptionKind::Flag);
        } else {
            lemma_no_assignment_option(front[1]);
            assert(program::option_kind(wrapper, front[1]) == OptionKind::Value);
        }
    }
    if wrapper == Wrapper::Env {
        if "-S"@.is_prefix_of(first) {
            assert(first[0] == "-S"@[0]);
        }
        if "--split-string="@.is_prefix_of(first) {
            assert(first[0] == "--split-string="@[0]);
        }
        assert(program::env_payload(all, front.len() as int) is None);
        assert(program::env_option_payload(all, front.len() as int) is None);
        if front.len() > 1 {
            if "-S"@.is_prefix_of(front[1]) {
                assert(front[1][0] == "-S"@[0] && front[1][1] == "-S"@[1]);
            }
            if "--split-string="@.is_prefix_of(front[1]) {
                assert(front[1][0] == "--split-string="@[0]);
                assert(front[1].len() >= 15);
            }
            assert(program::env_option_payload(all, 1) is None);
        }
    }
}

proof fn lemma_no_assignment_option(word: Seq<char>)
    requires
        word.len() > 0,
        word[0] == '-',
    ensures
        !program::is_assignment(word),
{
    strings::lemma_find_class_bounds(word, CharClass::Only('='), 0);
    let at = strings::find_class(word, CharClass::Only('='), 0);
    if at < word.len() {
        let name = word.subrange(0, at);
        if at > 0 {
            assert(name[0] == '-');
        }
    }
}

/// Without an opening brace a word has no variants but itself.
pub proof fn lemma_no_braces(words: Seq<Seq<char>>)
    requires
        forall|k: int| 0 <= k < words.len() ==> shell_laws::is_plain(#[trigger] words[k]),
    ensures
        braces::command_variants(words) == Some(seq![words]),
    decreases words.len(),
{
    if words.len() == 0 {
        assert(words =~= Seq::empty());
    } else {
        let rest = words.drop_last();
        assert forall|k: int| 0 <= k < rest.len() implies shell_laws::is_plain(
            #[trigger] rest[k],
        ) by {
            assert(rest[k] == words[k]);
        }
        lemma_no_braces(rest);
        let word = words.last();
        lemma_one_variant(word);
        let prefixes = seq![rest];
        let alternatives = seq![word];
        assert(prefixes.drop_last() =~= Seq::empty());
        assert(prefixes.last() == rest);
        assert(rest.push(word) =~= words);
        let last = alternatives.map_values(|alternative: Seq<char>| prefixes.last().push(alternative));
        assert(last =~= seq![words]);
        assert(braces::extended(prefixes.drop_last(), alternatives) =~= Seq::empty());
        assert(braces::extended(prefixes, alternatives) =~= seq![words]);
        assert(prefixes.len() * alternatives.len() == 1);
    }
}

proof fn lemma_one_variant(word: Seq<char>)
    requires
        shell_laws::is_plain(word),
    ensures
        braces::word_variants(word) == Some(seq![word]),
{
    lemma_no_pair(word, 0);
    let pending = seq![word];
    let none = Seq::<Seq<char>>::empty();
    assert(pending.last() == word);
    assert(pending.drop_last() =~= none);
    assert(none.push(word) =~= seq![word]);
    assert(braces::expand_pending(none, seq![word]) == Some(seq![word]));
    assert(braces::expand_pending(pending, none) == braces::expand_pending(none, none.push(word)));
}

proof fn lemma_no_pair(word: Seq<char>, i: int)
    requires
        0 <= i,
        shell_laws::is_plain(word),
    ensures
        braces::first_pair(word, i, Seq::empty()).2 == braces::Alternatives::Plain,
    decreases word.len() - i,
{
    if i < word.len() {
        assert(shell_laws::is_plain_char(word[i]));
        lemma_no_pair(word, i + 1);
    }
}

/// Plain words stay what they are, whatever variables are known.
proof fn lemma_no_variables(words: Seq<Seq<char>>, values: Map<Seq<char>, Seq<char>>)
    requires
        forall|k: int| 0 <= k < words.len() ==> shell_laws::is_plain(#[trigger] words[k]),
    ensures
        destructive_guard::with_variables(words, values) == words,
{
    reveal_strlit("$");
    reveal_strlit("${");
    assert("$"@[0] == '$' && "${"@[0] == '$');
    assert forall|k: int| 0 <= k < words.len() implies destructive_guard::with_variable(
        #[trigger] words[k],
        values,
    ) == words[k] by {
        let word = words[k];
        if "$"@.is_prefix_of(word) {
            assert(word[0] == "$"@[0]);
            assert(shell_laws::is_plain_char(word[0]));
        }
        if "${"@.is_prefix_of(word) {
            assert(word[0] == "${"@[0]);
            assert(shell_laws::is_plain_char(word[0]));
        }
    }
    assert(destructive_guard::with_variables(words, values) =~= words);
}

spec fn all_plain(commands: Seq<Seq<Seq<char>>>) -> bool {
    forall|c: int, k: int|
        0 <= c < commands.len() && 0 <= k < commands[c].len() ==> shell_laws::is_plain(
            #[trigger] commands[c][k],
        )
}

proof fn lemma_plain_commands_denied(
    commands: Seq<Seq<Seq<char>>>,
    rules: Rules,
    depth: nat,
    dialect: ShellDialect,
    values: Map<Seq<char>, Seq<char>>,
    i: int,
)
    requires
        0 <= i <= commands.len(),
        all_plain(commands),
    ensures
        destructive_guard::denied_commands(commands, rules, depth, dialect, values, i) is Some
            <==> (exists|c: int|
            i <= c < commands.len() && destructive_guard::denied_command(
                #[trigger] commands[c],
                rules,
                depth,
                dialect,
            ) is Some),
        commands.len() == 1 && i == 0 ==> destructive_guard::denied_commands(
            commands,
            rules,
            depth,
            dialect,
            values,
            i,
        ) == destructive_guard::denied_command(commands[0], rules, depth, dialect),
    decreases commands.len() - i,
{
    if i < commands.len() {
        let words = commands[i];
        assert forall|k: int| 0 <= k < words.len() implies shell_laws::is_plain(
            #[trigger] words[k],
        ) by {
            assert(shell_laws::is_plain(commands[i][k]));
        }
        lemma_no_variables(words, values);
        lemma_no_braces(words);
        let variants = seq![words];
        assert(variants[0] == words);
        assert(destructive_guard::denied_variants(variants, rules, depth, dialect, 1) is None);
        assert(destructive_guard::denied_variants(variants, rules, depth, dialect, 0)
            == destructive_guard::denied_command(words, rules, depth, dialect));
        let posix = dialect == ShellDialect::Posix;
        let next = if posix && destructive_guard::all_assignments(words) {
            destructive_guard::assigned(values, words, 0)
        } else {
            values
        };
        lemma_plain_commands_denied(commands, rules, depth, dialect, next, i + 1);
    }
}

/// A plain script is denied exactly as the command that its words make up.
pub proof fn plain_scripts_are_judged_by_their_words(
    text: Seq<char>,
    rules: Rules,
    depth: nat,
    dialect: ShellDialect,
)
    requires
        shell_laws::is_plain(text),
        shell_laws::words(text).len() > 0,
        !shell_laws::words(text).contains(shell_parse::redirection()),
    ensures
        destructive_guard::denied_payload(text, rules, depth, dialect)
            == destructive_guard::denied_command(shell_laws::words(text), rules, depth, dialect),
{
    shell_laws::plain_payload_is_its_words(text, dialect);
    shell_laws::lemma_plain_commands(text, dialect);
    let commands = shell_parse::parsed(text, dialect).commands;
    lemma_plain_commands_denied(commands, rules, depth, dialect, Map::empty(), 0);
}

/// A script of plain commands is denied if and only if one of them is: a separator
/// hides nothing that stands before or behind it.
pub proof fn separators_hide_nothing(
    a: Seq<char>,
    separator: Seq<char>,
    b: Seq<char>,
    rules: Rules,
    depth: nat,
    dialect: ShellDialect,
)
    requires
        shell_laws::is_plain(a),
        shell_laws::is_plain(b),
        shell_laws::is_separator(separator),
    ensures
        destructive_guard::denied_payload(a + separator + b, rules, depth, dialect) is Some <==> (
        destructive_guard::denied_payload(a, rules, depth, dialect) is Some
            || destructive_guard::denied_payload(b, rules, depth, dialect) is Some),
{
    shell_laws::joined_payloads_are_parsed_apart(a, separator, b, dialect);
    shell_laws::lemma_plain_commands(a, dialect);
    shell_laws::lemma_plain_commands(b, dialect);
    let first = shell_parse::parsed(a, dialect).commands;
    let second = shell_parse::parsed(b, dialect).commands;
    let both = first + second;
    assert forall|c: int, k: int|
        0 <= c < both.len() && 0 <= k < both[c].len() implies shell_laws::is_plain(
        #[trigger] both[c][k],
    ) by {
        if c < first.len() {
            assert(shell_laws::is_plain(first[c][k]));
        } else {
            assert(shell_laws::is_plain(second[c - first.len()][k]));
        }
    }
    lemma_plain_commands_denied(first, rules, depth, dialect, Map::empty(), 0);
    lemma_plain_commands_denied(second, rules, depth, dialect, Map::empty(), 0);
    lemma_plain_commands_denied(both, rules, depth, dialect, Map::empty(), 0);
    assert forall|c: int| 0 <= c < first.len() implies #[trigger] first[c] == both[c] by {}
    assert forall|c: int| 0 <= c < second.len() implies #[trigger] second[c] == both[first.len()
        + c] by {}
}

/// A script is denied wherever a command substitution in it would be.
pub proof fn substitutions_are_judged(
    a: Seq<char>,
    inner: Seq<char>,
    b: Seq<char>,
    rules: Rules,
    depth: nat,
    dialect: ShellDialect,
)
    requires
        depth <= MAX_NESTED_SHELL_DEPTH,
        shell_laws::is_plain(a),
        shell_laws::is_plain(inner),
        shell_laws::is_plain(b),
        destructive_guard::denied_payload(inner, rules, depth + 1, dialect) is Some,
    ensures
        destructive_guard::denied_payload(
            a + seq!['$', '('] + inner + seq![')'] + b,
            rules,
            depth,
            dialect,
        ) is Some,
{
    let text = a + seq!['$', '('] + inner + seq![')'] + b;
    shell_laws::substitutions_are_handed_out(a, inner, b, dialect);
    assert(shell_parse::parsed(text, dialect).substitutions[0] == inner);
    assert(destructive_guard::denied_substitutions(text, rules, depth, dialect, 0) is Some);
}

/// An alias that is given on git's command line and invoked is denied where what it
/// stands for is: the rest of its value behind `!` as a script, or else as a git command.
pub proof fn aliases_are_judged_by_what_they_run(
    words: Seq<Seq<char>>,
    name: Seq<char>,
    script: Seq<char>,
    rules: Rules,
    depth: nat,
    dialect: ShellDialect,
)
    requires
        words.len() > 3,
        !words[0].contains('='),
        program::program_stem(words[0]) == "git"@,
        words[1] == "-c"@,
        name.len() > 0,
        name[0] != '-',
        !name.contains('='),
        words[3] == name,
        ({
            ||| words[2] == seq!['a', 'l', 'i', 'a', 's', '.'] + name + seq!['=', '!'] + script
                && destructive_guard::denied_payload(
                script,
                rules,
                depth + 1,
                ShellDialect::Posix,
            ) is Some
            ||| words[2] == seq!['a', 'l', 'i', 'a', 's', '.'] + name + seq!['='] + script && (
            script.len() > 0 ==> script[0] != '!') && destructive_guard::denied_payload(
                seq!['g', 'i', 't', ' '] + script,
                rules,
                depth + 1,
                ShellDialect::Posix,
            ) is Some
        }),
    ensures
        destructive_guard::denied_command(words, rules, depth, dialect) is Some,
{
    if depth <= MAX_NESTED_SHELL_DEPTH {
        let args = words.skip(1);
        assert(args[0] == words[1] && args[1] == words[2] && args[2] == words[3]);
        lemma_alias_place(words, args, dialect);
        let front = seq!['a', 'l', 'i', 'a', 's', '.'];
        let piped = seq!['!'] + script;
        if words[2] == front + name + seq!['=', '!'] + script && destructive_guard::denied_payload(
            script,
            rules,
            depth + 1,
            ShellDialect::Posix,
        ) is Some {
            assert(front + name + seq!['=', '!'] + script =~= front + name + seq!['='] + piped);
            lemma_alias_setting(name, piped);
            assert(piped.skip(1) =~= script);
        } else {
            lemma_alias_setting(name, script);
        }
        lemma_alias_denied(args, rules, depth);
        lemma_git_denied(words, args, rules, depth, dialect);
    }
}

/// An alias whose payload is denied is denied where it is invoked.
proof fn lemma_alias_denied(args: Seq<Seq<char>>, rules: Rules, depth: nat)
    requires
        depth <= MAX_NESTED_SHELL_DEPTH,
        args.len() > 2,
        args[0] == "-c"@,
        program::git_subcommand_at(args, 0) == 2,
        destructive_guard::alias_payload(args[1], args[2]) is Some,
        destructive_guard::denied_payload(
            destructive_guard::alias_payload(args[1], args[2])->0,
            rules,
            depth + 1,
            ShellDialect::Posix,
        ) is Some,
    ensures
        destructive_guard::denied_alias(args, rules, depth, 0) is Some,
{
}

/// A git command with an alias that is denied is denied.
proof fn lemma_git_denied(
    words: Seq<Seq<char>>,
    args: Seq<Seq<char>>,
    rules: Rules,
    depth: nat,
    dialect: ShellDialect,
)
    requires
        depth <= MAX_NESTED_SHELL_DEPTH,
        words.len() > 0,
        args == words.skip(1),
        program::program_stem(words[0]) == "git"@,
        program::past_assignments(words, 0) == 0,
        program::program_index(words, dialect) == Some(0int),
        program::git_subcommand_at(args, 0) < args.len(),
        destructive_guard::denied_alias(args, rules, depth, 0) is Some,
    ensures
        destructive_guard::denied_command(words, rules, depth, dialect) is Some,
{
    assert(destructive_guard::denied_git(args, rules, depth) is Some);
    assert(destructive_guard::denied_program("git"@, args, rules, depth, dialect) is Some);
}

/// Behind an option with its value stands the subcommand of git.
proof fn lemma_alias_place(words: Seq<Seq<char>>, args: Seq<Seq<char>>, dialect: ShellDialect)
    requires
        words.len() > 3,
        args == words.skip(1),
        !words[0].contains('='),
        program::program_stem(words[0]) == "git"@,
        args[0] == "-c"@,
        args[2].len() > 0,
        args[2][0] != '-',
    ensures
        program::past_assignments(words, 0) == 0,
        program::program_index(words, dialect) == Some(0int),
        program::env_payload(words, 0) is None,
        program::git_subcommand_at(args, 0) == 2,
{
    lemma_names();
    lemma_first_word_runs(words, dialect);
    reveal_strlit("-c");
    reveal_strlit("--");
    reveal_strlit("-");
    assert("-c"@.len() == 2 && "-c"@[0] == '-' && "-c"@[1] == 'c');
    assert("--"@.len() == 2 && "--"@[0] == '-' && "--"@[1] == '-' && "-"@.len() == 1 && "-"@[0]
        == '-');
    assert(program::git_subcommand_at(args, 2) == 2);
}

/// What a setting makes of the alias that it names.
proof fn lemma_alias_setting(name: Seq<char>, value: Seq<char>)
    requires
        !name.contains('='),
    ensures
        destructive_guard::alias_payload(
            seq!['a', 'l', 'i', 'a', 's', '.'] + name + seq!['='] + value,
            name,
        ) == Some(
            if value.len() > 0 && value[0] == '!' {
                value.skip(1)
            } else {
                seq!['g', 'i', 't', ' '] + value
            },
        ),
{
    let front = seq!['a', 'l', 'i', 'a', 's', '.'];
    let setting = front + name + seq!['='] + value;
    reveal_strlit("!");
    reveal_strlit("git ");
    reveal_strlit("alias.");
    assert("git "@ =~= seq!['g', 'i', 't', ' ']);
    assert("!"@ =~= seq!['!']);
    assert("alias."@ =~= front);
    let key = front + name;
    assert(key.take(6) =~= front);
    assert(key.skip(6) =~= name);
    let at = key.len() as int;
    assert(setting[at] == '=');
    assert forall|i: int| 0 <= i < at implies setting[i] != '=' by {
        assert(setting[i] == key[i]);
        if i >= 6 {
            assert(key[i] == name[i - 6]);
            assert(name.contains(name[i - 6]));
        }
    }
    lemma_first_is_at(setting, CharClass::Only('='), at);
    assert(setting.subrange(0, at) =~= key);
    assert(setting.subrange(at + 1, setting.len() as int) =~= value);
    if value.len() > 0 && value[0] == '!' {
        assert("!"@ =~= value.take(1));
        assert(value.subrange(1, value.len() as int) =~= value.skip(1));
    } else if "!"@.is_prefix_of(value) {
        assert(value[0] == "!"@[0]);
    }
}

/// A text that `env` is asked to split is denied where it would be as a script.
pub proof fn split_texts_are_judged_as_scripts(
    words: Seq<Seq<char>>,
    script: Seq<char>,
    rules: Rules,
    depth: nat,
    dialect: ShellDialect,
)
    requires
        words.len() > 1,
        !words[0].contains('='),
        program::program_stem(words[0]) == "env"@,
        script.len() > 0,
        (words.len() > 2 && (words[1] == "-S"@ || words[1] == "--split-string"@) && words[2]
            == script) || words[1] == "--split-string="@ + script || words[1] == "-S"@ + script,
        destructive_guard::denied_payload(script, rules, depth + 1, ShellDialect::Posix) is Some,
    ensures
        destructive_guard::denied_command(words, rules, depth, dialect) is Some,
{
    lemma_no_assignment(words[0]);
    reveal_strlit("-S");
    reveal_strlit("--split-string");
    reveal_strlit("--split-string=");
    assert("-S"@.len() == 2 && "-S"@[0] == '-' && "-S"@[1] == 'S');
    assert("--split-string"@.len() == 14 && "--split-string"@[1] == '-');
    assert("--split-string="@.len() == 15 && "--split-string="@[1] == '-' && "--split-string="@[14]
        == '=');
    let word = words[1];
    if word == "--split-string="@ + script {
        assert("--split-string="@ =~= word.take(15));
        assert(word.subrange(15, word.len() as int) =~= script);
        assert(word[1] == '-');
        assert(word.len() > 15);
    } else if word == "-S"@ + script && !(words.len() > 2 && (word == "-S"@ || word
        == "--split-string"@)) {
        assert("-S"@ =~= word.take(2));
        assert(word.subrange(2, word.len() as int) =~= script);
        assert(word[1] == 'S');
        if "--split-string="@.is_prefix_of(word) {
            assert(word[1] == "--split-string="@[1]);
        }
    }
    assert(program::env_payload(words, 0) == Some(script));
}

/// A word that is `$` and a name, or `${`, a name and `}`, stands for the value that the
/// variable is known to have; any other word, and a variable that is not known, stands
/// for itself.
pub proof fn variables_stand_for_their_values(
    name: Seq<char>,
    values: Map<Seq<char>, Seq<char>>,
    word: Seq<char>,
)
    requires
        program::is_name(name),
    ensures
        values.contains_key(name) ==> destructive_guard::with_variable(seq!['$'] + name, values)
            == values[name],
        values.contains_key(name) ==> destructive_guard::with_variable(
            seq!['$', '{'] + name + seq!['}'],
            values,
        ) == values[name],
        !values.contains_key(name) ==> destructive_guard::with_variable(seq!['$'] + name, values)
            == seq!['$'] + name,
        word.len() == 0 || word[0] != '$' ==> destructive_guard::with_variable(word, values) == word,
{
    reveal_strlit("$");
    reveal_strlit("${");
    assert("$"@ =~= seq!['$']);
    assert("${"@ =~= seq!['$', '{']);
    let plain = seq!['$'] + name;
    assert("$"@ =~= plain.take(1));
    assert(plain.subrange(1, plain.len() as int) =~= name);
    assert(plain[1] == name[0]);
    if "${"@.is_prefix_of(plain) {
        assert(plain[1] == "${"@[1]);
        assert(name[0] == '{');
    }
    let braced = seq!['$', '{'] + name + seq!['}'];
    assert("${"@ =~= braced.take(2));
    assert(braced.last() == '}');
    assert(braced.subrange(2, braced.len() - 1) =~= name);
    if word.len() == 0 || word[0] != '$' {
        if "$"@.is_prefix_of(word) {
            assert(word[0] == "$"@[0]);
        }
        if "${"@.is_prefix_of(word) {
            assert(word[0] == "${"@[0]);
        }
    }
}

/// An assignment of a literal value makes the variable known to have it, the last one
/// counting; one of anything that the shell would expand makes it unknown, and no other
/// variable changes.
pub proof fn assignments_are_remembered(
    name: Seq<char>,
    value: Seq<char>,
    other: Seq<char>,
    values: Map<Seq<char>, Seq<char>>,
)
    requires
        program::is_name(name),
        other != name,
    ensures
        ({
            let after = destructive_guard::assigned(values, seq![name + seq!['='] + value], 0);
            &&& program::is_assignment(name + seq!['='] + value)
            &&& (forall|i: int|
                0 <= i < value.len() ==> value[i] != '$' && value[i] != '`' && value[i] != '('
                    && value[i] != ')' && value[i] != ';' && value[i] != '&' && value[i] != '|'
                    && value[i] != '<' && value[i] != '>') ==> after.contains_key(name)
                && after[name] == value
            &&& value.contains('$') || value.contains('`') ==> !after.contains_key(name)
            &&& after.contains_key(other) == values.contains_key(other)
            &&& values.contains_key(other) ==> after[other] == values[other]
        }),
{
    let word = name + seq!['='] + value;
    let words = seq![word];
    assert(words[0] == word);
    assert(word[name.len() as int] == '=');
    assert forall|i: int| 0 <= i < name.len() implies word[i] != '=' by {
        assert(word[i] == name[i]);
        assert(name[i] == '_' || strings::is_alphanumeric(name[i]));
    }
    lemma_first_is_at(word, CharClass::Only('='), name.len() as int);
    assert(word.subrange(0, name.len() as int) =~= name);
    assert(word.subrange(name.len() as int + 1, word.len() as int) =~= value);
    let next = if destructive_guard::is_literal(value) {
        values.insert(name, value)
    } else {
        values.remove(name)
    };
    assert(destructive_guard::assigned(next, words, 1) == next);
    assert(destructive_guard::assigned(values, words, 0) == next);
    if value.contains('$') {
        let k = value.index_of('$');
        assert(destructive_guard::is_active_char(value[k]));
    }
    if value.contains('`') {
        let k = value.index_of('`');
        assert(destructive_guard::is_active_char(value[k]));
    }
}

/// A word with two alternatives in braces stands for the words with the one and with the
/// other in their place.
pub proof fn braces_stand_for_their_alternatives(
    x: Seq<char>,
    p: Seq<char>,
    q: Seq<char>,
    y: Seq<char>,
)
    requires
        shell_laws::is_plain(x),
        shell_laws::is_plain(p),
        shell_laws::is_plain(q),
        shell_laws::is_plain(y),
        !p.contains(','),
        !q.contains(','),
    ensures
        braces::word_variants(x + seq!['{'] + p + seq![','] + q + seq!['}'] + y) == Some(
            seq![x + p + y, x + q + y],
        ),
{
    let word = x + seq!['{'] + p + seq![','] + q + seq!['}'] + y;
    let body = p + seq![','] + q;
    let open = x.len() as int;
    let close = open + 1 + body.len();
    assert(word[open] == '{' && word[close] == '}');
    assert(word.subrange(open + 1, close) =~= body);
    lemma_commas(p, q, body, 0);
    let alternatives = seq![p, q];
    assert(braces::comma_alternatives(body) == Some(alternatives));
    assert forall|i: int| 0 <= i < open implies word[i] != '{' && word[i] != '}' by {
        assert(word[i] == x[i]);
        assert(shell_laws::is_plain_char(x[i]));
    }
    assert forall|i: int| open < i < close implies word[i] != '{' && word[i] != '}' by {
        if i < open + 1 + p.len() {
            assert(word[i] == p[i - open - 1]);
            assert(shell_laws::is_plain_char(p[i - open - 1]));
        } else if i > open + 1 + p.len() {
            assert(word[i] == q[i - open - 2 - p.len()]);
            assert(shell_laws::is_plain_char(q[i - open - 2 - p.len()]));
        }
    }
    lemma_pair_inside(word, open, close, open + 1, alternatives);
    lemma_pair_found(word, open, close, 0, alternatives);
    let first = x + p + y;
    let second = x + q + y;
    assert(braces::with_alternative(word, open, close, p) =~= first);
    assert(braces::with_alternative(word, open, close, q) =~= second);
    let next = braces::replaced(word, open, close, alternatives);
    assert(next =~= seq![second, first]);
    let none = Seq::<Seq<char>>::empty();
    let pending = seq![word];
    assert(pending.last() == word);
    assert(pending.drop_last() =~= none);
    assert(none + next =~= seq![second, first]);
    assert(braces::expand_pending(pending, none) == braces::expand_pending(
        seq![second, first],
        none,
    ));
    assert(shell_laws::is_plain(first)) by {
        assert forall|i: int| 0 <= i < first.len() implies shell_laws::is_plain_char(
            #[trigger] first[i],
        ) by {
            if i < x.len() {
                assert(first[i] == x[i]);
            } else if i < x.len() + p.len() {
                assert(first[i] == p[i - x.len()]);
            } else {
                assert(first[i] == y[i - x.len() - p.len()]);
            }
        }
    }
    assert(shell_laws::is_plain(second)) by {
        assert forall|i: int| 0 <= i < second.len() implies shell_laws::is_plain_char(
            #[trigger] second[i],
        ) by {
            if i < x.len() {
                assert(second[i] == x[i]);
            } else if i < x.len() + q.len() {
                assert(second[i] == q[i - x.len()]);
            } else {
                assert(second[i] == y[i - x.len() - q.len()]);
            }
        }
    }
    lemma_no_pair(first, 0);
    lemma_no_pair(second, 0);
    let two = seq![second, first];
    assert(two.last() == first);
    assert(two.drop_last() =~= seq![second]);
    assert(none.push(first) =~= seq![first]);
    assert(braces::expand_pending(two, none) == braces::expand_pending(
        seq![second],
        seq![first],
    ));
    let one = seq![second];
    assert(one.last() == second);
    assert(one.drop_last() =~= none);
    assert(seq![first].push(second) =~= seq![first, second]);
    assert(braces::expand_pending(one, seq![first]) == braces::expand_pending(
        none,
        seq![first, second],
    ));
    assert(braces::expand_pending(none, seq![first, second]) == Some(seq![first, second]));
}

proof fn lemma_commas(p: Seq<char>, q: Seq<char>, body: Seq<char>, i: int)
    requires
        body == p + seq![','] + q,
        shell_laws::is_plain(p),
        shell_laws::is_plain(q),
        !p.contains(','),
        !q.contains(','),
        0 <= i <= body.len(),
    ensures
        i <= p.len() ==> braces::comma_parts(body, i, 0, 0) == seq![p, q],
        i > p.len() ==> braces::comma_parts(body, i, 0, p.len() as int + 1) == seq![q],
    decreases body.len() - i,
{
    if i < body.len() {
        lemma_commas(p, q, body, i + 1);
        if i < p.len() {
            assert(body[i] == p[i]);
            assert(shell_laws::is_plain_char(p[i]));
            assert(p.contains(p[i]));
        } else if i == p.len() {
            assert(body[i] == ',');
            assert(body.subrange(0, i) =~= p);
            assert(seq![p] + seq![q] =~= seq![p, q]);
        } else {
            assert(body[i] == q[i - p.len() - 1]);
            assert(shell_laws::is_plain_char(q[i - p.len() - 1]));
            assert(q.contains(q[i - p.len() - 1]));
        }
    } else {
        assert(body.subrange(p.len() as int + 1, body.len() as int) =~= q);
    }
}

proof fn lemma_pair_inside(
    word: Seq<char>,
    open: int,
    close: int,
    i: int,
    alternatives: Seq<Seq<char>>,
)
    requires
        0 <= open < i <= close < word.len(),
        word[close] == '}',
        forall|k: int| open < k < close ==> word[k] != '{' && word[k] != '}',
        braces::comma_alternatives(word.subrange(open + 1, close)) == Some(alternatives),
    ensures
        braces::first_pair(word, i, seq![open]) == (
            open,
            close,
            braces::Alternatives::Of(alternatives),
        ),
    decreases close - i,
{
    if i < close {
        lemma_pair_inside(word, open, close, i + 1, alternatives);
    } else {
        assert(seq![open].last() == open);
    }
}

proof fn lemma_pair_found(
    word: Seq<char>,
    open: int,
    close: int,
    i: int,
    alternatives: Seq<Seq<char>>,
)
    requires
        0 <= i <= open < close < word.len(),
        word[open] == '{',
        forall|k: int| 0 <= k < open ==> word[k] != '{' && word[k] != '}',
        braces::first_pair(word, open + 1, seq![open]) == (
            open,
            close,
            braces::Alternatives::Of(alternatives),
        ),
    ensures
        braces::first_pair(word, i, Seq::empty()) == (
            open,
            close,
            braces::Alternatives::Of(alternatives),
        ),
    decreases open - i,
{
    if i < open {
        lemma_pair_found(word, open, close, i + 1, alternatives);
    } else {
        assert(Seq::<int>::empty().push(open) =~= seq![open]);
    }
}

/// A command with alternatives in braces is denied where one of the commands that it
/// stands for is.
pub proof fn commands_are_judged_in_every_variant(
    variants: Seq<Seq<Seq<char>>>,
    rules: Rules,
    depth: nat,
    dialect: ShellDialect,
)
    ensures
        destructive_guard::denied_variants(variants, rules, depth, dialect, 0) is Some <==> (exists|
            i: int,
        |
            0 <= i < variants.len() && destructive_guard::denied_command(
                #[trigger] variants[i],
                rules,
                depth,
                dialect,
            ) is Some),
{
    lemma_variants_judged(variants, rules, depth, dialect, 0);
}

proof fn lemma_variants_judged(
    variants: Seq<Seq<Seq<char>>>,
    rules: Rules,
    depth: nat,
    dialect: ShellDialect,
    at: int,
)
    requires
        0 <= at <= variants.len(),
    ensures
        destructive_guard::denied_variants(variants, rules, depth, dialect, at) is Some
            <==> (exists|i: int|
            at <= i < variants.len() && destructive_guard::denied_command(
                #[trigger] variants[i],
                rules,
                depth,
                dialect,
            ) is Some),
    decreases variants.len() - at,
{
    if at < variants.len() {
        lemma_variants_judged(variants, rules, depth, dialect, at + 1);
    }
}

/// The command that a condition of `cmd` guards is the one that is judged: behind `if`,
/// any `not` or `/i`, and a test of one word, of two words with a comparison between
/// them, or of two texts with `==` between them.
pub proof fn conditions_of_cmd_are_looked_behind(
    words: Seq<Seq<char>>,
    front: int,
)
    requires
        words.len() > front,
        words[0] == "if"@,
        ({
            ||| front == 3 && (words[1] == "exist"@ || words[1] == "defined"@)
            ||| front == 4 && words[1] == "not"@ && words[2] == "exist"@
            ||| front == 4 && (words[2] == "equ"@ || words[2] == "=="@) && words[1].len() > 0
                && words[1][0] == '%'
            ||| front == 2 && words[1].len() > 0 && words[1][0] == '%' && strings::contains_text(
                words[1],
                "=="@,
            ) && !program::is_comparison(words[2])
        }),
    ensures
        program::past_cmd_condition(words, 1) == front,
{
    reveal_strlit("/i");
    reveal_strlit("not");
    reveal_strlit("exist");
    reveal_strlit("equ");
    reveal_strlit("==");
    reveal_strlit("defined");
    reveal_strlit("errorlevel");
    reveal_strlit("cmdextversion");
    assert(strings::lower_text("/i"@).len() == 2 && strings::lower_text("/i"@)[0] == '/');
    assert(strings::lower_text("not"@).len() == 3 && strings::lower_text("not"@)[0] == 'n');
    assert(strings::lower_text("exist"@).len() == 5 && strings::lower_text("exist"@)[0] == 'e');
    assert(strings::lower_text("defined"@).len() == 7 && strings::lower_text("defined"@)[0] == 'd');
    assert(strings::lower_text("errorlevel"@)[0] == 'e');
    assert(strings::lower_text("cmdextversion"@)[0] == 'c');
    if words[1].len() > 0 && words[1][0] == '%' {
        assert(strings::lower_text(words[1])[0] == '%');
        assert("exist"@[0] == 'e' && "defined"@[0] == 'd' && "not"@[0] == 'n');
        assert(program::past_if_modifiers(words, 1) == 1);
        assert(!program::is_unary_condition(words[1]));
    } else if words[1] == "not"@ {
        assert("not"@[0] == 'n' && "exist"@[0] == 'e' && "defined"@[0] == 'd');
        assert(program::past_if_modifiers(words, 2) == 2);
        assert(program::past_if_modifiers(words, 1) == 2);
    } else {
        assert(program::past_if_modifiers(words, 1) == 1);
    }
}

/// The body of a loop is judged: what stands behind the `do` of `for` and `select`.
pub proof fn bodies_of_loops_are_judged(
    front: Seq<Seq<char>>,
    words: Seq<Seq<char>>,
    rules: Rules,
    depth: nat,
    dialect: ShellDialect,
)
    requires
        front.len() > 1,
        !front[0].contains('='),
        program::program_stem(front[0]) == "for"@ || program::program_stem(front[0]) == "select"@,
        front.last() == "do"@,
        forall|i: int|
            0 <= i < front.len() - 1 ==> !strings::same_ignoring_case(#[trigger] front[i], "do"@),
        words.len() > 0,
        !words[0].contains('='),
        runs_itself(program::program_stem(words[0])),
    ensures
        destructive_guard::denied_command(front + words, rules, depth, dialect)
            == destructive_guard::denied_command(words, rules, depth, dialect),
{
    lemma_names();
    let all = front + words;
    let at = front.len() as int;
    assert(all[0] == front[0]);
    assert(all[at] == words[0]);
    lemma_no_assignment(front[0]);
    lemma_first_word_runs(words, dialect);
    lemma_do_found(front, all, 0);
    assert(program::past_wrapper(all, dialect, 0) == Some(at));
    assert(program::past_wrapper(all, dialect, at) == Some(at));
    assert(program::program_from(all, dialect, at) == Some(at));
    assert(program::program_index(all, dialect) == Some(at));
    assert(all.skip(at + 1) =~= words.skip(1));
}

proof fn lemma_do_found(front: Seq<Seq<char>>, all: Seq<Seq<char>>, i: int)
    requires
        0 <= i < front.len(),
        front.is_prefix_of(all),
        front.last() == "do"@,
        forall|k: int|
            0 <= k < front.len() - 1 ==> !strings::same_ignoring_case(#[trigger] front[k], "do"@),
    ensures
        program::find_do(all, i) == front.len() - 1,
    decreases front.len() - i,
{
    assert(all[i] == front[i]);
    if i < front.len() - 1 {
        lemma_do_found(front, all, i + 1);
    }
}

/// The path that a PowerShell deletion is given in the same word as its parameter, in
/// whatever case that is spelled, is a target.
pub proof fn attached_paths_are_targets(
    stem: Seq<char>,
    args: Seq<Seq<char>>,
    i: int,
    parameter: Seq<char>,
    value: Seq<char>,
)
    requires
        stem == "remove-item"@ || stem == "ri"@ || stem == "del"@ || stem == "erase"@,
        0 <= i < args.len(),
        args[i] == seq!['-'] + parameter + seq![':'] + value,
        strings::lower_text(parameter) == "path"@ || strings::lower_text(parameter)
            == "literalpath"@,
        value.len() > 0,
        forall|k: int| 0 <= k < i ==> #[trigger] args[k] != "--"@,
        i > 0 ==> leaves_the_next_word(args[i - 1]),
    ensures
        deletion::targets(stem, args).contains(value),
{
    let word = args[i];
    reveal_strlit("-");
    reveal_strlit("--");
    reveal_strlit("path");
    reveal_strlit("literalpath");
    let lower = strings::lower_text(parameter);
    let full = "literalpath"@;
    let short = "path"@;
    assert(short =~= seq!['p', 'a', 't', 'h']);
    assert(full =~= seq!['l', 'i', 't', 'e', 'r', 'a', 'l', 'p', 'a', 't', 'h']);
    assert(lower.len() == parameter.len());
    assert forall|k: int| 0 <= k < parameter.len() implies #[trigger] parameter[k] != ':' && parameter[k]
        != '-' by {
        assert(lower[k] == strings::lower_char(parameter[k]));
    }
    let at = parameter.len() as int + 1;
    assert(word[at] == ':');
    assert forall|k: int| 0 <= k < at implies word[k] != ':' by {
        if k > 0 {
            assert(word[k] == parameter[k - 1]);
        }
    }
    lemma_first_is_at(word, CharClass::Only(':'), at);
    let front = word.subrange(0, at);
    assert(front =~= seq!['-'] + parameter);
    assert("-"@ =~= front.take(1));
    assert(front.subrange(1, front.len() as int) =~= parameter);
    assert(word.subrange(at + 1, word.len() as int) =~= value);
    assert(deletion::attached_path(word) == Some(value));
    assert(word[1] == parameter[0]);
    assert("--"@[1] == '-');
    lemma_attached_is_target(stem, args, 0, false, i, value);
}

proof fn lemma_attached_is_target(
    stem: Seq<char>,
    args: Seq<Seq<char>>,
    i: int,
    skip: bool,
    j: int,
    value: Seq<char>,
)
    requires
        0 <= i <= j < args.len(),
        i == j ==> !skip,
        deletion::has_attached_paths(stem),
        program::is_option(args[j]),
        args[j] != "--"@,
        deletion::attached_path(args[j]) == Some(value),
        forall|k: int| 0 <= k < j ==> #[trigger] args[k] != "--"@,
        i == j || leaves_the_next_word(args[j - 1]),
    ensures
        deletion::targets_from(stem, args, i, false, skip).contains(value),
    decreases args.len() - i,
{
    let rest = deletion::targets_from(stem, args, i, false, skip);
    if i == j {
        assert(rest[0] == value);
    } else if skip {
        lemma_attached_is_target(stem, args, i + 1, false, j, value);
    } else if program::is_option(args[i]) {
        if deletion::attached_path(args[i]) is Some {
            lemma_attached_is_target(stem, args, i + 1, false, j, value);
            let more = deletion::targets_from(stem, args, i + 1, false, false);
            let k = more.index_of(value);
            assert(rest[k + 1] == value);
        } else {
            lemma_attached_is_target(
                stem,
                args,
                i + 1,
                deletion::takes_other_value(args[i]),
                j,
                value,
            );
        }
    } else if deletion::has_slash_options(stem) && args[i].len() > 0 && args[i][0] == '/' {
        lemma_attached_is_target(stem, args, i + 1, false, j, value);
    } else {
        lemma_attached_is_target(stem, args, i + 1, false, j, value);
        let more = deletion::targets_from(stem, args, i + 1, false, false);
        let k = more.index_of(value);
        assert(rest[k + 1] == value);
    }
}

} // verus!
