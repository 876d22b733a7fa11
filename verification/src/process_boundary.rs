//! How a command is started: what its program resolves to, whether it goes through
//! Bash, and what Bash is handed.
//!
//! A script is told by its first line or by an explicit request, before anything is
//! spawned; a spawn that fails tells nothing.
use vstd::prelude::*;

use crate::hex;
use crate::hex::hex_text;
use crate::ordering;
use crate::ordering::sort_texts;
use crate::paths;
use crate::paths::{components_of, join_path, to_slashes, Host};
use crate::strings;
use crate::strings::{
    char_in_class, chars_of, copy_strings, find_class_from, join, push_all, push_text, same_text, split_first,
    CharClass,
};

verus! {

/// Decodes its arguments and runs them. The arguments of a Bash that starts on
/// Windows are expanded before it runs, so they are handed over in hexadecimal.
pub const BASH_ARGV_RELAY: &'static str = "set -euo pipefail
decode_hex() {
    local hex=$1 out= byte
    while [[ -n $hex ]]; do
        printf -v byte '%b' \"\\\\x${hex:0:2}\"
        out+=$byte
        hex=${hex:2}
    done
    REPLY=$out
}
decode_hex \"$1\"
program=$REPLY
shift
args=()
for encoded in \"$@\"; do
    decode_hex \"$encoded\"
    args+=(\"$REPLY\")
done
exec \"$program\" ${args[@]+\"${args[@]}\"}";

/// As `BASH_ARGV_RELAY`, for a script, which need not be executable.
pub const BASH_SCRIPT_RELAY: &'static str = "set -euo pipefail
decode_hex() {
    local hex=$1 out= byte
    while [[ -n $hex ]]; do
        printf -v byte '%b' \"\\\\x${hex:0:2}\"
        out+=$byte
        hex=${hex:2}
    done
    REPLY=$out
}
decode_hex \"$1\"
program=$REPLY
shift
args=()
for encoded in \"$@\"; do
    decode_hex \"$encoded\"
    args+=(\"$REPLY\")
done
exec \"$BASH\" \"$program\" ${args[@]+\"${args[@]}\"}";

pub open spec fn has_separator(text: Seq<char>, host: Host) -> bool {
    strings::find_class(text, host.separators(), 0) < text.len()
}

/// Whether the path has a drive in front.
pub open spec fn has_drive(text: Seq<char>, host: Host) -> bool {
    host == Host::Windows && text.len() >= 2 && (strings::is_upper(text[0]) || strings::is_lower(
        text[0],
    )) && text[1] == ':'
}

/// Whether the path starts at a root.
pub open spec fn is_rooted(text: Seq<char>, host: Host) -> bool {
    ||| text.len() > 0 && strings::in_class(host.separators(), text[0])
    ||| has_drive(text, host) && text.len() >= 3 && strings::in_class(host.separators(), text[2])
}

/// The components laid end to end below a path, without `.`.
pub open spec fn anchored(base: Seq<char>, list: Seq<Seq<char>>, n: nat, host: Host) -> Seq<char>
    decreases n,
{
    if n == 0 || n > list.len() {
        base
    } else {
        let before = anchored(base, list, (n - 1) as nat, host);
        if list[n - 1] == "."@ {
            before
        } else {
            paths::joined(before, list[n - 1], host)
        }
    }
}

/// What a program resolves to: a name is looked up where the host looks, a path
/// lies below the child's working directory.
pub open spec fn resolved(program: Seq<char>, cwd: Seq<char>, host: Host) -> Seq<char> {
    if !has_separator(program, host) || is_rooted(program, host) {
        program
    } else if has_drive(program, host) {
        paths::slashes(program)
    } else {
        let list = paths::components(program, host);
        paths::slashes(anchored(cwd, list, list.len(), host))
    }
}

fn contains_separator(text: &str, host: Host) -> (held: bool)
    ensures
        held == has_separator(text@, host),
{
    let chars = chars_of(text);
    find_class_from(&chars, host.separator_class(), 0) < chars.len()
}

fn starts_with_drive(chars: &[char], host: Host) -> (held: bool)
    ensures
        held == has_drive(chars@, host),
{
    host == Host::Windows && chars.len() >= 2 && (('A' <= chars[0] && chars[0] <= 'Z') || ('a'
        <= chars[0] && chars[0] <= 'z')) && chars[1] == ':'
}

fn starts_at_root(text: &str, host: Host) -> (held: bool)
    ensures
        held == is_rooted(text@, host),
{
    let chars = chars_of(text);
    let class = host.separator_class();
    (chars.len() > 0 && char_in_class(class, chars[0])) || (starts_with_drive(&chars, host)
        && chars.len() >= 3 && char_in_class(class, chars[2]))
}

/// What a program resolves to.
pub fn resolve_program(program: &str, target_cwd: &str, host: Host) -> (path: String)
    ensures
        path@ == resolved(program@, target_cwd@, host),
{
    if !contains_separator(program, host) || starts_at_root(program, host) {
        return program.to_owned();
    }
    let chars = chars_of(program);
    if starts_with_drive(&chars, host) {
        return to_slashes(program);
    }
    let list = components_of(program, host);
    let ghost texts = strings::texts(list@);
    let mut path = target_cwd.to_owned();
    let mut i: usize = 0;
    while i < list.len()
        invariant
            i <= list.len(),
            texts == strings::texts(list@),
            path@ == anchored(target_cwd@, texts, i as nat, host),
        decreases list.len() - i,
    {
        assert(texts[i as int] == list@[i as int]@);
        if !same_text(list[i].as_str(), ".") {
            path = join_path(path.as_str(), list[i].as_str(), host);
        }
        i += 1;
    }
    to_slashes(path.as_str())
}

/// What a script resolves to: a path below the working directory.
pub open spec fn resolved_script(script: Seq<char>, cwd: Seq<char>, host: Host) -> Seq<char> {
    if is_rooted(script, host) {
        script
    } else {
        paths::slashes(paths::joined(cwd, script, host))
    }
}

/// What a script resolves to.
pub fn resolve_script(script: &str, target_cwd: &str, host: Host) -> (path: String)
    ensures
        path@ == resolved_script(script@, target_cwd@, host),
{
    if starts_at_root(script, host) {
        return script.to_owned();
    }
    to_slashes(join_path(target_cwd, script, host).as_str())
}

pub open spec fn is_shebang(head: Seq<u8>) -> bool {
    head.len() >= 2 && head[0] == 0x23 && head[1] == 0x21
}

/// Whether a file that starts with these bytes names its interpreter.
pub fn file_has_shebang(head: &[u8]) -> (held: bool)
    ensures
        held == is_shebang(head@),
{
    head.len() >= 2 && head[0] == 0x23 && head[1] == 0x21
}

/// The digits of an argument's bytes.
pub fn hex_encode_arg(arg: &str) -> (digits: String)
    ensures
        digits@ == hex::hex_digits(vstd::utf8::encode_utf8(arg@)),
{
    hex_text(arg.as_bytes())
}

pub open spec fn relay(argv: Seq<Seq<char>>, script: bool) -> Seq<Seq<char>> {
    seq![
        "-c"@,
        if script {
            BASH_SCRIPT_RELAY@
        } else {
            BASH_ARGV_RELAY@
        },
        "contextmink-process-boundary"@,
    ] + argv.map_values(|arg: Seq<char>| hex::hex_digits(vstd::utf8::encode_utf8(arg)))
}

/// No argument stands on Bash's command line as it is: each is handed over in
/// hexadecimal digits, which spell its bytes.
pub proof fn relay_spells_every_argument(argv: Seq<Seq<char>>, script: bool)
    ensures
        relay(argv, script).len() == argv.len() + 3,
        forall|i: int|
            0 <= i < argv.len() ==> hex::hex_bytes(#[trigger] relay(argv, script)[i + 3]) == Some(
                vstd::utf8::encode_utf8(argv[i]),
            ),
        forall|i: int, k: int|
            0 <= i < argv.len() && 0 <= k < relay(argv, script)[i + 3].len() ==> hex::hex_value(
                #[trigger] relay(argv, script)[i + 3][k],
            ) is Some,
{
    assert forall|i: int| 0 <= i < argv.len() implies hex::hex_bytes(
        #[trigger] relay(argv, script)[i + 3],
    ) == Some(vstd::utf8::encode_utf8(argv[i])) by {
        hex::hex_reads_back(vstd::utf8::encode_utf8(argv[i]));
    }
    assert forall|i: int, k: int|
        0 <= i < argv.len() && 0 <= k < relay(argv, script)[i + 3].len() implies hex::hex_value(
        #[trigger] relay(argv, script)[i + 3][k],
    ) is Some by {
        hex::hex_reads_back(vstd::utf8::encode_utf8(argv[i]));
    }
}

/// The arguments with which Bash relays an argv.
pub fn bash_argv_relay(argv: &[String], script: bool) -> (args: Vec<String>)
    ensures
        strings::texts(args@) == relay(strings::texts(argv@), script),
{
    let ghost texts = strings::texts(argv@);
    let ghost wanted = relay(texts, script);
    let mut args: Vec<String> = Vec::new();
    args.push("-c".to_owned());
    args.push(
        if script {
            BASH_SCRIPT_RELAY
        } else {
            BASH_ARGV_RELAY
        }.to_owned(),
    );
    args.push("contextmink-process-boundary".to_owned());
    let mut i: usize = 0;
    assert(strings::texts(args@) =~= wanted.take(3));
    while i < argv.len()
        invariant
            i <= argv.len(),
            texts == strings::texts(argv@),
            wanted == relay(texts, script),
            strings::texts(args@) == wanted.take(i + 3),
        decreases argv.len() - i,
    {
        assert(texts[i as int] == argv@[i as int]@);
        push_text(&mut args, hex_encode_arg(argv[i].as_str()));
        assert(wanted.take(i + 4) =~= wanted.take(i + 3).push(wanted[i + 3]));
        i += 1;
    }
    assert(wanted.take(i + 3) =~= wanted);
    args
}

/// What stands in front of the first semicolon of an argument that holds a slash.
pub open spec fn exclusion(arg: Seq<char>) -> Option<Seq<char>> {
    if strings::find_class(arg, CharClass::Separator, 0) >= arg.len() {
        None
    } else {
        let prefix = match strings::split_at_first(arg, CharClass::Only(';')) {
            Some((prefix, _)) => prefix,
            None => arg,
        };
        if prefix.len() == 0 || prefix == "*"@ {
            None
        } else {
            Some(prefix)
        }
    }
}

pub open spec fn exclusions(argv: Seq<Seq<char>>, n: nat) -> Seq<Seq<char>>
    decreases n,
{
    if n == 0 || n > argv.len() {
        Seq::empty()
    } else {
        let before = exclusions(argv, (n - 1) as nat);
        match exclusion(argv[n - 1]) {
            Some(prefix) => before.push(prefix),
            None => before,
        }
    }
}

/// What an MSYS shell is told not to rewrite, each once and in order.
pub open spec fn excluded(argv: Seq<Seq<char>>) -> Seq<char> {
    let found = exclusions(argv, argv.len());
    strings::join_texts(ordering::sorted_set(found, found.len()), ";"@)
}

/// What an MSYS shell is told not to rewrite.
pub fn msys2_arg_conversion_exclusions(argv: &[String]) -> (list: String)
    ensures
        list@ == excluded(strings::texts(argv@)),
{
    let ghost texts = strings::texts(argv@);
    let mut found: Vec<String> = Vec::new();
    let mut i: usize = 0;
    assert(strings::texts(found@) =~= Seq::empty());
    while i < argv.len()
        invariant
            i <= argv.len(),
            texts == strings::texts(argv@),
            strings::texts(found@) == exclusions(texts, i as nat),
        decreases argv.len() - i,
    {
        assert(texts[i as int] == argv@[i as int]@);
        let arg = argv[i].as_str();
        let chars = chars_of(arg);
        if find_class_from(&chars, CharClass::Separator, 0) < chars.len() {
            let prefix = match split_first(arg, CharClass::Only(';')) {
                Some((prefix, _)) => prefix,
                None => arg.to_owned(),
            };
            if !prefix.as_str().is_empty() && !same_text(prefix.as_str(), "*") {
                push_text(&mut found, prefix);
            }
        }
        i += 1;
    }
    assert(strings::texts(found@).len() == found@.len());
    let sorted = sort_texts(&found);
    join(&sorted, ";")
}

/// What to do with the variable that tells an MSYS shell what not to rewrite.
#[derive(Debug)]
pub enum ArgConversion {
    Keep,
    Remove,
    Exclude { list: String },
}

/// A command as it is spawned.
#[derive(Debug)]
pub struct PreparedCommand {
    pub program: String,
    pub args: Vec<String>,
    pub conversion: ArgConversion,
    /// The command as it is told: without the relay.
    pub effective_argv: Vec<String>,
    pub execution_mode: &'static str,
}

/// The model of what to do with the variable.
pub enum Conversion {
    Keep,
    Remove,
    Exclude(Seq<char>),
}

/// The model of a command as it is spawned.
#[verifier::ext_equal]
pub struct Prepared {
    pub program: Seq<char>,
    pub args: Seq<Seq<char>>,
    pub conversion: Conversion,
    pub effective: Seq<Seq<char>>,
    pub mode: Seq<char>,
}

impl View for PreparedCommand {
    type V = Prepared;

    open spec fn view(&self) -> Prepared {
        Prepared {
            program: self.program@,
            args: strings::texts(self.args@),
            conversion: match self.conversion {
                ArgConversion::Keep => Conversion::Keep,
                ArgConversion::Remove => Conversion::Remove,
                ArgConversion::Exclude { list } => Conversion::Exclude(list@),
            },
            effective: strings::texts(self.effective_argv@),
            mode: self.execution_mode@,
        }
    }
}

/// How a command is asked to be started.
#[derive(Debug, Clone, Copy)]
pub struct StartRequest {
    pub explicit_script: bool,
    pub login: bool,
    pub host: Host,
}

/// What starts a command: `head` is how its file begins, where it is a file, and
/// `bash` where Bash is, or why there is none.
pub open spec fn prepared(
    path: Seq<char>,
    args: Seq<Seq<char>>,
    head: Option<Seq<u8>>,
    request: StartRequest,
    bash: Result<Seq<char>, Seq<char>>,
) -> Result<Prepared, Seq<char>> {
    let shebang = head is Some && is_shebang(head->Some_0);
    let argv = seq![path] + args;
    if request.explicit_script && head is None {
        Err("script not found: "@ + path)
    } else if request.explicit_script || request.login || (request.host == Host::Windows
        && shebang) {
        match bash {
            Err(message) => Err(message),
            Ok(bash) => Ok(
                Prepared {
                    program: bash,
                    args: (if request.login {
                        seq!["--login"@]
                    } else {
                        Seq::empty()
                    }) + relay(argv, request.explicit_script),
                    conversion: if request.host != Host::Windows {
                        Conversion::Keep
                    } else if excluded(argv).len() == 0 {
                        Conversion::Remove
                    } else {
                        Conversion::Exclude(excluded(argv))
                    },
                    effective: seq![bash] + argv,
                    mode: if request.explicit_script {
                        "bash_script"@
                    } else if request.login {
                        "bash_login"@
                    } else {
                        "shebang_script"@
                    },
                },
            ),
        }
    } else {
        Ok(
            Prepared {
                program: path,
                args,
                conversion: Conversion::Keep,
                effective: argv,
                mode: if shebang {
                    "native_shebang"@
                } else {
                    "native"@
                },
            },
        )
    }
}

pub open spec fn bytes_option(bytes: Option<&[u8]>) -> Option<Seq<u8>> {
    match bytes {
        Some(bytes) => Some(bytes@),
        None => None,
    }
}

pub open spec fn text_result(result: Result<String, String>) -> Result<Seq<char>, Seq<char>> {
    match result {
        Ok(text) => Ok(text@),
        Err(text) => Err(text@),
    }
}

/// What starts a command whose program has been resolved.
pub fn prepare_command(
    path: &str,
    args: &[String],
    head: Option<&[u8]>,
    request: StartRequest,
    bash: &Result<String, String>,
) -> (command: Result<PreparedCommand, String>)
    ensures
        match command {
            Ok(command) => prepared(
                path@,
                strings::texts(args@),
                bytes_option(head),
                request,
                text_result(*bash),
            ) == Ok::<Prepared, Seq<char>>(command@),
            Err(message) => prepared(
                path@,
                strings::texts(args@),
                bytes_option(head),
                request,
                text_result(*bash),
            ) == Err::<Prepared, Seq<char>>(message@),
        },
{
    if request.explicit_script && head.is_none() {
        return Err("script not found: ".to_owned().concat(path));
    }
    let shebang = match head {
        Some(head) => file_has_shebang(head),
        None => false,
    };
    let mut argv: Vec<String> = Vec::new();
    argv.push(path.to_owned());
    assert(strings::texts(argv@) =~= seq![path@]);
    push_all(&mut argv, args);
    let ghost logical = strings::texts(argv@);
    if request.explicit_script || request.login || (request.host == Host::Windows && shebang) {
        let bash = match bash {
            Ok(bash) => bash.clone(),
            Err(message) => {
                return Err(message.clone());
            },
        };
        let conversion = if request.host == Host::Windows {
            let list = msys2_arg_conversion_exclusions(&argv);
            if list.as_str().is_empty() {
                assert(list@ =~= Seq::empty());
                ArgConversion::Remove
            } else {
                ArgConversion::Exclude { list }
            }
        } else {
            ArgConversion::Keep
        };
        let mut full: Vec<String> = Vec::new();
        assert(strings::texts(full@) =~= Seq::empty());
        if request.login {
            push_text(&mut full, "--login".to_owned());
        }
        let relayed = bash_argv_relay(&argv, request.explicit_script);
        push_all(&mut full, &relayed);
        let mut effective_argv: Vec<String> = Vec::new();
        effective_argv.push(bash.clone());
        assert(strings::texts(effective_argv@) =~= seq![bash@]);
        push_all(&mut effective_argv, &argv);
        let execution_mode = if request.explicit_script {
            "bash_script"
        } else if request.login {
            "bash_login"
        } else {
            "shebang_script"
        };
        let command = PreparedCommand {
            program: bash,
            args: full,
            conversion,
            effective_argv,
            execution_mode,
        };
        assert(command@.args =~= (if request.login {
            seq!["--login"@]
        } else {
            Seq::empty()
        }) + relay(logical, request.explicit_script));
        return Ok(command);
    }
    let command = PreparedCommand {
        program: path.to_owned(),
        args: copy_strings(args),
        conversion: ArgConversion::Keep,
        effective_argv: argv,
        execution_mode: if shebang {
            "native_shebang"
        } else {
            "native"
        },
    };
    Ok(command)
}

/// The first of the directories, from the innermost on, that holds something.
pub open spec fn first_held(held: Seq<bool>, at: int) -> Option<int>
    decreases held.len() - at,
{
    if at < 0 || at >= held.len() {
        None
    } else if held[at] {
        Some(at)
    } else {
        first_held(held, at + 1)
    }
}

/// The innermost of a path and its ancestors that holds an entry.
pub open spec fn nearest(ancestors: Seq<Seq<char>>, held: Seq<bool>) -> Option<Seq<char>> {
    match first_held(held, 0) {
        Some(at) => if at < ancestors.len() {
            Some(ancestors[at])
        } else {
            None
        },
        None => None,
    }
}

/// The innermost of a directory and its ancestors that holds an entry; `held` says
/// of each whether it does.
pub fn find_ancestor_entry(ancestors: &[String], held: &[bool]) -> (directory: Option<String>)
    ensures
        strings::text_option(directory) == nearest(strings::texts(ancestors@), held@),
{
    let ghost texts = strings::texts(ancestors@);
    let mut i: usize = 0;
    while i < held.len()
        invariant
            i <= held.len(),
            texts == strings::texts(ancestors@),
            first_held(held@, i as int) == first_held(held@, 0),
        decreases held.len() - i,
    {
        if held[i] {
            if i < ancestors.len() {
                assert(texts[i as int] == ancestors@[i as int]@);
                return Some(ancestors[i].clone());
            }
            return None;
        }
        i += 1;
    }
    None
}

/// The file of that name in the innermost of a directory and its ancestors that
/// holds it; `held` says of each whether it does.
pub fn find_ancestor_file(ancestors: &[String], held: &[bool], name: &str, host: Host) -> (path: Option<
    String,
>)
    ensures
        strings::text_option(path) == (match nearest(strings::texts(ancestors@), held@) {
            Some(directory) => Some(paths::joined(directory, name@, host)),
            None => None,
        }),
{
    match find_ancestor_entry(ancestors, held) {
        Some(directory) => Some(join_path(directory.as_str(), name, host)),
        None => None,
    }
}

/// A directory and its ancestors, from the innermost on, and which of them hold a
/// policy file and a repository.
#[derive(Debug)]
pub struct Lineage {
    pub directories: Vec<String>,
    pub policy: Vec<bool>,
    pub repository: Vec<bool>,
}

impl Lineage {
    /// The project that the directory lies in: a policy file says so before a
    /// repository does.
    pub open spec fn project(&self) -> Option<Seq<char>> {
        match nearest(strings::texts(self.directories@), self.policy@) {
            Some(root) => Some(root),
            None => nearest(strings::texts(self.directories@), self.repository@),
        }
    }

    fn find_project(&self) -> (root: Option<String>)
        ensures
            strings::text_option(root) == self.project(),
    {
        match find_ancestor_entry(&self.directories, &self.policy) {
            Some(root) => Some(root),
            None => find_ancestor_entry(&self.directories, &self.repository),
        }
    }
}

/// The project that a bridge serves: the one that is named, or the caller's, or
/// the one that it is installed in, or else the caller's directory.
pub fn resolve_project_root(named: Option<&str>, cwd: &str, caller: &Lineage, install: &Lineage) -> (root:
    String)
    ensures
        root@ == (match named {
            Some(named) => named@,
            None => match caller.project() {
                Some(root) => root,
                None => match install.project() {
                    Some(root) => root,
                    None => cwd@,
                },
            },
        }),
{
    if let Some(named) = named {
        return named.to_owned();
    }
    if let Some(root) = caller.find_project() {
        return root;
    }
    if let Some(root) = install.find_project() {
        return root;
    }
    cwd.to_owned()
}

pub open spec fn bash_candidates(program_files: Option<Seq<char>>) -> Seq<Seq<char>> {
    (match program_files {
        Some(directory) => seq![directory + "\\Git\\bin\\bash.exe"@],
        None => Seq::empty(),
    }) + seq![
        "C:\\Program Files\\Git\\bin\\bash.exe"@,
        "C:\\Program Files (x86)\\Git\\bin\\bash.exe"@,
    ]
}

/// Where Git for Windows keeps Bash. No other Bash stands in for it.
pub fn windows_bash_candidates(program_files: Option<&str>) -> (candidates: Vec<String>)
    ensures
        strings::texts(candidates@) == bash_candidates(strings::opt_text(program_files)),
{
    let mut candidates: Vec<String> = Vec::new();
    assert(strings::texts(candidates@) =~= Seq::empty());
    if let Some(directory) = program_files {
        push_text(&mut candidates, directory.to_owned().concat("\\Git\\bin\\bash.exe"));
    }
    push_text(&mut candidates, "C:\\Program Files\\Git\\bin\\bash.exe".to_owned());
    push_text(&mut candidates, "C:\\Program Files (x86)\\Git\\bin\\bash.exe".to_owned());
    assert(strings::texts(candidates@) =~= bash_candidates(strings::opt_text(program_files)));
    candidates
}

/// Where Bash is: `named` is the path that the environment names and whether a
/// file is there; `files` says of each candidate whether a file is there.
pub open spec fn bash_at(
    named: Option<(Seq<char>, bool)>,
    candidates: Seq<Seq<char>>,
    files: Seq<bool>,
    host: Host,
) -> Result<Seq<char>, Seq<char>> {
    match named {
        Some((path, is_file)) => if is_file || host == Host::Posix {
            Ok(path)
        } else {
            Err("CONTEXTMINK_BASH does not name a file: "@ + path)
        },
        None => if host == Host::Posix {
            Ok("bash"@)
        } else {
            match nearest(candidates, files) {
                Some(path) => Ok(path),
                None => Err(
                    "unable to locate Git Bash (set CONTEXTMINK_BASH to an explicit Bash executable)"@,
                ),
            }
        },
    }
}

/// Where Bash is, or why there is none.
pub fn locate_bash(
    named: Option<(&str, bool)>,
    candidates: &[String],
    files: &[bool],
    host: Host,
) -> (bash: Result<String, String>)
    ensures
        text_result(bash) == bash_at(
            match named {
                Some((path, is_file)) => Some((path@, is_file)),
                None => None,
            },
            strings::texts(candidates@),
            files@,
            host,
        ),
{
    if let Some((path, is_file)) = named {
        if is_file || host == Host::Posix {
            return Ok(path.to_owned());
        }
        return Err("CONTEXTMINK_BASH does not name a file: ".to_owned().concat(path));
    }
    if host == Host::Posix {
        return Ok("bash".to_owned());
    }
    match find_ancestor_entry(candidates, files) {
        Some(path) => Ok(path),
        None => Err(
            "unable to locate Git Bash (set CONTEXTMINK_BASH to an explicit Bash executable)".to_owned(),
        ),
    }
}

/// A program without a separator is found by name and one that starts at the root is
/// taken as it is; any other is looked for below the working directory.
pub proof fn programs_are_resolved_below_the_directory(cwd: Seq<char>, name: Seq<char>)
    requires
        paths::is_plain_name(name, Host::Posix),
        cwd.len() > 0,
        cwd.last() != '/',
        !cwd.contains('\\'),
        !name.contains('\\'),
    ensures
        resolved(name, cwd, Host::Posix) == name,
        resolved(seq!['/'] + name, cwd, Host::Posix) == seq!['/'] + name,
        resolved(seq!['.', '/'] + name, cwd, Host::Posix) == cwd + seq!['/'] + name,
{
    let host = Host::Posix;
    let class = host.separators();
    strings::lemma_find_class_bounds(name, class, 0);
    let here = seq!['.'] + seq!['/'] + name;
    assert(here =~= seq!['.', '/'] + name);
    strings::lemma_find_class_bounds(here, class, 0);
    assert(here[1] == '/');
    assert(here[0] == '.');
    paths::names_are_last_components(seq!['.'], name, host);
    let list = paths::components(here, host);
    reveal_strlit(".");
    reveal_strlit("/");
    assert("."@ =~= seq!['.']);
    assert("/"@ =~= seq!['/']);
    strings::lemma_single_part(seq!['.'], class);
    let dot = seq![seq!['.']];
    assert(dot[0] == "."@);
    assert(paths::kept_parts(dot, 0) =~= Seq::empty());
    assert(paths::kept_parts(dot, 1) =~= dot);
    assert(paths::components(seq!['.'], host) =~= dot);
    assert(list =~= seq![seq!['.'], name]);
    assert(list[0] == "."@ && list[1] == name);
    assert(anchored(cwd, list, 0, host) == cwd);
    assert(anchored(cwd, list, 1, host) == cwd);
    assert(anchored(cwd, list, 2, host) == paths::joined(cwd, name, host));
    let whole = cwd + seq!['/'] + name;
    assert(paths::joined(cwd, name, host) =~= whole);
    assert forall|i: int| 0 <= i < whole.len() implies whole[i] != '\\' by {
        if i < cwd.len() {
            assert(cwd.contains(cwd[i]));
        } else if i > cwd.len() {
            assert(name.contains(name[i - cwd.len() - 1]));
        }
    }
    assert(paths::slashes(whole) =~= whole);
    let rooted = seq!['/'] + name;
    assert(rooted[0] == '/');
}

/// The nearest directory that is held is the first one that is: none before it is.
pub proof fn the_nearest_comes_first(held: Seq<bool>, ancestors: Seq<Seq<char>>)
    requires
        held.len() == ancestors.len(),
    ensures
        nearest(ancestors, held) is None <==> (forall|i: int| 0 <= i < held.len() ==> !held[i]),
        nearest(ancestors, held) matches Some(found) ==> (exists|at: int|
            0 <= at < held.len() && held[at] && #[trigger] ancestors[at] == found && (forall|i: int|
                0 <= i < at ==> !held[i])),
{
    lemma_first_held(held, 0);
    match first_held(held, 0) {
        Some(at) => {
            assert(ancestors[at] == nearest(ancestors, held)->0);
        },
        None => {},
    }
}

proof fn lemma_first_held(held: Seq<bool>, at: int)
    requires
        0 <= at <= held.len(),
    ensures
        match first_held(held, at) {
            Some(found) => at <= found < held.len() && held[found] && (forall|i: int|
                at <= i < found ==> !held[i]),
            None => forall|i: int| at <= i < held.len() ==> !held[i],
        },
    decreases held.len() - at,
{
    if at < held.len() && !held[at] {
        lemma_first_held(held, at + 1);
    }
}

/// A configured directory wins over a repository.
pub proof fn policy_wins_over_repository(ancestors: Lineage)
    requires
        nearest(strings::texts(ancestors.directories@), ancestors.policy@) is Some,
    ensures
        ancestors.project() == nearest(strings::texts(ancestors.directories@), ancestors.policy@),
{
}

/// Of a list of arguments only those with a slash or a backslash are kept from being
/// rewritten, each by what stands before its first semicolon.
pub proof fn arguments_with_separators_are_kept(prefix: Seq<char>, rest: Seq<char>, arg: Seq<char>)
    requires
        prefix.len() > 0,
        !prefix.contains(';'),
        prefix.contains('/') || prefix.contains('\\'),
        !arg.contains('/'),
        !arg.contains('\\'),
    ensures
        exclusion(prefix) == Some(prefix),
        exclusion(prefix + seq![';'] + rest) == Some(prefix),
        exclusion(arg) is None,
{
    reveal_strlit("*");
    assert("*"@ =~= seq!['*']);
    let full = prefix + seq![';'] + rest;
    let k = if prefix.contains('/') {
        prefix.index_of('/')
    } else {
        prefix.index_of('\\')
    };
    assert(strings::in_class(CharClass::Separator, prefix[k]));
    assert(full[k] == prefix[k]);
    strings::lemma_find_class_bounds(prefix, CharClass::Separator, 0);
    strings::lemma_find_class_bounds(full, CharClass::Separator, 0);
    strings::lemma_find_class_bounds(arg, CharClass::Separator, 0);
    let found = strings::find_class(arg, CharClass::Separator, 0);
    if found < arg.len() {
        assert(arg.contains(arg[found]));
    }
    strings::lemma_find_class_bounds(prefix, CharClass::Only(';'), 0);
    let none = strings::find_class(prefix, CharClass::Only(';'), 0);
    if none < prefix.len() {
        assert(prefix.contains(prefix[none]));
    }
    strings::lemma_find_class_bounds(full, CharClass::Only(';'), 0);
    let at = strings::find_class(full, CharClass::Only(';'), 0);
    assert(full[prefix.len() as int] == ';');
    if at < prefix.len() {
        assert(full[at] == prefix[at]);
        assert(prefix.contains(prefix[at]));
    }
    assert(full.subrange(0, at) =~= prefix);
    if prefix == "*"@ {
        assert(prefix[k] == '*');
    }
}

/// Every kept prefix is listed once, and only such ones are.
pub proof fn kept_prefixes_come_from_the_arguments(argv: Seq<Seq<char>>, n: nat, prefix: Seq<char>)
    requires
        n <= argv.len(),
    ensures
        exclusions(argv, n).contains(prefix) <==> (exists|i: int|
            0 <= i < n && exclusion(#[trigger] argv[i]) == Some(prefix)),
    decreases n,
{
    if n > 0 {
        kept_prefixes_come_from_the_arguments(argv, (n - 1) as nat, prefix);
        let before = exclusions(argv, (n - 1) as nat);
        let all = exclusions(argv, n);
        match exclusion(argv[n - 1]) {
            Some(found) => {
                assert(all =~= before.push(found));
                if before.contains(prefix) {
                    let k = before.index_of(prefix);
                    assert(all[k] == prefix);
                }
                if all.contains(prefix) {
                    let k = all.index_of(prefix);
                    if k < before.len() {
                        assert(before[k] == prefix);
                    }
                }
                if found == prefix {
                    assert(all[before.len() as int] == prefix);
                }
            },
            None => {},
        }
    }
}

} // verus!
