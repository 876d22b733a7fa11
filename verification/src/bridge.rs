//! The ways in which the bridge takes an argv, and what it looks for in one.
use vstd::prelude::*;

use crate::base64;
use crate::base64::decode_letters;
use crate::capture;
use crate::hex;
use crate::hex::hex_text;
use crate::lines;
use crate::lines::lines_of;
use crate::numbers;
use crate::numbers::parse_usize;
use crate::strings;
use crate::strings::{
    chars_of, copy_strings, cut_string, ends_with, push_text, same_text, split_first, split_text,
    string_of, strip_prefix, utf8_text, CharClass,
};

verus! {

/// How many lines a command may dump without a warning.
pub const DUMP_WARN_LINES: usize = 400;

/// What to say of a character that does not belong into a token: its first byte.
pub open spec fn bad_letter(c: char) -> Seq<char> {
    "invalid base64 byte 0x"@ + hex::hex_digits(vstd::utf8::encode_utf8(seq![c]).take(1))
}

/// The bytes of a Base64 token; padding, white space and the URL-safe letters are
/// accepted.
pub fn decode_base64(token: &str) -> (bytes: Result<Vec<u8>, String>)
    ensures
        match bytes {
            Ok(bytes) => base64::decoded(token@) == Ok::<Seq<u8>, char>(bytes@),
            Err(message) => {
                &&& base64::decoded(token@) is Err
                &&& message@ == bad_letter(base64::decoded(token@)->Err_0)
            },
        },
{
    match decode_letters(token) {
        Ok(bytes) => Ok(bytes),
        Err(c) => {
            let mut letter: Vec<char> = Vec::new();
            letter.push(c);
            let text = string_of(&letter);
            assert(text@ =~= seq![c]);
            let bytes = text.as_str().as_bytes();
            let mut first: Vec<u8> = Vec::new();
            if bytes.len() > 0 {
                first.push(bytes[0]);
            }
            proof {
                vstd::utf8::encode_utf8_first_scalar(seq![c]);
            }
            assert(first@ =~= bytes@.take(1));
            Err("invalid base64 byte 0x".to_owned().concat(hex_text(&first).as_str()))
        },
    }
}

/// The arguments in a token: its text, cut at NUL. A token without text, or with a
/// lone NUL, has none.
pub open spec fn token_argv(token: Seq<char>) -> Result<Seq<Seq<char>>, Seq<char>> {
    match base64::decoded(token) {
        Err(c) => Err(bad_letter(c)),
        Ok(bytes) => if !vstd::utf8::valid_utf8(bytes) {
            Err("--argv-b64 payload is not UTF-8"@)
        } else {
            let text = vstd::utf8::decode_utf8(bytes);
            if text.len() == 0 || text == seq!['\0'] {
                Err("--argv-b64 decoded to no arguments"@)
            } else {
                Ok(strings::parts_of(text, CharClass::Only('\0')))
            }
        },
    }
}

/// The argv of each form; `lines` is the text of an argument file.
pub open spec fn assembled(mode: Seq<char>, rest: Seq<Seq<char>>, lines: Option<Seq<char>>) -> Result<
    (bool, Seq<Seq<char>>),
    Seq<char>,
> {
    if mode == "--argv-b64"@ {
        if rest.len() != 1 {
            Err("--argv-b64 requires exactly one token"@)
        } else {
            match token_argv(rest[0]) {
                Ok(argv) => Ok((false, argv)),
                Err(message) => Err(message),
            }
        }
    } else if mode == "--argfile"@ {
        match lines {
            None => Err("--argfile requires exactly one file"@),
            Some(text) => {
                let argv = lines::text_lines(text);
                if argv.len() == 0 {
                    Err("--argfile holds no arguments"@)
                } else {
                    Ok((false, argv))
                }
            },
        }
    } else if mode == "--script"@ {
        if rest.len() == 0 {
            Err("--script requires a script path"@)
        } else if rest.len() > 1 && rest[1] == "--"@ {
            Ok((true, rest.remove(1)))
        } else {
            Ok((true, rest))
        }
    } else if mode == "--"@ {
        if rest.len() == 0 {
            Err("no command follows --"@)
        } else {
            Ok((false, rest))
        }
    } else {
        Err("unknown command form "@ + mode)
    }
}

/// The argv that a command form gives, and whether it starts with a script.
pub fn assemble_argv(mode: &str, rest: &[String], lines: Option<&str>) -> (argv: Result<
    (bool, Vec<String>),
    String,
>)
    ensures
        match argv {
            Ok((script, argv)) => assembled(
                mode@,
                strings::texts(rest@),
                strings::opt_text(lines),
            ) == Ok::<(bool, Seq<Seq<char>>), Seq<char>>((script, strings::texts(argv@))),
            Err(message) => assembled(mode@, strings::texts(rest@), strings::opt_text(lines))
                == Err::<(bool, Seq<Seq<char>>), Seq<char>>(message@),
        },
{
    let ghost given = strings::texts(rest@);
    if same_text(mode, "--argv-b64") {
        if rest.len() != 1 {
            return Err("--argv-b64 requires exactly one token".to_owned());
        }
        assert(given[0] == rest@[0]@);
        return match argv_of_token(rest[0].as_str()) {
            Ok(argv) => Ok((false, argv)),
            Err(message) => Err(message),
        };
    }
    if same_text(mode, "--argfile") {
        return match lines {
            None => Err("--argfile requires exactly one file".to_owned()),
            Some(text) => {
                let argv = lines_of(text);
                if argv.len() == 0 {
                    assert(strings::texts(argv@).len() == 0);
                    Err("--argfile holds no arguments".to_owned())
                } else {
                    assert(strings::texts(argv@).len() > 0);
                    Ok((false, argv))
                }
            },
        };
    }
    if same_text(mode, "--script") {
        if rest.len() == 0 {
            return Err("--script requires a script path".to_owned());
        }
        if rest.len() > 1 {
            assert(given[1] == rest@[1]@);
        }
        if rest.len() > 1 && same_text(rest[1].as_str(), "--") {
            let mut argv: Vec<String> = Vec::new();
            argv.push(rest[0].clone());
            let mut i: usize = 2;
            assert(strings::texts(argv@) =~= given.remove(1).take(1));
            while i < rest.len()
                invariant
                    2 <= i <= rest.len(),
                    given == strings::texts(rest@),
                    strings::texts(argv@) == given.remove(1).take(i - 1),
                decreases rest.len() - i,
            {
                assert(given[i as int] == rest@[i as int]@);
                push_text(&mut argv, rest[i].clone());
                assert(given.remove(1).take(i as int) =~= given.remove(1).take(i - 1).push(
                    given[i as int],
                ));
                i += 1;
            }
            assert(given.remove(1).take(i - 1) =~= given.remove(1));
            return Ok((true, argv));
        }
        return Ok((true, copy_strings(rest)));
    }
    if same_text(mode, "--") {
        if rest.len() == 0 {
            return Err("no command follows --".to_owned());
        }
        return Ok((false, copy_strings(rest)));
    }
    Err("unknown command form ".to_owned().concat(mode))
}

fn argv_of_token(token: &str) -> (argv: Result<Vec<String>, String>)
    ensures
        match argv {
            Ok(argv) => token_argv(token@) == Ok::<Seq<Seq<char>>, Seq<char>>(
                strings::texts(argv@),
            ),
            Err(message) => token_argv(token@) == Err::<Seq<Seq<char>>, Seq<char>>(message@),
        },
{
    let bytes = match decode_base64(token) {
        Ok(bytes) => bytes,
        Err(message) => {
            return Err(message);
        },
    };
    let text = match utf8_text(&bytes) {
        Some(text) => text,
        None => {
            return Err("--argv-b64 payload is not UTF-8".to_owned());
        },
    };
    let chars = chars_of(text.as_str());
    if chars.len() == 0 || (chars.len() == 1 && chars[0] == '\0') {
        assert(chars.len() == 1 ==> text@ =~= seq!['\0']);
        return Err("--argv-b64 decoded to no arguments".to_owned());
    }
    Ok(split_text(text.as_str(), CharClass::Only('\0')))
}

/// Texts that do not hold the separator come back from their joined form.
pub proof fn splitting_undoes_joining(parts: Seq<Seq<char>>, separator: char)
    requires
        parts.len() > 0,
        forall|i: int, k: int|
            0 <= i < parts.len() && 0 <= k < parts[i].len() ==> (#[trigger] parts[i][k])
                != separator,
    ensures
        strings::parts_of(
            strings::join_texts(parts, seq![separator]),
            CharClass::Only(separator),
        ) == parts,
    decreases parts.len(),
{
    let class = CharClass::Only(separator);
    let text = strings::join_texts(parts, seq![separator]);
    let last = parts.last();
    assert forall|k: int| 0 <= k < last.len() implies last[k] != separator by {
        assert(parts[parts.len() - 1][k] != separator);
    }
    if parts.len() == 1 {
        assert(text =~= last);
        lemma_no_separator(text, class, 0);
        assert(text.subrange(0, text.len() as int) =~= text);
        assert(strings::parts_of(text, class) =~= parts);
    } else {
        let fewer = parts.drop_last();
        assert forall|i: int, k: int|
            0 <= i < fewer.len() && 0 <= k < fewer[i].len() implies (#[trigger] fewer[i][k])
            != separator by {
            assert(fewer[i][k] == parts[i][k]);
        }
        splitting_undoes_joining(fewer, separator);
        let head = strings::join_texts(fewer, seq![separator]);
        assert(text =~= head + seq![separator] + last);
        lemma_last_part(head, last, separator, 0);
        assert(fewer.push(last) =~= parts);
    }
}

proof fn lemma_no_separator(text: Seq<char>, class: CharClass, from: int)
    requires
        0 <= from <= text.len(),
        forall|k: int| from <= k < text.len() ==> !strings::in_class(class, #[trigger] text[k]),
    ensures
        strings::find_class(text, class, from) >= text.len(),
    decreases text.len() - from,
{
    if from < text.len() {
        lemma_no_separator(text, class, from + 1);
    }
}

proof fn lemma_find_in_front(head: Seq<char>, whole: Seq<char>, class: CharClass, from: int)
    requires
        0 <= from <= head.len() < whole.len(),
        head == whole.take(head.len() as int),
        strings::in_class(class, whole[head.len() as int]),
    ensures
        strings::find_class(whole, class, from) == strings::find_class(head, class, from),
        from <= strings::find_class(head, class, from) <= head.len(),
    decreases head.len() - from,
{
    strings::lemma_find_class_bounds(head, class, from);
    if from < head.len() {
        assert(head[from] == whole[from]);
        if !strings::in_class(class, head[from]) {
            lemma_find_in_front(head, whole, class, from + 1);
        }
    }
}

proof fn lemma_last_part(head: Seq<char>, last: Seq<char>, separator: char, from: int)
    requires
        0 <= from <= head.len(),
        forall|k: int| 0 <= k < last.len() ==> #[trigger] last[k] != separator,
    ensures
        strings::parts_from(
            head + seq![separator] + last,
            CharClass::Only(separator),
            from,
        ) == strings::parts_from(head, CharClass::Only(separator), from).push(last),
    decreases head.len() - from,
{
    let class = CharClass::Only(separator);
    let whole = head + seq![separator] + last;
    assert(whole.take(head.len() as int) =~= head);
    lemma_find_in_front(head, whole, class, from);
    let end = strings::find_class(head, class, from);
    if end < head.len() {
        lemma_last_part(head, last, separator, end + 1);
        assert(whole.subrange(from, end) =~= head.subrange(from, end));
        assert(strings::parts_from(whole, class, from) =~= strings::parts_from(
            head,
            class,
            from,
        ).push(last));
    } else {
        let next = head.len() as int + 1;
        assert forall|k: int| next <= k < whole.len() implies !strings::in_class(
            class,
            #[trigger] whole[k],
        ) by {
            assert(whole[k] == last[k - next]);
        }
        lemma_no_separator(whole, class, next);
        assert(whole.subrange(next, whole.len() as int) =~= last);
        assert(whole.subrange(from, end) =~= head.subrange(from, head.len() as int));
        assert(strings::parts_from(whole, class, next) =~= seq![last]);
        assert(strings::parts_from(whole, class, from) =~= strings::parts_from(
            head,
            class,
            from,
        ).push(last));
    }
}

/// A token made of arguments without NUL gives back every one of them, empty ones
/// included, unless there is but one or two of them and all are empty.
pub proof fn token_preserves_every_argument(argv: Seq<Seq<char>>)
    requires
        argv.len() > 0,
        forall|i: int, k: int|
            0 <= i < argv.len() && 0 <= k < argv[i].len() ==> (#[trigger] argv[i][k]) != '\0',
        argv != seq![Seq::<char>::empty()],
        argv != seq![Seq::<char>::empty(), Seq::<char>::empty()],
    ensures
        token_argv(
            base64::encoded(
                vstd::utf8::encode_utf8(strings::join_texts(argv, seq!['\0'])),
            ),
        ) == Ok::<Seq<Seq<char>>, Seq<char>>(argv),
{
    let text = strings::join_texts(argv, seq!['\0']);
    let bytes = vstd::utf8::encode_utf8(text);
    base64::decoding_undoes_encoding(bytes);
    vstd::utf8::encode_utf8_valid_utf8(text);
    vstd::utf8::encode_utf8_decode_utf8(text);
    splitting_undoes_joining(argv, '\0');
    if text.len() == 0 {
        lemma_no_separator(text, CharClass::Only('\0'), 0);
        assert(strings::parts_of(text, CharClass::Only('\0')) =~= seq![Seq::<char>::empty()]);
    }
    if text == seq!['\0'] {
        lemma_last_part(Seq::empty(), Seq::empty(), '\0', 0);
        assert(Seq::<char>::empty() + seq!['\0'] + Seq::<char>::empty() =~= text);
        lemma_no_separator(Seq::empty(), CharClass::Only('\0'), 0);
        assert(Seq::<char>::empty().subrange(0, 0) =~= Seq::empty());
        assert(strings::parts_from(Seq::empty(), CharClass::Only('\0'), 0) =~= seq![
            Seq::<char>::empty(),
        ]);
        assert(strings::parts_of(text, CharClass::Only('\0')) =~= seq![
            Seq::<char>::empty(),
            Seq::<char>::empty(),
        ]);
    }
}

/// How many lines a `sed` print range spans: `FIRST,LASTp`, with or without `-n`
/// in front.
pub open spec fn window_span(script: Seq<char>) -> Option<nat> {
    let bare = match strings::without_prefix(script, "-n"@) {
        Some(rest) => rest,
        None => script,
    };
    if !"p"@.is_suffix_of(bare) {
        None
    } else {
        match strings::split_at_first(bare.take(bare.len() - 1), CharClass::Only(',')) {
            None => None,
            Some((first, last)) => match (
                numbers::unsigned_value(first, usize::MAX as int),
                numbers::unsigned_value(last, usize::MAX as int),
            ) {
                (Some(first), Some(last)) => if first <= last && last - first < usize::MAX {
                    Some((last - first + 1) as nat)
                } else {
                    None
                },
                _ => None,
            },
        }
    }
}

/// How many lines a `sed` print range spans.
pub fn sed_window_span(script: &str) -> (span: Option<usize>)
    ensures
        match span {
            Some(span) => window_span(script@) == Some(span as nat),
            None => window_span(script@) is None,
        },
{
    let bare = match strip_prefix(script, "-n") {
        Some(rest) => rest,
        None => script.to_owned(),
    };
    if !ends_with(bare.as_str(), "p") {
        return None;
    }
    let chars = chars_of(bare.as_str());
    proof {
        reveal_strlit("p");
    }
    let range = cut_string(&chars, 0, chars.len() - 1);
    assert(range@ =~= bare@.take(bare@.len() - 1));
    match split_first(range.as_str(), CharClass::Only(',')) {
        None => None,
        Some((first, last)) => match (parse_usize(first.as_str()), parse_usize(last.as_str())) {
            (Some(first), Some(last)) => if first <= last && last - first < usize::MAX {
                Some(last - first + 1)
            } else {
                None
            },
            _ => None,
        },
    }
}

/// Whether the bytes hold more lines than the limit; no more of them are looked at
/// than it takes to know.
pub fn reader_exceeds_line_limit(bytes: &[u8], limit: usize) -> (held: bool)
    ensures
        held == (capture::line_count(bytes@) > limit),
{
    let mut feeds: usize = 0;
    let mut i: usize = 0;
    while i < bytes.len()
        invariant
            i <= bytes.len(),
            feeds <= limit,
            feeds == capture::line_feeds(bytes@.take(i as int)),
        decreases bytes.len() - i,
    {
        assert(bytes@.take(i + 1).drop_last() =~= bytes@.take(i as int));
        assert(bytes@.take(i + 1).last() == bytes@[i as int]);
        proof {
            lemma_line_count_grows(bytes@, i + 1);
        }
        if feeds >= limit {
            return true;
        }
        if bytes[i] == 0x0a {
            feeds += 1;
        }
        i += 1;
    }
    assert(bytes@.take(i as int) =~= bytes@);
    bytes.len() > 0 && bytes[bytes.len() - 1] != 0x0a && feeds >= limit
}

proof fn lemma_line_count_grows(bytes: Seq<u8>, n: int)
    requires
        0 < n <= bytes.len(),
    ensures
        capture::line_count(bytes) >= capture::line_count(bytes.take(n)),
    decreases bytes.len() - n,
{
    if n < bytes.len() {
        assert(bytes.take(n + 1).drop_last() =~= bytes.take(n));
        lemma_line_count_grows(bytes, n + 1);
    } else {
        assert(bytes.take(n) =~= bytes);
    }
}

/// The span of a window that prints the lines from one to another is the number of those
/// lines, with or without the option that prints no others.
pub proof fn windows_span_their_lines(first: nat, last: nat)
    requires
        first <= last < usize::MAX,
    ensures
        window_span(numbers::decimal(first) + seq![','] + numbers::decimal(last) + seq!['p'])
            == Some((last - first + 1) as nat),
        window_span(
            seq!['-', 'n'] + (numbers::decimal(first) + seq![','] + numbers::decimal(last) + seq![
                'p',
            ]),
        ) == Some((last - first + 1) as nat),
{
    let a = numbers::decimal(first);
    let b = numbers::decimal(last);
    let script = a + seq![','] + b + seq!['p'];
    numbers::lemma_decimal_reads_back(first);
    numbers::lemma_decimal_reads_back(last);
    reveal_strlit("-n");
    reveal_strlit("p");
    assert("-n"@ =~= seq!['-', 'n']);
    assert("p"@ =~= seq!['p']);
    assert(strings::is_digit(a[0]));
    assert(script[0] == a[0]);
    if "-n"@.is_prefix_of(script) {
        assert(script[0] == "-n"@[0]);
    }
    assert(script.subrange(script.len() - 1, script.len() as int) =~= "p"@);
    let bare = script.take(script.len() - 1);
    assert(bare =~= a + seq![','] + b);
    strings::lemma_find_class_bounds(bare, CharClass::Only(','), 0);
    let at = strings::find_class(bare, CharClass::Only(','), 0);
    assert(bare[a.len() as int] == ',');
    if at < a.len() {
        assert(bare[at] == a[at]);
        assert(strings::is_digit(a[at]));
    }
    assert(bare.subrange(0, at) =~= a);
    assert(bare.subrange(at + 1, bare.len() as int) =~= b);
    assert(strings::is_digit(b[0]));
    let quiet = seq!['-', 'n'] + script;
    assert("-n"@ =~= quiet.take(2));
    assert(quiet.subrange(2, quiet.len() as int) =~= script);
}

} // verus!
