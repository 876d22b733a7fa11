//! What is reported of a captured command: its receipt, its text, and the status
//! that it ends with.
use vstd::prelude::*;

use crate::capture;
use crate::capture::{captured_stream_truncated, CapturedStream};
use crate::cli;
use crate::cli::renamed_flag_guidance;
use crate::destructive_guard;
use crate::destructive_guard::{evaluate_argv, DenyDecision, DestructiveGuardConfig};
use crate::encoding_suspects;
use crate::encoding_suspects::{scan_encoding_suspects, EncodingSuspects};
use crate::json;
use crate::json::{
    add_item, add_member, json_array, json_count, json_integer, json_number, json_object,
    json_text, json_texts, Json, JsonValue,
};
use crate::numbers;
use crate::numbers::{count_text, decimal_text, parse_i64, signed_decimal_text};
use crate::output;
use crate::output::{
    clamp_text, clamp_texts, fail_after_receipt, Receipt, ReceiptCap, ReceiptFailure, ReceiptModel,
    ReceiptOptions, ReceiptResult,
};
use crate::strings;
use crate::strings::{debug_list_text, debug_text, flag_word, push_text, split_text, trim_of, CharClass};

verus! {

/// What may be shown of a captured command.
#[derive(Debug, Clone, Copy)]
pub struct CaptureLimits {
    pub show_lines: usize,
    pub show_bytes_per_stream: usize,
    pub show_line_chars: usize,
}

/// Why a command is not captured.
#[derive(Debug)]
pub enum CaptureFault {
    ZeroLines,
    ZeroBytes,
    ZeroLineChars,
    NoCommand,
    /// The command starts with a flag of `capture` that has another name now.
    RenamedFlag { guidance: String },
    EmptyCode,
    BadCode { code: String },
    Denied { message: String },
}

/// The model of why a command is not captured.
pub enum Fault {
    ZeroLines,
    ZeroBytes,
    ZeroLineChars,
    NoCommand,
    RenamedFlag(Seq<char>),
    EmptyCode,
    BadCode(Seq<char>),
    Denied(Seq<char>),
}

impl View for CaptureFault {
    type V = Fault;

    open spec fn view(&self) -> Fault {
        match self {
            CaptureFault::ZeroLines => Fault::ZeroLines,
            CaptureFault::ZeroBytes => Fault::ZeroBytes,
            CaptureFault::ZeroLineChars => Fault::ZeroLineChars,
            CaptureFault::NoCommand => Fault::NoCommand,
            CaptureFault::RenamedFlag { guidance } => Fault::RenamedFlag(guidance@),
            CaptureFault::EmptyCode => Fault::EmptyCode,
            CaptureFault::BadCode { code } => Fault::BadCode(code@),
            CaptureFault::Denied { message } => Fault::Denied(message@),
        }
    }
}

impl Fault {
    pub open spec fn message(self) -> Seq<char> {
        match self {
            Fault::ZeroLines => "capture --show-lines must be greater than zero"@,
            Fault::ZeroBytes => "capture --show-bytes-per-stream must be greater than zero"@,
            Fault::ZeroLineChars => "capture --show-line-chars must be greater than zero"@,
            Fault::NoCommand => "capture requires a command after --"@,
            Fault::RenamedFlag(guidance) => guidance,
            Fault::EmptyCode => "capture --expect-exit contains an empty exit code"@,
            Fault::BadCode(code) => "invalid capture --expect-exit code "@
                + strings::debug_quoted(code),
            Fault::Denied(message) => "destructive command blocked: "@ + message,
        }
    }
}

impl CaptureFault {
    pub fn message(&self) -> (message: String)
        ensures
            message@ == self@.message(),
    {
        match self {
            CaptureFault::ZeroLines => "capture --show-lines must be greater than zero".to_owned(),
            CaptureFault::ZeroBytes =>
                "capture --show-bytes-per-stream must be greater than zero".to_owned(),
            CaptureFault::ZeroLineChars =>
                "capture --show-line-chars must be greater than zero".to_owned(),
            CaptureFault::NoCommand => "capture requires a command after --".to_owned(),
            CaptureFault::RenamedFlag { guidance } => guidance.clone(),
            CaptureFault::EmptyCode =>
                "capture --expect-exit contains an empty exit code".to_owned(),
            CaptureFault::BadCode { code } => "invalid capture --expect-exit code ".to_owned().concat(
                debug_text(code.as_str()).as_str(),
            ),
            CaptureFault::Denied { message } => "destructive command blocked: ".to_owned().concat(
                message.as_str(),
            ),
        }
    }
}

/// The exit code that a text spells, or why it spells none.
pub open spec fn code_of(part: Seq<char>) -> Result<int, Fault> {
    let code = strings::trim(part);
    if code.len() == 0 {
        Err(Fault::EmptyCode)
    } else {
        match numbers::signed_value(code) {
            Some(value) => if i32::MIN <= value <= i32::MAX {
                Ok(value)
            } else {
                Err(Fault::BadCode(code))
            },
            None => Err(Fault::BadCode(code)),
        }
    }
}

/// The first part that spells no exit code decides.
pub open spec fn read_codes(parts: Seq<Seq<char>>) -> Result<Seq<int>, Fault>
    decreases parts.len(),
{
    if parts.len() == 0 {
        Ok(Seq::empty())
    } else {
        match read_codes(parts.drop_last()) {
            Err(fault) => Err(fault),
            Ok(codes) => match code_of(parts.last()) {
                Ok(code) => Ok(codes.push(code)),
                Err(fault) => Err(fault),
            },
        }
    }
}

/// The parts between commas of the first `n` texts.
pub open spec fn code_parts(raw: Seq<Seq<char>>, n: nat) -> Seq<Seq<char>>
    decreases n,
{
    if n == 0 || n > raw.len() {
        Seq::empty()
    } else {
        code_parts(raw, (n - 1) as nat) + strings::parts_of(raw[n - 1], CharClass::Only(','))
    }
}

/// The exit codes that are expected: 0, or those that are listed.
pub open spec fn expected_codes(raw: Seq<Seq<char>>) -> Result<Seq<int>, Fault> {
    if raw.len() == 0 {
        Ok(seq![0])
    } else {
        read_codes(code_parts(raw, raw.len()))
    }
}

/// The codes in ascending order, each of them once.
pub open spec fn is_code_set(codes: Seq<i32>, listed: Seq<int>) -> bool {
    &&& forall|i: int, j: int| 0 <= i < j < codes.len() ==> codes[i] < codes[j]
    &&& forall|i: int| 0 <= i < codes.len() ==> listed.contains(#[trigger] codes[i] as int)
    &&& forall|k: int|
        0 <= k < listed.len() ==> exists|i: int|
            0 <= i < codes.len() && codes[i] == #[trigger] listed[k]
}

fn insert_code(codes: &mut Vec<i32>, code: i32, Ghost(listed): Ghost<Seq<int>>)
    requires
        is_code_set(old(codes)@, listed),
    ensures
        is_code_set(final(codes)@, listed.push(code as int)),
{
    let ghost before = codes@;
    let ghost more = listed.push(code as int);
    let mut at: usize = 0;
    while at < codes.len() && codes[at] < code
        invariant
            at <= codes.len(),
            codes@ == before,
            forall|i: int| 0 <= i < at ==> before[i] < code,
        decreases codes.len() - at,
    {
        at += 1;
    }
    assert(more.last() == code);
    assert forall|i: int| 0 <= i < before.len() implies more.contains(
        #[trigger] before[i] as int,
    ) by {
        let k = choose|k: int| 0 <= k < listed.len() && listed[k] == before[i];
        assert(more[k] == before[i]);
    }
    if at < codes.len() && codes[at] == code {
        assert forall|k: int| 0 <= k < more.len() implies exists|i: int|
            0 <= i < codes.len() && codes@[i] == #[trigger] more[k] by {
            if k < listed.len() {
                assert(more[k] == listed[k]);
            } else {
                assert(codes@[at as int] == more[k]);
            }
        }
        return ;
    }
    codes.insert(at, code);
    let ghost after = codes@;
    assert forall|i: int| 0 <= i < after.len() implies more.contains(#[trigger] after[i] as int) by {
        if i < at {
            assert(after[i] == before[i]);
        } else if i == at {
            assert(after[i] == more.last());
        } else {
            assert(after[i] == before[i - 1]);
        }
    }
    assert forall|i: int, j: int| 0 <= i < j < after.len() implies after[i] < after[j] by {
        let a = if i < at { i } else { i - 1 };
        let b = if j < at { j } else { j - 1 };
        if i != at {
            assert(after[i] == before[a]);
        }
        if j != at {
            assert(after[j] == before[b]);
        }
        if at < before.len() {
            assert(before[at as int] > code);
        }
    }
    assert forall|k: int| 0 <= k < more.len() implies exists|i: int|
        0 <= i < after.len() && after[i] == #[trigger] more[k] by {
        if k < listed.len() {
            assert(more[k] == listed[k]);
            let i = choose|i: int| 0 <= i < before.len() && before[i] == listed[k];
            assert(after[if i < at { i } else { i + 1 }] == more[k]);
        } else {
            assert(after[at as int] == more[k]);
        }
    }
}

proof fn lemma_first_fault(parts: Seq<Seq<char>>, n: int)
    requires
        0 <= n <= parts.len(),
        read_codes(parts.take(n)) is Err,
    ensures
        read_codes(parts) == read_codes(parts.take(n)),
    decreases parts.len() - n,
{
    if n < parts.len() {
        assert(parts.take(n + 1).drop_last() =~= parts.take(n));
        lemma_first_fault(parts, n + 1);
    } else {
        assert(parts.take(n) =~= parts);
    }
}

proof fn lemma_code_parts_prefix(raw: Seq<Seq<char>>, n: nat, m: nat)
    requires
        n <= m <= raw.len(),
    ensures
        code_parts(raw, n).len() <= code_parts(raw, m).len(),
        code_parts(raw, m).take(code_parts(raw, n).len() as int) == code_parts(raw, n),
    decreases m - n,
{
    if n < m {
        lemma_code_parts_prefix(raw, n, (m - 1) as nat);
        let shorter = code_parts(raw, (m - 1) as nat);
        let len = code_parts(raw, n).len() as int;
        assert(code_parts(raw, m).take(len) =~= shorter.take(len));
    } else {
        assert(code_parts(raw, m).take(code_parts(raw, m).len() as int) =~= code_parts(raw, m));
    }
}

/// The exit codes that are expected of a command, in ascending order.
pub fn parse_expected_exit_codes(raw: &[String]) -> (codes: Result<Vec<i32>, CaptureFault>)
    ensures
        match codes {
            Ok(codes) => expected_codes(strings::texts(raw@)) is Ok && is_code_set(
                codes@,
                expected_codes(strings::texts(raw@))->Ok_0,
            ),
            Err(fault) => expected_codes(strings::texts(raw@)) == Err::<Seq<int>, Fault>(fault@),
        },
{
    let ghost texts = strings::texts(raw@);
    let mut codes: Vec<i32> = Vec::new();
    if raw.len() == 0 {
        codes.push(0);
        assert(texts.len() == 0);
        assert(codes@ =~= seq![0i32]);
        assert(seq![0int][0] == codes@[0]);
        return Ok(codes);
    }
    let ghost all = code_parts(texts, texts.len());
    let ghost mut listed: Seq<int> = Seq::empty();
    let mut i: usize = 0;
    while i < raw.len()
        invariant
            i <= raw.len(),
            raw@.len() > 0,
            texts == strings::texts(raw@),
            all == code_parts(texts, texts.len()),
            read_codes(code_parts(texts, i as nat)) == Ok::<Seq<int>, Fault>(listed),
            is_code_set(codes@, listed),
        decreases raw.len() - i,
    {
        assert(texts[i as int] == raw@[i as int]@);
        let parts = split_text(raw[i].as_str(), CharClass::Only(','));
        let ghost before = code_parts(texts, i as nat);
        let ghost here = strings::texts(parts@);
        let mut k: usize = 0;
        assert(before + here.take(0) =~= before);
        while k < parts.len()
            invariant
                k <= parts.len(),
                i < raw.len(),
                texts == strings::texts(raw@),
                all == code_parts(texts, texts.len()),
                here == strings::texts(parts@),
                here == strings::parts_of(texts[i as int], CharClass::Only(',')),
                before == code_parts(texts, i as nat),
                read_codes(before + here.take(k as int)) == Ok::<Seq<int>, Fault>(listed),
                is_code_set(codes@, listed),
            decreases parts.len() - k,
        {
            assert(here[k as int] == parts@[k as int]@);
            let ghost next = before + here.take(k + 1);
            assert(next.drop_last() =~= before + here.take(k as int));
            assert(next.last() == here[k as int]);
            proof {
                lemma_code_parts_prefix(texts, (i + 1) as nat, texts.len());
                let longer = code_parts(texts, (i + 1) as nat);
                assert(longer == before + here);
                assert(all.take(next.len() as int) =~= next) by {
                    assert(all.take(longer.len() as int).take(next.len() as int) =~= next);
                    assert(all.take(next.len() as int) =~= all.take(longer.len() as int).take(
                        next.len() as int,
                    ));
                }
                if read_codes(next) is Err {
                    lemma_first_fault(all, next.len() as int);
                }
            }
            let code = trim_of(parts[k].as_str());
            if code.as_str().is_empty() {
                return Err(CaptureFault::EmptyCode);
            }
            match parse_i64(code.as_str()) {
                Some(value) => {
                    if value < -0x8000_0000 || value > 0x7fff_ffff {
                        return Err(CaptureFault::BadCode { code });
                    }
                    insert_code(&mut codes, value as i32, Ghost(listed));
                    proof {
                        listed = listed.push(value as int);
                    }
                },
                None => {
                    return Err(CaptureFault::BadCode { code });
                },
            }
            k += 1;
        }
        assert(before + here.take(k as int) =~= code_parts(texts, (i + 1) as nat));
        i += 1;
    }
    Ok(codes)
}

/// Whether a command may be captured, in the order in which it is asked.
pub open spec fn capture_fault(
    limits: CaptureLimits,
    argv: Seq<Seq<char>>,
    expect_exit: Seq<Seq<char>>,
    denied: Option<Seq<char>>,
    override_active: bool,
) -> Option<Fault> {
    if limits.show_lines == 0 {
        Some(Fault::ZeroLines)
    } else if limits.show_bytes_per_stream == 0 {
        Some(Fault::ZeroBytes)
    } else if limits.show_line_chars == 0 {
        Some(Fault::ZeroLineChars)
    } else if argv.len() == 0 {
        Some(Fault::NoCommand)
    } else if let Some(guidance) = cli::renamed_flag("capture"@, argv[0]) {
        Some(Fault::RenamedFlag(guidance))
    } else if let Err(fault) = expected_codes(expect_exit) {
        Some(fault)
    } else if denied is Some && !override_active {
        Some(Fault::Denied(denied->Some_0))
    } else {
        None
    }
}

/// A command that may be captured: the exit codes that are expected of it, and
/// what the guard says against it where an override lets it through.
#[derive(Debug)]
pub struct CaptureRequest {
    pub expected_exit_codes: Vec<i32>,
    pub overridden: Option<String>,
}

/// Checks a command before it is spawned.
pub fn capture_request(
    limits: CaptureLimits,
    argv: &[String],
    expect_exit: &[String],
    config: &DestructiveGuardConfig,
    override_active: bool,
) -> (request: Result<CaptureRequest, CaptureFault>)
    ensures
        ({
            let denied = destructive_guard::denied_argv(strings::texts(argv@), config.rules(true));
            let fault = capture_fault(
                limits,
                strings::texts(argv@),
                strings::texts(expect_exit@),
                denied,
                override_active,
            );
            match request {
                Ok(request) => {
                    &&& fault is None
                    &&& is_code_set(
                        request.expected_exit_codes@,
                        expected_codes(strings::texts(expect_exit@))->Ok_0,
                    )
                    &&& strings::text_option(request.overridden) == denied
                },
                Err(given) => fault == Some(given@),
            }
        }),
{
    if limits.show_lines == 0 {
        return Err(CaptureFault::ZeroLines);
    }
    if limits.show_bytes_per_stream == 0 {
        return Err(CaptureFault::ZeroBytes);
    }
    if limits.show_line_chars == 0 {
        return Err(CaptureFault::ZeroLineChars);
    }
    if argv.len() == 0 {
        return Err(CaptureFault::NoCommand);
    }
    assert(strings::texts(argv@)[0] == argv@[0]@);
    if let Some(guidance) = renamed_flag_guidance("capture", argv[0].as_str()) {
        return Err(CaptureFault::RenamedFlag { guidance: guidance.to_owned() });
    }
    let expected_exit_codes = match parse_expected_exit_codes(expect_exit) {
        Ok(codes) => codes,
        Err(fault) => {
            return Err(fault);
        },
    };
    match evaluate_argv(argv, config, override_active) {
        DenyDecision::Allow => Ok(CaptureRequest { expected_exit_codes, overridden: None }),
        DenyDecision::AllowWithOverride { message } => Ok(
            CaptureRequest { expected_exit_codes, overridden: Some(message) },
        ),
        DenyDecision::Deny { message } => Err(CaptureFault::Denied { message }),
    }
}

/// How a child ended.
#[derive(Debug, Clone, Copy)]
pub struct ChildExit {
    pub code: Option<i32>,
    /// The signal that ended the child, where it has no code.
    pub signal: Option<i32>,
}

impl ChildExit {
    pub open spec fn is_zero(self) -> bool {
        self.code == Some(0i32)
    }

    pub open spec fn is_expected(self, codes: Seq<i32>) -> bool {
        self.code is Some && codes.contains(self.code->Some_0)
    }

    /// The status that stands for the child's.
    pub open spec fn status(self) -> int {
        match (self.code, self.signal) {
            (Some(code), _) => code as int,
            (None, Some(signal)) => 128 + signal,
            (None, None) => 1,
        }
    }

    /// Signals are small numbers.
    pub open spec fn well_formed(self) -> bool {
        self.signal is Some ==> self.signal->Some_0 <= 0x7fff_ff7f
    }

    pub fn exited_with_zero(&self) -> (held: bool)
        ensures
            held == self.is_zero(),
    {
        match self.code {
            Some(code) => code == 0,
            None => false,
        }
    }

    pub fn exit_expected(&self, codes: &[i32]) -> (held: bool)
        ensures
            held == self.is_expected(codes@),
    {
        let code = match self.code {
            Some(code) => code,
            None => {
                return false;
            },
        };
        let mut i: usize = 0;
        while i < codes.len()
            invariant
                i <= codes.len(),
                self.code == Some(code),
                forall|k: int| 0 <= k < i ==> codes@[k] != code,
            decreases codes.len() - i,
        {
            if codes[i] == code {
                return true;
            }
            i += 1;
        }
        false
    }

    pub fn exit_status(&self) -> (status: i32)
        requires
            self.well_formed(),
        ensures
            status == self.status(),
    {
        match (self.code, self.signal) {
            (Some(code), _) => code,
            (None, Some(signal)) => 128 + signal,
            (None, None) => 1,
        }
    }
}

/// How a capture ends once its receipt is written.
#[derive(Debug, Clone, Copy, PartialEq, Eq, Structural)]
pub enum CaptureEnd {
    Success,
    /// The receipt could not be written to its file.
    SidecarFailed,
    Strict(ReceiptFailure),
    /// The child's own status.
    ChildStatus { status: i32, strict: Option<ReceiptFailure> },
}

/// The child's status decides where it was not expected; then whether the receipt
/// was written to its file; then the strict options.
pub fn finish_capture(
    options: ReceiptOptions,
    sidecar_failed: bool,
    scope_complete: bool,
    output_truncated: bool,
    exit_expected: bool,
    child: ChildExit,
) -> (end: CaptureEnd)
    requires
        child.well_formed(),
    ensures
        ({
            let strict = output::strict_failure(options, scope_complete, output_truncated);
            match end {
                CaptureEnd::ChildStatus { status, strict: failure } => {
                    &&& !exit_expected
                    &&& status == child.status()
                    &&& failure == strict
                },
                CaptureEnd::SidecarFailed => exit_expected && sidecar_failed,
                CaptureEnd::Strict(failure) => {
                    &&& exit_expected
                    &&& !sidecar_failed
                    &&& strict == Some(failure)
                },
                CaptureEnd::Success => exit_expected && !sidecar_failed && strict is None,
            }
        }),
{
    let strict = fail_after_receipt(options, scope_complete, output_truncated);
    if !exit_expected {
        let failure = match strict {
            Ok(_) => None,
            Err(failure) => Some(failure),
        };
        return CaptureEnd::ChildStatus { status: child.exit_status(), strict: failure };
    }
    if sidecar_failed {
        return CaptureEnd::SidecarFailed;
    }
    match strict {
        Ok(_) => CaptureEnd::Success,
        Err(failure) => CaptureEnd::Strict(failure),
    }
}

/// What is known of the image that was spawned.
#[derive(Debug)]
pub enum ExecutableIdentity {
    /// The path that the process handle names.
    Observed { path: String },
    Unobserved { error: String },
}

impl ExecutableIdentity {
    pub open spec fn json(&self) -> Json {
        match self {
            ExecutableIdentity::Observed { path } => Json::Object(
                seq![
                    ("path"@, Json::Text(path@)),
                    ("source"@, Json::Text("windows_process_handle"@)),
                    ("error"@, Json::Null),
                ],
            ),
            ExecutableIdentity::Unobserved { error } => Json::Object(
                seq![
                    ("path"@, Json::Null),
                    ("source"@, Json::Text("unobserved"@)),
                    ("error"@, Json::Text(error@)),
                ],
            ),
        }
    }

    fn to_json(&self) -> (value: JsonValue)
        ensures
            value@ == self.json(),
    {
        let mut members: Vec<(String, JsonValue)> = Vec::new();
        assert(json::member_models(members@) =~= Seq::empty());
        match self {
            ExecutableIdentity::Observed { path } => {
                add_member(&mut members, "path", json_text(path.as_str()));
                add_member(&mut members, "source", json_text("windows_process_handle"));
                add_member(&mut members, "error", JsonValue::Null);
            },
            ExecutableIdentity::Unobserved { error } => {
                add_member(&mut members, "path", JsonValue::Null);
                add_member(&mut members, "source", json_text("unobserved"));
                add_member(&mut members, "error", json_text(error.as_str()));
            },
        }
        let value = json_object(members);
        assert(value@->Object_0 =~= self.json()->Object_0);
        value
    }
}

pub open spec fn is_truncated(stream: capture::Rendered) -> bool {
    stream.omitted_lines > 0 || stream.byte_truncated || stream.line_truncated
        || stream.char_truncated
}

/// What a receipt says of a stream.
pub open spec fn stream_json(stream: capture::Rendered) -> Json {
    Json::Object(
        seq![
            ("shown_lines"@, json::count_json(stream.shown_lines)),
            ("head_lines"@, json::count_json(stream.head_lines)),
            ("tail_lines"@, json::count_json(stream.tail_lines)),
            ("omitted_lines"@, json::count_json(stream.omitted_lines)),
            ("total_lines"@, json::count_json(stream.total_lines)),
            ("captured_bytes"@, json::count_json(stream.captured_bytes)),
            ("total_bytes"@, json::count_json(stream.total_bytes)),
            ("output_truncated"@, Json::Bool(is_truncated(stream))),
            ("byte_truncated"@, Json::Bool(stream.byte_truncated)),
            ("line_truncated"@, Json::Bool(stream.line_truncated)),
            ("char_truncated"@, Json::Bool(stream.char_truncated)),
        ],
    )
}

/// What a receipt says of a stream.
pub fn captured_stream_json(stream: &CapturedStream) -> (value: JsonValue)
    ensures
        value@ == stream_json(stream@),
{
    let mut members: Vec<(String, JsonValue)> = Vec::new();
    assert(json::member_models(members@) =~= Seq::empty());
    add_member(&mut members, "shown_lines", json_count(stream.shown_lines));
    add_member(&mut members, "head_lines", json_count(stream.head_lines));
    add_member(&mut members, "tail_lines", json_count(stream.tail_lines));
    add_member(&mut members, "omitted_lines", json_count(stream.omitted_lines));
    add_member(&mut members, "total_lines", json_count(stream.total_lines));
    add_member(&mut members, "captured_bytes", json_count(stream.captured_bytes));
    add_member(&mut members, "total_bytes", json_count(stream.total_bytes));
    add_member(
        &mut members,
        "output_truncated",
        JsonValue::Bool(captured_stream_truncated(stream)),
    );
    add_member(&mut members, "byte_truncated", JsonValue::Bool(stream.byte_truncated));
    add_member(&mut members, "line_truncated", JsonValue::Bool(stream.line_truncated));
    add_member(&mut members, "char_truncated", JsonValue::Bool(stream.char_truncated));
    let value = json_object(members);
    assert(value@->Object_0 =~= stream_json(stream@)->Object_0);
    value
}

/// A command that was captured.
#[derive(Debug)]
pub struct CapturedCommand {
    pub argv: Vec<String>,
    pub effective_argv: Vec<String>,
    pub execution_mode: &'static str,
    pub executable: ExecutableIdentity,
    pub child: ChildExit,
    pub expected_exit_codes: Vec<i32>,
    pub duration_ms: u64,
    pub stdout: CapturedStream,
    pub stderr: CapturedStream,
}

fn codes_json(codes: &[i32]) -> (value: JsonValue)
    ensures
        value@ == Json::Array(
            codes@.map_values(|code: i32| Json::Number(numbers::signed_decimal(code as int, None))),
        ),
{
    let ghost wanted = codes@.map_values(
        |code: i32| Json::Number(numbers::signed_decimal(code as int, None)),
    );
    let mut items: Vec<JsonValue> = Vec::new();
    let mut i: usize = 0;
    assert(json::item_models(items@) =~= wanted.take(0));
    while i < codes.len()
        invariant
            i <= codes.len(),
            wanted == codes@.map_values(
                |code: i32| Json::Number(numbers::signed_decimal(code as int, None)),
            ),
            json::item_models(items@) == wanted.take(i as int),
        decreases codes.len() - i,
    {
        add_item(&mut items, json_integer(codes[i] as i64));
        assert(wanted.take(i + 1) =~= wanted.take(i as int).push(wanted[i as int]));
        i += 1;
    }
    assert(wanted.take(i as int) =~= wanted);
    json_array(items)
}

impl CapturedCommand {
    /// No more lines are shown than there are, and all of them can be counted.
    pub open spec fn well_formed(&self) -> bool {
        &&& self.stdout.shown_lines <= self.stdout.total_lines
        &&& self.stderr.shown_lines <= self.stderr.total_lines
        &&& self.stdout.total_lines + self.stderr.total_lines <= usize::MAX
    }

    /// Whether a text in the receipt is cut to length.
    pub open spec fn cuts_characters(&self, max_chars: nat) -> bool {
        self.stdout.char_truncated || self.stderr.char_truncated || output::some_is_longer(
            strings::texts(self.argv@),
            max_chars,
        ) || output::some_is_longer(strings::texts(self.effective_argv@), max_chars)
    }

    pub open spec fn caps(&self, limits: CaptureLimits) -> Seq<output::Cap> {
        (if self.stdout.line_truncated || self.stderr.line_truncated {
            seq![output::output_cap("lines"@, limits.show_lines as nat, "--show-lines"@)]
        } else {
            Seq::empty()
        }) + (if self.stdout.byte_truncated || self.stderr.byte_truncated {
            seq![
                output::output_cap(
                    "bytes_per_stream"@,
                    limits.show_bytes_per_stream as nat,
                    "--show-bytes-per-stream"@,
                ),
            ]
        } else {
            Seq::empty()
        }) + (if self.cuts_characters(limits.show_line_chars as nat) {
            seq![
                output::output_cap(
                    "line_characters"@,
                    limits.show_line_chars as nat,
                    "--show-line-chars"@,
                ),
            ]
        } else {
            Seq::empty()
        })
    }

    /// What is found in what was kept of both streams. Output may hold replaced bytes
    /// and controls for good reasons; UTF-8 that went through code page 1252 it does not.
    pub open spec fn suspects(&self) -> encoding_suspects::Suspects {
        encoding_suspects::Suspects::in_text(self.stdout.retained_text@, true).and(
            encoding_suspects::Suspects::in_text(self.stderr.retained_text@, true),
        )
    }

    /// What is found in what was kept of both streams.
    pub fn scan_suspects(&self) -> (found: EncodingSuspects)
        ensures
            found@ == self.suspects(),
    {
        scan_encoding_suspects(self.stdout.retained_text.as_str(), true).merge(
            scan_encoding_suspects(self.stderr.retained_text.as_str(), true),
        )
    }

    pub open spec fn fields(&self, max_chars: nat, with_text: bool) -> Seq<(Seq<char>, Json)> {
        seq![
            ("argv"@, json::text_array(output::clamp_all(strings::texts(self.argv@), max_chars))),
            (
                "effective_argv"@,
                json::text_array(output::clamp_all(strings::texts(self.effective_argv@), max_chars)),
            ),
            ("execution_mode"@, Json::Text(self.execution_mode@)),
            ("executable"@, self.executable.json()),
            (
                "child_exit_code"@,
                match self.child.code {
                    Some(code) => Json::Number(numbers::signed_decimal(code as int, None)),
                    None => Json::Null,
                },
            ),
            ("child_exit_zero"@, Json::Bool(self.child.is_zero())),
            (
                "expected_exit_codes"@,
                Json::Array(
                    self.expected_exit_codes@.map_values(
                        |code: i32| Json::Number(numbers::signed_decimal(code as int, None)),
                    ),
                ),
            ),
            ("exit_expected"@, Json::Bool(self.child.is_expected(self.expected_exit_codes@))),
            ("child_duration_ms"@, json::count_json(self.duration_ms as nat)),
            ("stdout"@, stream_json(self.stdout@)),
            ("stderr"@, stream_json(self.stderr@)),
        ] + self.suspects().field() + (if with_text {
            seq![
                ("stdout_text"@, Json::Text(self.stdout.display_text@)),
                ("stderr_text"@, Json::Text(self.stderr.display_text@)),
            ]
        } else {
            Seq::empty()
        })
    }

    #[verifier::rlimit(60)]
    fn members(
        &self,
        argv: &[String],
        effective: &[String],
        max_chars: usize,
        with_text: bool,
    ) -> (members: Vec<(String, JsonValue)>)
        requires
            strings::texts(argv@) == output::clamp_all(strings::texts(self.argv@), max_chars as nat),
            strings::texts(effective@) == output::clamp_all(
                strings::texts(self.effective_argv@),
                max_chars as nat,
            ),
        ensures
            json::member_models(members@) == self.fields(max_chars as nat, with_text),
    {
        let mut members: Vec<(String, JsonValue)> = Vec::new();
        assert(json::member_models(members@) =~= Seq::empty());
        add_member(&mut members, "argv", json_texts(argv));
        add_member(&mut members, "effective_argv", json_texts(effective));
        add_member(&mut members, "execution_mode", json_text(self.execution_mode));
        add_member(&mut members, "executable", self.executable.to_json());
        let code = match self.child.code {
            Some(code) => json_integer(code as i64),
            None => JsonValue::Null,
        };
        add_member(&mut members, "child_exit_code", code);
        add_member(&mut members, "child_exit_zero", JsonValue::Bool(self.child.exited_with_zero()));
        add_member(&mut members, "expected_exit_codes", codes_json(&self.expected_exit_codes));
        add_member(
            &mut members,
            "exit_expected",
            JsonValue::Bool(self.child.exit_expected(&self.expected_exit_codes)),
        );
        add_member(&mut members, "child_duration_ms", json_number(self.duration_ms));
        add_member(&mut members, "stdout", captured_stream_json(&self.stdout));
        add_member(&mut members, "stderr", captured_stream_json(&self.stderr));
        let suspects = self.scan_suspects();
        if !suspects.is_empty() {
            add_member(&mut members, "encoding_suspects", suspects.receipt_value());
        }
        if with_text {
            add_member(&mut members, "stdout_text", json_text(self.stdout.display_text.as_str()));
            add_member(&mut members, "stderr_text", json_text(self.stderr.display_text.as_str()));
        }
        assert(json::member_models(members@) =~= self.fields(max_chars as nat, with_text));
        members
    }

    /// The receipt of the command; `with_text` puts what is shown of the streams
    /// into it.
    pub fn receipt(&self, profile: Option<&str>, limits: CaptureLimits, with_text: bool) -> (receipt:
        Receipt)
        requires
            self.well_formed(),
        ensures
            receipt.model() == (ReceiptModel {
                command: "capture"@,
                profile: strings::opt_text(profile),
                result: output::ResultCount {
                    unit: "lines"@,
                    total: (self.stdout.total_lines + self.stderr.total_lines) as nat,
                    total_is_lower_bound: false,
                    shown: (self.stdout.shown_lines + self.stderr.shown_lines) as nat,
                },
                caps: self.caps(limits),
                fields: self.fields(limits.show_line_chars as nat, with_text),
            }),
            receipt.model().well_formed(),
    {
        let shown = self.stdout.shown_lines + self.stderr.shown_lines;
        let total = self.stdout.total_lines + self.stderr.total_lines;
        let mut receipt = Receipt::new(
            "capture",
            profile,
            ReceiptResult::new("lines", total, false, shown),
        );
        let (argv, argv_cut) = clamp_texts(&self.argv, limits.show_line_chars);
        let (effective, effective_cut) = clamp_texts(&self.effective_argv, limits.show_line_chars);
        if self.stdout.line_truncated || self.stderr.line_truncated {
            receipt.add_cap(ReceiptCap::output("lines", Some(limits.show_lines), "--show-lines"));
        }
        if self.stdout.byte_truncated || self.stderr.byte_truncated {
            receipt.add_cap(
                ReceiptCap::output(
                    "bytes_per_stream",
                    Some(limits.show_bytes_per_stream),
                    "--show-bytes-per-stream",
                ),
            );
        }
        if self.stdout.char_truncated || self.stderr.char_truncated || argv_cut || effective_cut {
            receipt.add_cap(
                ReceiptCap::output(
                    "line_characters",
                    Some(limits.show_line_chars),
                    "--show-line-chars",
                ),
            );
        }
        assert(receipt.model().caps =~= self.caps(limits));
        let members = self.members(&argv, &effective, limits.show_line_chars, with_text);
        let ghost fields = json::member_models(members@);
        proof {
            lemma_field_names();
            let all = all_names();
            output::lemma_fresh_without(all, 13);
            output::lemma_fresh_without(all.remove(13), 12);
            let some = if with_text {
                all
            } else {
                all.remove(13).remove(12)
            };
            output::lemma_fresh_without(some, 11);
            if self.suspects().is_nothing() {
                assert(output::field_names(fields) =~= some.remove(11));
            } else {
                assert(output::field_names(fields) =~= some);
            }
        }
        receipt.insert_all(members);
        receipt
    }

    /// What is shown of the command, line by line.
    pub open spec fn shown_lines(&self) -> Seq<Seq<char>> {
        seq![
            "[contextmink] capture command="@ + output::clamped(
                strings::debug_list(strings::texts(self.argv@)),
                500,
            ) + " child_exit_code="@ + (match self.child.code {
                Some(code) => numbers::signed_decimal(code as int, None),
                None => "null"@,
            }) + " child_exit_zero="@ + strings::flag_text(self.child.is_zero()) + " duration_ms="@
                + numbers::decimal(self.duration_ms as nat),
            "execution_mode="@ + self.execution_mode@ + " effective_command="@ + output::clamped(
                strings::debug_list(strings::texts(self.effective_argv@)),
                500,
            ),
        ] + stream_lines("stdout: "@, self.stdout@) + stream_lines("stderr: "@, self.stderr@)
            + (if is_truncated(self.stdout@) || is_truncated(self.stderr@) {
            seq![
                "[contextmink] capped captured output; rerun the underlying command with native filters or raise caps only after confirming command scope."@,
            ]
        } else {
            Seq::empty()
        }) + self.suspects().notes()
    }

    /// What is shown of the command, line by line.
    pub fn lines(&self) -> (lines: Vec<String>)
        ensures
            strings::texts(lines@) == self.shown_lines(),
    {
        let mut lines: Vec<String> = Vec::new();
        assert(strings::texts(lines@) =~= Seq::empty());
        let code = match self.child.code {
            Some(code) => signed_decimal_text(code as i64, None),
            None => "null".to_owned(),
        };
        push_text(
            &mut lines,
            "[contextmink] capture command=".to_owned().concat(
                clamp_text(debug_list_text(&self.argv).as_str(), 500).as_str(),
            ).concat(" child_exit_code=").concat(code.as_str()).concat(" child_exit_zero=").concat(
                flag_word(self.child.exited_with_zero()),
            ).concat(" duration_ms=").concat(decimal_text(self.duration_ms).as_str()),
        );
        push_text(
            &mut lines,
            "execution_mode=".to_owned().concat(self.execution_mode).concat(
                " effective_command=",
            ).concat(clamp_text(debug_list_text(&self.effective_argv).as_str(), 500).as_str()),
        );
        push_stream(&mut lines, "stdout: ", &self.stdout);
        push_stream(&mut lines, "stderr: ", &self.stderr);
        if captured_stream_truncated(&self.stdout) || captured_stream_truncated(&self.stderr) {
            push_text(
                &mut lines,
                "[contextmink] capped captured output; rerun the underlying command with native filters or raise caps only after confirming command scope.".to_owned(),
            );
        }
        let suspects = self.scan_suspects();
        if !suspects.is_empty() {
            push_text(&mut lines, suspects.human_note());
        }
        assert(strings::texts(lines@) =~= self.shown_lines());
        lines
    }
}

pub open spec fn stream_lines(name: Seq<char>, stream: capture::Rendered) -> Seq<Seq<char>> {
    seq![
        name + "shown_lines="@ + numbers::decimal(stream.shown_lines) + " total_lines="@
            + numbers::decimal(stream.total_lines) + " captured_bytes="@ + numbers::decimal(
            stream.captured_bytes,
        ) + " total_bytes="@ + numbers::decimal(stream.total_bytes),
    ] + if stream.display_text.len() > 0 {
        seq![stream.display_text]
    } else {
        Seq::empty()
    }
}

fn push_stream(lines: &mut Vec<String>, name: &str, stream: &CapturedStream)
    ensures
        strings::texts(final(lines)@) == strings::texts(old(lines)@) + stream_lines(
            name@,
            stream@,
        ),
{
    push_text(
        lines,
        name.to_owned().concat("shown_lines=").concat(
            count_text(stream.shown_lines).as_str(),
        ).concat(" total_lines=").concat(count_text(stream.total_lines).as_str()).concat(
            " captured_bytes=",
        ).concat(count_text(stream.captured_bytes).as_str()).concat(" total_bytes=").concat(
            count_text(stream.total_bytes).as_str(),
        ),
    );
    if !stream.display_text.as_str().is_empty() {
        push_text(lines, stream.display_text.clone());
    }
    assert(strings::texts(lines@) =~= strings::texts(old(lines)@) + stream_lines(name@, stream@));
}

pub open spec fn all_names() -> Seq<Seq<char>> {
    seq![
        "argv"@,
        "effective_argv"@,
        "execution_mode"@,
        "executable"@,
        "child_exit_code"@,
        "child_exit_zero"@,
        "expected_exit_codes"@,
        "exit_expected"@,
        "child_duration_ms"@,
        "stdout"@,
        "stderr"@,
        "encoding_suspects"@,
        "stdout_text"@,
        "stderr_text"@,
    ]
}

/// The field names can stand beside each other.
proof fn lemma_field_names()
    ensures
        output::fresh_names(all_names()),
{
    reveal_strlit("schema");
    reveal_strlit("tool");
    reveal_strlit("command");
    reveal_strlit("profile");
    reveal_strlit("duration_ms");
    reveal_strlit("scope_complete");
    reveal_strlit("output_truncated");
    reveal_strlit("complete");
    reveal_strlit("caps");
    reveal_strlit("result");
    reveal_strlit("output_cap_arguments");
    reveal_strlit("argv");
    reveal_strlit("effective_argv");
    reveal_strlit("execution_mode");
    reveal_strlit("executable");
    reveal_strlit("child_exit_code");
    reveal_strlit("child_exit_zero");
    reveal_strlit("expected_exit_codes");
    reveal_strlit("exit_expected");
    reveal_strlit("child_duration_ms");
    reveal_strlit("stdout");
    reveal_strlit("stderr");
    reveal_strlit("encoding_suspects");
    reveal_strlit("stdout_text");
    reveal_strlit("stderr_text");
    assert("argv"@.len() == 4);
    assert("argv"@[0] == 'a');
    assert("caps"@.len() == 4);
    assert("caps"@[0] == 'c');
    assert("child_duration_ms"@.len() == 17);
    assert("child_duration_ms"@[0] == 'c');
    assert("child_exit_code"@.len() == 15);
    assert("child_exit_code"@[11] == 'c');
    assert("child_exit_zero"@.len() == 15);
    assert("child_exit_zero"@[11] == 'z');
    assert("command"@.len() == 7);
    assert("complete"@.len() == 8);
    assert("duration_ms"@.len() == 11);
    assert("duration_ms"@[0] == 'd');
    assert("effective_argv"@.len() == 14);
    assert("effective_argv"@[0] == 'e');
    assert("effective_argv"@[1] == 'f');
    assert("encoding_suspects"@.len() == 17);
    assert("encoding_suspects"@[0] == 'e');
    assert("executable"@.len() == 10);
    assert("execution_mode"@.len() == 14);
    assert("execution_mode"@[0] == 'e');
    assert("execution_mode"@[1] == 'x');
    assert("exit_expected"@.len() == 13);
    assert("expected_exit_codes"@.len() == 19);
    assert("output_cap_arguments"@.len() == 20);
    assert("output_truncated"@.len() == 16);
    assert("profile"@.len() == 7);
    assert("result"@.len() == 6);
    assert("result"@[0] == 'r');
    assert("schema"@.len() == 6);
    assert("schema"@[1] == 'c');
    assert("scope_complete"@.len() == 14);
    assert("scope_complete"@[0] == 's');
    assert("stderr"@.len() == 6);
    assert("stderr"@[0] == 's');
    assert("stderr"@[1] == 't');
    assert("stderr"@[3] == 'e');
    assert("stderr_text"@.len() == 11);
    assert("stderr_text"@[0] == 's');
    assert("stderr_text"@[3] == 'e');
    assert("stdout"@.len() == 6);
    assert("stdout"@[0] == 's');
    assert("stdout"@[1] == 't');
    assert("stdout"@[3] == 'o');
    assert("stdout_text"@.len() == 11);
    assert("stdout_text"@[0] == 's');
    assert("stdout_text"@[3] == 'o');
    assert("tool"@.len() == 4);
    assert("tool"@[0] == 't');
}

/// The exit codes that several lists name are those of the one and then those of the
/// other; without a list, zero is expected; and a code is read as the number that it
/// spells, white space round it aside.
pub proof fn exit_codes_are_listed(a: Seq<Seq<char>>, b: Seq<Seq<char>>, n: nat)
    ensures
        expected_codes(Seq::empty()) == Ok::<Seq<int>, Fault>(seq![0]),
        read_codes(a) is Ok && read_codes(b) is Ok ==> read_codes(a + b) == Ok::<Seq<int>, Fault>(
            read_codes(a)->Ok_0 + read_codes(b)->Ok_0,
        ),
        read_codes(a) is Err ==> read_codes(a + b) is Err,
        n <= i32::MAX ==> code_of(numbers::decimal(n)) == Ok::<int, Fault>(n as int),
        read_codes(a) matches Ok(codes) ==> codes.len() == a.len(),
    decreases b.len() + a.len(),
{
    numbers::lemma_decimal_reads_back(n);
    let text = numbers::decimal(n);
    assert(strings::is_digit(text[0]) && strings::is_digit(text[text.len() - 1]));
    strings::trimmed_text_stays(text);
    if a.len() > 0 {
        exit_codes_are_listed(a.drop_last(), Seq::empty(), n);
    }
    if b.len() > 0 {
        exit_codes_are_listed(a, b.drop_last(), n);
        assert((a + b).drop_last() =~= a + b.drop_last());
        if read_codes(a) is Ok && read_codes(b) is Ok {
            assert(read_codes(a + b)->Ok_0 =~= read_codes(a)->Ok_0 + read_codes(b)->Ok_0);
        }
    } else {
        assert(a + b =~= a);
        if read_codes(a) is Ok {
            assert(read_codes(a)->Ok_0 + read_codes(b)->Ok_0 =~= read_codes(a)->Ok_0);
        }
    }
}

/// A capture is expected to end as it did if and only if the child has a code and the
/// code is one of those listed; a child that a signal ended never is.
pub proof fn expected_ends_are_listed(exit: ChildExit, codes: Seq<i32>, code: i32, signal: i32)
    ensures
        exit.code == Some(code) ==> (exit.is_expected(codes) <==> (exists|i: int|
            0 <= i < codes.len() && #[trigger] codes[i] == code)),
        exit.code is None ==> !exit.is_expected(codes),
        exit.code == Some(code) ==> exit.status() == code,
        exit.code is None && exit.signal == Some(signal) ==> exit.status() == 128 + signal,
        exit.code is None && exit.signal is None ==> exit.status() == 1,
{
}

/// A command that the guard denies is not captured, unless the override is on; and one
/// that it lets through is captured where the request itself is in order.
pub proof fn denied_commands_are_not_captured(
    limits: CaptureLimits,
    argv: Seq<Seq<char>>,
    expect_exit: Seq<Seq<char>>,
    denied: Option<Seq<char>>,
)
    ensures
        denied is Some ==> capture_fault(limits, argv, expect_exit, denied, false) is Some,
        capture_fault(limits, argv, expect_exit, denied, true) == capture_fault(
            limits,
            argv,
            expect_exit,
            None,
            false,
        ),
        argv.len() == 0 ==> capture_fault(limits, argv, expect_exit, denied, true) is Some,
{
}

} // verus!
