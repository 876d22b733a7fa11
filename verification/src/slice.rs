//! A bounded window of one file, in lines or in characters.
use vstd::prelude::*;

use crate::encoding_suspects;
use crate::encoding_suspects::{scan_encoding_suspects_from_lines, EncodingSuspects};
use crate::json;
use crate::json::{
    add_item, add_member, json_array, json_count, json_object, json_text, Json, JsonValue,
};
use crate::numbers;
use crate::numbers::count_text;
use crate::output;
use crate::output::{
    clamp_text_with_status, Receipt, ReceiptCap, ReceiptModel, ReceiptResult,
};
use crate::strings;
use crate::strings::{chars_of, cut_string, push_text};
use crate::text;
use crate::text::{parse_line_range, RangeFault};

verus! {

/// The lines that are asked for.
#[derive(Debug, Clone, Copy, PartialEq, Eq, Structural)]
pub enum SliceWindowRequest {
    /// From one line to another, both counted from 1.
    Inclusive { start: usize, end: usize },
    /// The last lines.
    Tail { lines: usize },
}

/// The lines that are shown: none where `end` lies before `start`.
#[derive(Debug, Clone, Copy, PartialEq, Eq, Structural)]
pub struct SliceWindowPlan {
    pub start: usize,
    pub end: usize,
    pub output_truncated: bool,
}

/// Why there is no window.
#[derive(Debug, Clone, Copy, PartialEq, Eq, Structural)]
pub enum SliceFault {
    ZeroCeiling,
    LineZero,
    Inverted,
    ZeroTail,
    ZeroChars,
    /// Characters and lines are both asked for.
    MixedModes,
    /// Both a range and a tail are asked for.
    MixedWindows,
    Range(RangeFault),
}

impl SliceFault {
    pub open spec fn text(self, range: Seq<char>) -> Seq<char> {
        match self {
            SliceFault::ZeroCeiling => "slice --line-ceiling must be greater than zero"@,
            SliceFault::LineZero => "slice line numbers are 1-based; line 0 is invalid"@,
            SliceFault::Inverted => "slice end must be greater than or equal to start"@,
            SliceFault::ZeroTail => "slice --tail must be greater than zero"@,
            SliceFault::ZeroChars => "slice --chars must be greater than zero"@,
            SliceFault::MixedModes => "slice --char-start cannot be combined with --range or --tail"@,
            SliceFault::MixedWindows => "slice --tail cannot be combined with --range"@,
            SliceFault::Range(fault) => fault.text(range),
        }
    }

    /// What is said of a request that is refused; `range` is the range that it names.
    pub fn message(self, range: &str) -> (message: String)
        ensures
            message@ == self.text(range@),
    {
        match self {
            SliceFault::ZeroCeiling => "slice --line-ceiling must be greater than zero".to_owned(),
            SliceFault::LineZero => "slice line numbers are 1-based; line 0 is invalid".to_owned(),
            SliceFault::Inverted => "slice end must be greater than or equal to start".to_owned(),
            SliceFault::ZeroTail => "slice --tail must be greater than zero".to_owned(),
            SliceFault::ZeroChars => "slice --chars must be greater than zero".to_owned(),
            SliceFault::MixedModes =>
                "slice --char-start cannot be combined with --range or --tail".to_owned(),
            SliceFault::MixedWindows => "slice --tail cannot be combined with --range".to_owned(),
            SliceFault::Range(fault) => fault.message(range),
        }
    }
}

pub open spec fn window_fault(request: SliceWindowRequest, ceiling: nat) -> Option<SliceFault> {
    if ceiling == 0 {
        Some(SliceFault::ZeroCeiling)
    } else {
        match request {
            SliceWindowRequest::Inclusive { start, end } => if start == 0 || end == 0 {
                Some(SliceFault::LineZero)
            } else if end < start {
                Some(SliceFault::Inverted)
            } else {
                None
            },
            SliceWindowRequest::Tail { lines } => if lines == 0 {
                Some(SliceFault::ZeroTail)
            } else {
                None
            },
        }
    }
}

/// The lines of the file that are asked for: the first and the last of them.
pub open spec fn asked(total: nat, request: SliceWindowRequest) -> (int, int) {
    match request {
        SliceWindowRequest::Inclusive { start, end } => (
            start as int,
            numbers::least(end as nat, total) as int,
        ),
        SliceWindowRequest::Tail { lines } => (
            total - numbers::least(lines as nat, total) + 1,
            total as int,
        ),
    }
}

/// The lines that are shown: of a range its first lines, of a tail its last.
pub open spec fn shown(total: nat, request: SliceWindowRequest, ceiling: nat) -> (int, int) {
    let (first, last) = asked(total, request);
    if last < first {
        (first, first - 1)
    } else if last - first + 1 <= ceiling {
        (first, last)
    } else {
        match request {
            SliceWindowRequest::Inclusive { .. } => (first, first + ceiling - 1),
            SliceWindowRequest::Tail { .. } => (last - ceiling + 1, last),
        }
    }
}

/// Whether more lines of the file are asked for than are shown.
pub open spec fn is_truncated(total: nat, request: SliceWindowRequest, ceiling: nat) -> bool {
    let (first, last) = asked(total, request);
    last - first + 1 > ceiling
}

/// The lines that are asked for but not shown.
pub open spec fn remaining(total: nat, request: SliceWindowRequest, ceiling: nat) -> Option<
    (int, int),
> {
    let (first, last) = asked(total, request);
    let (from, to) = shown(total, request, ceiling);
    if !is_truncated(total, request, ceiling) {
        None
    } else {
        match request {
            SliceWindowRequest::Inclusive { .. } => Some((to + 1, last)),
            SliceWindowRequest::Tail { .. } => Some((first, from - 1)),
        }
    }
}

/// The lines that are shown lie in the file, are no more than the ceiling, and are,
/// with what is reported as remaining, exactly the lines that are asked for.
pub proof fn windows_are_bounded_and_continue(
    total: nat,
    request: SliceWindowRequest,
    ceiling: nat,
    line: int,
)
    requires
        window_fault(request, ceiling) is None,
    ensures
        ({
            let (first, last) = asked(total, request);
            let (from, to) = shown(total, request, ceiling);
            &&& to - from + 1 <= ceiling
            &&& from <= to ==> 1 <= from && to <= total
            &&& first <= line <= last <==> from <= line <= to || (remaining(
                total,
                request,
                ceiling,
            ) matches Some((a, b)) && a <= line <= b)
            &&& remaining(total, request, ceiling) matches Some((a, b)) ==> 1 <= a <= b <= total
                && !(from <= line <= to && a <= line <= b)
        }),
{
}

/// The lines that are shown of a file.
pub fn plan_slice_window(total_lines: usize, request: SliceWindowRequest, line_ceiling: usize) -> (plan:
    Result<SliceWindowPlan, SliceFault>)
    ensures
        match plan {
            Ok(plan) => {
                &&& window_fault(request, line_ceiling as nat) is None
                &&& (plan.start as int, plan.end as int) == shown(
                    total_lines as nat,
                    request,
                    line_ceiling as nat,
                )
                &&& plan.output_truncated == is_truncated(
                    total_lines as nat,
                    request,
                    line_ceiling as nat,
                )
            },
            Err(fault) => window_fault(request, line_ceiling as nat) == Some(fault),
        },
{
    if line_ceiling == 0 {
        return Err(SliceFault::ZeroCeiling);
    }
    match request {
        SliceWindowRequest::Inclusive { start, end } => {
            if start == 0 || end == 0 {
                return Err(SliceFault::LineZero);
            }
            if end < start {
                return Err(SliceFault::Inverted);
            }
            let last = if end <= total_lines {
                end
            } else {
                total_lines
            };
            if last < start {
                return Ok(SliceWindowPlan { start, end: start - 1, output_truncated: false });
            }
            if last - start < line_ceiling {
                return Ok(SliceWindowPlan { start, end: last, output_truncated: false });
            }
            Ok(
                SliceWindowPlan {
                    start,
                    end: start + (line_ceiling - 1),
                    output_truncated: true,
                },
            )
        },
        SliceWindowRequest::Tail { lines } => {
            if lines == 0 {
                return Err(SliceFault::ZeroTail);
            }
            if total_lines == 0 {
                return Ok(SliceWindowPlan { start: 1, end: 0, output_truncated: false });
            }
            let requested = if lines <= total_lines {
                lines
            } else {
                total_lines
            };
            let rendered = if requested <= line_ceiling {
                requested
            } else {
                line_ceiling
            };
            Ok(
                SliceWindowPlan {
                    start: total_lines - rendered + 1,
                    end: total_lines,
                    output_truncated: rendered < requested,
                },
            )
        },
    }
}

/// What is asked for of a file.
#[derive(Debug, Clone, Copy, PartialEq, Eq, Structural)]
pub enum SliceMode {
    Lines(SliceWindowRequest),
    Chars { start: usize, count: usize },
}

/// What is asked for of a file: characters, a tail, a range, or all of its lines.
pub open spec fn mode_of(
    range: Option<Seq<char>>,
    tail: Option<usize>,
    char_start: Option<usize>,
    chars: usize,
    ceiling: usize,
) -> Result<SliceMode, SliceFault> {
    if let Some(start) = char_start {
        if range is Some || tail is Some {
            Err(SliceFault::MixedModes)
        } else if chars == 0 {
            Err(SliceFault::ZeroChars)
        } else {
            Ok(SliceMode::Chars { start, count: chars })
        }
    } else if tail is Some && range is Some {
        Err(SliceFault::MixedWindows)
    } else {
        let request = match (tail, range) {
            (Some(lines), _) => Ok(SliceWindowRequest::Tail { lines }),
            (None, Some(range)) => match text::line_range(range) {
                Ok((start, end)) => Ok(
                    SliceWindowRequest::Inclusive { start: start as usize, end: end as usize },
                ),
                Err(fault) => Err(SliceFault::Range(fault)),
            },
            (None, None) => Ok(SliceWindowRequest::Inclusive { start: 1, end: usize::MAX }),
        };
        match request {
            Err(fault) => Err(fault),
            Ok(request) => match window_fault(request, ceiling as nat) {
                Some(fault) => Err(fault),
                None => Ok(SliceMode::Lines(request)),
            },
        }
    }
}

/// What is asked for of a file. Nothing that is given is ignored.
pub fn slice_mode(
    range: Option<&str>,
    tail: Option<usize>,
    char_start: Option<usize>,
    chars: usize,
    line_ceiling: usize,
) -> (mode: Result<SliceMode, SliceFault>)
    ensures
        mode == mode_of(strings::opt_text(range), tail, char_start, chars, line_ceiling),
{
    if let Some(start) = char_start {
        if range.is_some() || tail.is_some() {
            return Err(SliceFault::MixedModes);
        }
        if chars == 0 {
            return Err(SliceFault::ZeroChars);
        }
        return Ok(SliceMode::Chars { start, count: chars });
    }
    if tail.is_some() && range.is_some() {
        return Err(SliceFault::MixedWindows);
    }
    let request = match (tail, range) {
        (Some(lines), _) => SliceWindowRequest::Tail { lines },
        (None, Some(range)) => match parse_line_range(range) {
            Ok((start, end)) => SliceWindowRequest::Inclusive { start, end },
            Err(fault) => {
                return Err(SliceFault::Range(fault));
            },
        },
        (None, None) => SliceWindowRequest::Inclusive { start: 1, end: usize::MAX },
    };
    match plan_slice_window(0, request, line_ceiling) {
        Ok(_) => Ok(SliceMode::Lines(request)),
        Err(fault) => Err(fault),
    }
}

/// The lines of a file that are shown, with the limits that were given.
#[derive(Debug)]
pub struct SlicedLines {
    pub plan: SliceWindowPlan,
    /// The lines from `plan.start` on, cut to length.
    pub lines: Vec<String>,
    pub total_lines: usize,
    pub line_ceiling: usize,
    pub show_line_chars: usize,
    pub cut: bool,
    /// The lines that are asked for but not shown, as a range.
    pub remaining_range: Option<String>,
    /// What was found in all lines of the file.
    pub suspects: EncodingSuspects,
}

/// The lines that are shown, as they are in the file.
pub open spec fn window_lines(lines: Seq<Seq<char>>, request: SliceWindowRequest, ceiling: nat) -> Seq<
    Seq<char>,
> {
    let (from, to) = shown(lines.len(), request, ceiling);
    if to < from {
        Seq::empty()
    } else {
        lines.subrange(from - 1, to)
    }
}

pub open spec fn range_text(range: (int, int)) -> Seq<char> {
    numbers::decimal(range.0 as nat) + ":"@ + numbers::decimal(range.1 as nat)
}

impl SlicedLines {
    /// What is shown is what the request asks for, bounded as it says.
    pub open spec fn is_window(&self, lines: Seq<Seq<char>>, request: SliceWindowRequest) -> bool {
        let window = window_lines(lines, request, self.line_ceiling as nat);
        &&& (self.plan.start as int, self.plan.end as int) == shown(
            lines.len(),
            request,
            self.line_ceiling as nat,
        )
        &&& self.plan.output_truncated == is_truncated(
            lines.len(),
            request,
            self.line_ceiling as nat,
        )
        &&& strings::texts(self.lines@) == output::clamp_all(window, self.show_line_chars as nat)
        &&& self.total_lines == lines.len()
        &&& self.cut == output::some_is_longer(window, self.show_line_chars as nat)
        &&& strings::text_option(self.remaining_range) == (match remaining(
            lines.len(),
            request,
            self.line_ceiling as nat,
        ) {
            Some(range) => Some(range_text(range)),
            None => None,
        })
        &&& self.suspects@ == encoding_suspects::Suspects::in_lines(lines, false, lines.len())
    }

    pub open spec fn well_formed(&self) -> bool {
        &&& self.lines@.len() <= self.total_lines
        &&& self.plan.start >= 1
        &&& self.lines@.len() > 0 ==> self.plan.start + self.lines@.len() - 1 == self.plan.end
        &&& self.lines@.len() == 0 ==> self.plan.end + 1 == self.plan.start
    }
}

fn range_of(start: usize, end: usize) -> (text: String)
    ensures
        text@ == range_text((start as int, end as int)),
{
    count_text(start).concat(":").concat(count_text(end).as_str())
}

/// The lines of a file that a request shows.
pub fn slice_lines(
    lines: &[String],
    request: SliceWindowRequest,
    line_ceiling: usize,
    show_line_chars: usize,
) -> (sliced: Result<SlicedLines, SliceFault>)
    ensures
        match sliced {
            Ok(sliced) => {
                &&& window_fault(request, line_ceiling as nat) is None
                &&& sliced.is_window(strings::texts(lines@), request)
                &&& sliced.line_ceiling == line_ceiling
                &&& sliced.show_line_chars == show_line_chars
                &&& sliced.well_formed()
            },
            Err(fault) => window_fault(request, line_ceiling as nat) == Some(fault),
        },
{
    let ghost texts = strings::texts(lines@);
    assert(texts.len() == lines@.len());
    let plan = match plan_slice_window(lines.len(), request, line_ceiling) {
        Ok(plan) => plan,
        Err(fault) => {
            return Err(fault);
        },
    };
    proof {
        windows_are_bounded_and_continue(texts.len(), request, line_ceiling as nat, 0);
    }
    let (from, to): (usize, usize) = if plan.end < plan.start {
        (0, 0)
    } else {
        (plan.start - 1, plan.end)
    };
    assert(texts.subrange(from as int, to as int) =~= window_lines(
        texts,
        request,
        line_ceiling as nat,
    ));
    let (kept, cut) = clamp_range(lines, from, to, show_line_chars);
    assert(strings::texts(kept@).len() == kept@.len());
    let remaining_range = remaining_text(lines.len(), request, line_ceiling, &plan);
    Ok(
        SlicedLines {
            plan,
            lines: kept,
            total_lines: lines.len(),
            line_ceiling,
            show_line_chars,
            cut,
            remaining_range,
            suspects: scan_encoding_suspects_from_lines(lines, false),
        },
    )
}

fn clamp_range(lines: &[String], from: usize, to: usize, max_chars: usize) -> (clamped: (
    Vec<String>,
    bool,
))
    requires
        from <= to <= lines@.len(),
    ensures
        ({
            let window = strings::texts(lines@).subrange(from as int, to as int);
            &&& strings::texts(clamped.0@) == output::clamp_all(window, max_chars as nat)
            &&& clamped.1 == output::some_is_longer(window, max_chars as nat)
        }),
{
    let ghost texts = strings::texts(lines@);
    let ghost window = texts.subrange(from as int, to as int);
    let ghost wanted = output::clamp_all(window, max_chars as nat);
    let mut kept: Vec<String> = Vec::new();
    let mut cut = false;
    let mut i: usize = from;
    assert(strings::texts(kept@) =~= wanted.take(0));
    while i < to
        invariant
            from <= i <= to <= lines@.len(),
            texts == strings::texts(lines@),
            window == texts.subrange(from as int, to as int),
            wanted == output::clamp_all(window, max_chars as nat),
            strings::texts(kept@) == wanted.take(i - from),
            cut == exists|k: int|
                0 <= k < i - from && (#[trigger] window[k]).len() > max_chars,
        decreases to - i,
    {
        let ghost k = i - from;
        assert(texts[i as int] == lines@[i as int]@);
        assert(window[k] == texts[i as int]);
        let status = clamp_text_with_status(lines[i].as_str(), max_chars);
        cut = cut || status.truncated;
        push_text(&mut kept, status.text);
        assert(wanted.take(k + 1) =~= wanted.take(k).push(wanted[k]));
        i += 1;
    }
    assert(wanted.take(i - from) =~= wanted);
    (kept, cut)
}

fn remaining_text(
    total: usize,
    request: SliceWindowRequest,
    ceiling: usize,
    plan: &SliceWindowPlan,
) -> (text: Option<String>)
    requires
        window_fault(request, ceiling as nat) is None,
        (plan.start as int, plan.end as int) == shown(total as nat, request, ceiling as nat),
        plan.output_truncated == is_truncated(total as nat, request, ceiling as nat),
    ensures
        strings::text_option(text) == (match remaining(total as nat, request, ceiling as nat) {
            Some(range) => Some(range_text(range)),
            None => None,
        }),
{
    if !plan.output_truncated {
        return None;
    }
    proof {
        windows_are_bounded_and_continue(total as nat, request, ceiling as nat, 0);
    }
    match request {
        SliceWindowRequest::Inclusive { start, end } => {
            let last = if end <= total {
                end
            } else {
                total
            };
            Some(range_of(plan.end + 1, last))
        },
        SliceWindowRequest::Tail { lines } => {
            let requested = if lines <= total {
                lines
            } else {
                total
            };
            Some(range_of(total - requested + 1, plan.start - 1))
        },
    }
}

pub open spec fn line_json(number: nat, line: Seq<char>) -> Json {
    Json::Object(seq![("line"@, json::count_json(number)), ("text"@, Json::Text(line))])
}

fn line_value(number: usize, line: &str) -> (value: JsonValue)
    ensures
        value@ == line_json(number as nat, line@),
{
    let mut members: Vec<(String, JsonValue)> = Vec::new();
    assert(json::member_models(members@) =~= Seq::empty());
    add_member(&mut members, "line", json_count(number));
    add_member(&mut members, "text", json_text(line));
    let value = json_object(members);
    assert(value@->Object_0 =~= line_json(number as nat, line@)->Object_0);
    value
}

impl SlicedLines {
    pub open spec fn caps(&self) -> Seq<output::Cap> {
        (if self.plan.output_truncated {
            seq![output::output_cap("lines"@, self.line_ceiling as nat, "--line-ceiling"@)]
        } else {
            Seq::empty()
        }) + (if self.cut {
            seq![
                output::output_cap(
                    "line_characters"@,
                    self.show_line_chars as nat,
                    "--show-line-chars"@,
                ),
            ]
        } else {
            Seq::empty()
        })
    }

    pub open spec fn lines_json(&self) -> Json {
        Json::Array(
            Seq::new(
                self.lines@.len(),
                |i: int| line_json((self.plan.start + i) as nat, self.lines@[i]@),
            ),
        )
    }

    pub open spec fn fields(&self, path: Seq<char>, encoding: Seq<char>, with_lines: bool) -> Seq<
        (Seq<char>, Json),
    > {
        seq![
            ("path"@, Json::Text(path)),
            ("mode"@, Json::Text("lines"@)),
            ("encoding"@, Json::Text(encoding)),
            ("start"@, json::count_json(self.plan.start as nat)),
            ("end"@, json::count_json(self.plan.end as nat)),
            ("total_lines"@, json::count_json(self.total_lines as nat)),
        ] + self.suspects@.field() + (match self.remaining_range {
            Some(range) => seq![("remaining_range"@, Json::Text(range@))],
            None => Seq::empty(),
        }) + (if with_lines {
            seq![("lines"@, self.lines_json())]
        } else {
            Seq::empty()
        })
    }

    fn lines_value(&self) -> (value: JsonValue)
        requires
            self.well_formed(),
        ensures
            value@ == self.lines_json(),
    {
        let ghost wanted = self.lines_json()->Array_0;
        let mut items: Vec<JsonValue> = Vec::new();
        let mut i: usize = 0;
        assert(json::item_models(items@) =~= wanted.take(0));
        while i < self.lines.len()
            invariant
                i <= self.lines.len(),
                self.well_formed(),
                wanted == self.lines_json()->Array_0,
                json::item_models(items@) == wanted.take(i as int),
            decreases self.lines.len() - i,
        {
            add_item(&mut items, line_value(self.plan.start + i, self.lines[i].as_str()));
            assert(wanted.take(i + 1) =~= wanted.take(i as int).push(wanted[i as int]));
            i += 1;
        }
        assert(wanted.take(i as int) =~= wanted);
        json_array(items)
    }

    /// The receipt of the window; `with_lines` puts the lines into it.
    pub fn receipt(&self, profile: Option<&str>, path: &str, encoding: &str, with_lines: bool) -> (receipt:
        Receipt)
        requires
            self.well_formed(),
        ensures
            receipt.model() == (ReceiptModel {
                command: "slice"@,
                profile: strings::opt_text(profile),
                result: output::ResultCount {
                    unit: "lines"@,
                    total: self.total_lines as nat,
                    total_is_lower_bound: false,
                    shown: self.lines@.len(),
                },
                caps: self.caps(),
                fields: self.fields(path@, encoding@, with_lines),
            }),
            receipt.model().well_formed(),
    {
        let mut receipt = Receipt::new(
            "slice",
            profile,
            ReceiptResult::new("lines", self.total_lines, false, self.lines.len()),
        );
        if self.plan.output_truncated {
            receipt.add_cap(
                ReceiptCap::output("lines", Some(self.line_ceiling), "--line-ceiling"),
            );
        }
        if self.cut {
            receipt.add_cap(
                ReceiptCap::output(
                    "line_characters",
                    Some(self.show_line_chars),
                    "--show-line-chars",
                ),
            );
        }
        assert(receipt.model().caps =~= self.caps());
        let mut members: Vec<(String, JsonValue)> = Vec::new();
        assert(json::member_models(members@) =~= Seq::empty());
        add_member(&mut members, "path", json_text(path));
        add_member(&mut members, "mode", json_text("lines"));
        add_member(&mut members, "encoding", json_text(encoding));
        add_member(&mut members, "start", json_count(self.plan.start));
        add_member(&mut members, "end", json_count(self.plan.end));
        add_member(&mut members, "total_lines", json_count(self.total_lines));
        if !self.suspects.is_empty() {
            add_member(&mut members, "encoding_suspects", self.suspects.receipt_value());
        }
        if let Some(range) = &self.remaining_range {
            add_member(&mut members, "remaining_range", json_text(range.as_str()));
        }
        if with_lines {
            add_member(&mut members, "lines", self.lines_value());
        }
        let ghost fields = json::member_models(members@);
        proof {
            assert(fields =~= self.fields(path@, encoding@, with_lines));
            lemma_line_fields();
            let all = line_fields();
            output::lemma_fresh_without(all, 8);
            let some = if with_lines {
                all
            } else {
                all.remove(8)
            };
            output::lemma_fresh_without(some, 7);
            let fewer = if self.remaining_range is Some {
                some
            } else {
                some.remove(7)
            };
            output::lemma_fresh_without(fewer, 6);
            if self.suspects@.is_nothing() {
                assert(output::field_names(fields) =~= fewer.remove(6));
            } else {
                assert(output::field_names(fields) =~= fewer);
            }
        }
        receipt.insert_all(members);
        receipt
    }

    /// What is shown, line by line.
    pub open spec fn shown_rows(&self) -> Seq<Seq<char>> {
        Seq::new(
            self.lines@.len(),
            |i: int|
                numbers::decimal((self.plan.start + i) as nat) + ": "@ + self.lines@[i]@,
        ) + (if self.plan.output_truncated {
            seq![
                "[contextmink] capped slice at "@ + numbers::decimal(self.line_ceiling as nat)
                    + " lines; request a narrower range."@,
            ]
        } else {
            Seq::empty()
        }) + self.suspects@.notes()
    }

    /// What is shown, line by line.
    pub fn rows(&self) -> (rows: Vec<String>)
        requires
            self.well_formed(),
        ensures
            strings::texts(rows@) == self.shown_rows(),
    {
        let ghost wanted = self.shown_rows();
        let mut rows: Vec<String> = Vec::new();
        let mut i: usize = 0;
        assert(strings::texts(rows@) =~= wanted.take(0));
        while i < self.lines.len()
            invariant
                i <= self.lines.len(),
                self.well_formed(),
                wanted == self.shown_rows(),
                strings::texts(rows@) == wanted.take(i as int),
            decreases self.lines.len() - i,
        {
            push_text(
                &mut rows,
                count_text(self.plan.start + i).concat(": ").concat(self.lines[i].as_str()),
            );
            assert(wanted.take(i + 1) =~= wanted.take(i as int).push(wanted[i as int]));
            i += 1;
        }
        if self.plan.output_truncated {
            push_text(
                &mut rows,
                "[contextmink] capped slice at ".to_owned().concat(
                    count_text(self.line_ceiling).as_str(),
                ).concat(" lines; request a narrower range."),
            );
        }
        if !self.suspects.is_empty() {
            push_text(&mut rows, self.suspects.human_note());
        }
        assert(strings::texts(rows@) =~= wanted);
        rows
    }
}

/// The characters of a text from a place on, no more than so many of them.
pub open spec fn char_window(text: Seq<char>, start: int, count: int) -> Seq<char> {
    if start >= text.len() {
        Seq::empty()
    } else if count >= text.len() - start {
        text.skip(start)
    } else {
        text.subrange(start, start + count)
    }
}

/// The characters of a file that are shown.
#[derive(Debug)]
pub struct SlicedChars {
    pub char_start: usize,
    pub text: String,
    pub shown: usize,
    pub total_chars: usize,
}

impl SlicedChars {
    pub open spec fn well_formed(&self) -> bool {
        self.shown == self.text@.len() && self.shown <= self.total_chars
    }

    pub open spec fn fields(&self, path: Seq<char>, encoding: Seq<char>, with_text: bool) -> Seq<
        (Seq<char>, Json),
    > {
        seq![
            ("path"@, Json::Text(path)),
            ("mode"@, Json::Text("chars"@)),
            ("encoding"@, Json::Text(encoding)),
            ("char_start"@, json::count_json(self.char_start as nat)),
            ("total_chars"@, json::count_json(self.total_chars as nat)),
        ] + (if with_text {
            seq![("text"@, Json::Text(self.text@))]
        } else {
            Seq::empty()
        })
    }

    /// The receipt of the window; `with_text` puts the characters into it.
    pub fn receipt(&self, profile: Option<&str>, path: &str, encoding: &str, with_text: bool) -> (receipt:
        Receipt)
        requires
            self.well_formed(),
        ensures
            receipt.model() == (ReceiptModel {
                command: "slice"@,
                profile: strings::opt_text(profile),
                result: output::ResultCount {
                    unit: "chars"@,
                    total: self.total_chars as nat,
                    total_is_lower_bound: false,
                    shown: self.text@.len(),
                },
                caps: Seq::empty(),
                fields: self.fields(path@, encoding@, with_text),
            }),
            receipt.model().well_formed(),
    {
        let mut receipt = Receipt::new(
            "slice",
            profile,
            ReceiptResult::new("chars", self.total_chars, false, self.shown),
        );
        let mut members: Vec<(String, JsonValue)> = Vec::new();
        assert(json::member_models(members@) =~= Seq::empty());
        add_member(&mut members, "path", json_text(path));
        add_member(&mut members, "mode", json_text("chars"));
        add_member(&mut members, "encoding", json_text(encoding));
        add_member(&mut members, "char_start", json_count(self.char_start));
        add_member(&mut members, "total_chars", json_count(self.total_chars));
        if with_text {
            add_member(&mut members, "text", json_text(self.text.as_str()));
        }
        let ghost fields = json::member_models(members@);
        proof {
            assert(fields =~= self.fields(path@, encoding@, with_text));
            lemma_char_fields();
            output::lemma_fresh_without(char_fields(), 5);
            if with_text {
                assert(output::field_names(fields) =~= char_fields());
            } else {
                assert(output::field_names(fields) =~= char_fields().remove(5));
            }
        }
        receipt.insert_all(members);
        receipt
    }
}

/// A text without the line feed that ends it.
pub open spec fn unended(text: Seq<char>) -> Seq<char> {
    if text.len() > 0 && text.last() == '\n' {
        text.drop_last()
    } else {
        text
    }
}

impl SlicedChars {
    /// What is shown: the characters, whose last line is ended where it is not yet.
    pub fn rows(&self) -> (rows: Vec<String>)
        ensures
            strings::texts(rows@) == seq![unended(self.text@)],
    {
        let chars = chars_of(self.text.as_str());
        let n: usize = chars.len();
        let row = if n > 0 && chars[n - 1] == '\n' {
            let part = cut_string(&chars, 0, n - 1);
            assert(part@ =~= self.text@.drop_last());
            part
        } else {
            self.text.clone()
        };
        let mut rows: Vec<String> = Vec::new();
        rows.push(row);
        assert(strings::texts(rows@) =~= seq![unended(self.text@)]);
        rows
    }
}

/// The characters of a file that a request shows.
pub fn slice_chars(text: &str, char_start: usize, count: usize) -> (sliced: SlicedChars)
    ensures
        sliced.char_start == char_start,
        sliced.text@ == char_window(text@, char_start as int, count as int),
        sliced.total_chars == text@.len(),
        sliced.well_formed(),
{
    let chars = chars_of(text);
    let start = if char_start <= chars.len() {
        char_start
    } else {
        chars.len()
    };
    let end = if count >= chars.len() - start {
        chars.len()
    } else {
        start + count
    };
    let window = cut_string(&chars, start, end);
    assert(window@ =~= char_window(text@, char_start as int, count as int));
    SlicedChars { char_start, text: window, shown: end - start, total_chars: chars.len() }
}

pub open spec fn line_fields() -> Seq<Seq<char>> {
    seq![
        "path"@,
        "mode"@,
        "encoding"@,
        "start"@,
        "end"@,
        "total_lines"@,
        "encoding_suspects"@,
        "remaining_range"@,
        "lines"@,
    ]
}

/// The field names can stand beside each other.
proof fn lemma_line_fields()
    ensures
        output::fresh_names(line_fields()),
{
    reveal_strlit("schema");
    reveal_strlit("tool");
    reveal_strlit("command");
    reveal_strlit("profile");
    reveal_strlit("duration_ms");
    reveal_strlit("scope_complete");
    reveal_strlit("output_truncated");
    reveal_strlit("complete");
    reveal_strlit("caps");
    reveal_strlit("result");
    reveal_strlit("output_cap_arguments");
    reveal_strlit("path");
    reveal_strlit("mode");
    reveal_strlit("encoding");
    reveal_strlit("start");
    reveal_strlit("end");
    reveal_strlit("total_lines");
    reveal_strlit("encoding_suspects");
    reveal_strlit("remaining_range");
    reveal_strlit("lines");
    assert("caps"@.len() == 4);
    assert("caps"@[0] == 'c');
    assert("command"@.len() == 7);
    assert("complete"@.len() == 8);
    assert("complete"@[0] == 'c');
    assert("duration_ms"@.len() == 11);
    assert("duration_ms"@[0] == 'd');
    assert("encoding"@.len() == 8);
    assert("encoding"@[0] == 'e');
    assert("encoding_suspects"@.len() == 17);
    assert("end"@.len() == 3);
    assert("lines"@.len() == 5);
    assert("lines"@[0] == 'l');
    assert("mode"@.len() == 4);
    assert("mode"@[0] == 'm');
    assert("output_cap_arguments"@.len() == 20);
    assert("output_truncated"@.len() == 16);
    assert("path"@.len() == 4);
    assert("path"@[0] == 'p');
    assert("profile"@.len() == 7);
    assert("remaining_range"@.len() == 15);
    assert("result"@.len() == 6);
    assert("schema"@.len() == 6);
    assert("scope_complete"@.len() == 14);
    assert("start"@.len() == 5);
    assert("start"@[0] == 's');
    assert("tool"@.len() == 4);
    assert("tool"@[0] == 't');
    assert("total_lines"@.len() == 11);
    assert("total_lines"@[0] == 't');
}

pub open spec fn char_fields() -> Seq<Seq<char>> {
    seq![
        "path"@,
        "mode"@,
        "encoding"@,
        "char_start"@,
        "total_chars"@,
        "text"@,
    ]
}

/// The field names can stand beside each other.
proof fn lemma_char_fields()
    ensures
        output::fresh_names(char_fields()),
{
    reveal_strlit("schema");
    reveal_strlit("tool");
    reveal_strlit("command");
    reveal_strlit("profile");
    reveal_strlit("duration_ms");
    reveal_strlit("scope_complete");
    reveal_strlit("output_truncated");
    reveal_strlit("complete");
    reveal_strlit("caps");
    reveal_strlit("result");
    reveal_strlit("output_cap_arguments");
    reveal_strlit("path");
    reveal_strlit("mode");
    reveal_strlit("encoding");
    reveal_strlit("char_start");
    reveal_strlit("total_chars");
    reveal_strlit("text");
    assert("caps"@.len() == 4);
    assert("caps"@[0] == 'c');
    assert("char_start"@.len() == 10);
    assert("command"@.len() == 7);
    assert("complete"@.len() == 8);
    assert("complete"@[0] == 'c');
    assert("duration_ms"@.len() == 11);
    assert("duration_ms"@[0] == 'd');
    assert("encoding"@.len() == 8);
    assert("encoding"@[0] == 'e');
    assert("mode"@.len() == 4);
    assert("mode"@[0] == 'm');
    assert("output_cap_arguments"@.len() == 20);
    assert("output_truncated"@.len() == 16);
    assert("path"@.len() == 4);
    assert("path"@[0] == 'p');
    assert("profile"@.len() == 7);
    assert("result"@.len() == 6);
    assert("schema"@.len() == 6);
    assert("scope_complete"@.len() == 14);
    assert("text"@.len() == 4);
    assert("text"@[0] == 't');
    assert("text"@[1] == 'e');
    assert("tool"@.len() == 4);
    assert("tool"@[0] == 't');
    assert("tool"@[1] == 'o');
    assert("total_chars"@.len() == 11);
    assert("total_chars"@[0] == 't');
}

/// A range shows the lines of the file from its start on, in order, up to its end, the
/// end of the file or the ceiling, whichever comes first; a tail shows the last lines of
/// the file, as many as it asks for, there are, or the ceiling allows.
pub proof fn windows_show_the_lines_asked_for(
    lines: Seq<Seq<char>>,
    start: usize,
    end: usize,
    tail: usize,
    ceiling: nat,
)
    requires
        ceiling > 0,
        1 <= start <= end,
        tail > 0,
    ensures
        ({
            let range = window_lines(lines, SliceWindowRequest::Inclusive { start, end }, ceiling);
            let last = window_lines(lines, SliceWindowRequest::Tail { lines: tail }, ceiling);
            &&& start > lines.len() ==> range.len() == 0
            &&& start <= lines.len() ==> range.len() == numbers::least(
                ceiling,
                (numbers::least(end as nat, lines.len()) + 1 - start) as nat,
            )
            &&& forall|k: int| 0 <= k < range.len() ==> #[trigger] range[k] == lines[start - 1 + k]
            &&& last.len() == numbers::least(ceiling, numbers::least(tail as nat, lines.len()))
            &&& forall|k: int|
                0 <= k < last.len() ==> #[trigger] last[k] == lines[lines.len() - last.len() + k]
        }),
{
}

/// The lines that a range leaves over for the ceiling are shown by asking for what is
/// named as remaining: the text that names it is read back as that very range.
pub proof fn remaining_range_is_read_back(first: nat, last: nat, ceiling: usize)
    requires
        1 <= first <= last <= usize::MAX,
        ceiling > 0,
    ensures
        mode_of(Some(range_text((first as int, last as int))), None, None, 0, ceiling) == Ok::<
            SliceMode,
            SliceFault,
        >(
            SliceMode::Lines(
                SliceWindowRequest::Inclusive { start: first as usize, end: last as usize },
            ),
        ),
{
    let start = numbers::decimal(first);
    let end = numbers::decimal(last);
    reveal_strlit(":");
    let range = start + ":"@ + end;
    numbers::lemma_decimal_reads_back(first);
    numbers::lemma_decimal_reads_back(last);
    strings::lemma_find_class_bounds(range, strings::CharClass::Only(':'), 0);
    let at = strings::find_class(range, strings::CharClass::Only(':'), 0);
    assert(range[start.len() as int] == ':');
    if at < start.len() {
        assert(range[at] == start[at]);
        assert(strings::is_digit(start[at]));
    }
    assert(range.subrange(0, at) =~= start);
    assert(range.subrange(at + 1, range.len() as int) =~= end);
}

/// The characters that are shown of a text are those from the start on, as many as are
/// asked for or are left.
pub proof fn character_windows_follow_the_text(text: Seq<char>, start: nat, count: nat)
    ensures
        ({
            let window = char_window(text, start as int, count as int);
            &&& window.len() == numbers::least(count, numbers::minus(text.len(), start))
            &&& forall|k: int| 0 <= k < window.len() ==> #[trigger] window[k] == text[start + k]
        }),
        // Two windows that follow each other are one window of both lengths.
        forall|more: nat|
            char_window(text, start as int, count as int) + #[trigger] char_window(
                text,
                (start + count) as int,
                more as int,
            ) == char_window(text, start as int, (count + more) as int),
{
    assert forall|more: nat|
        char_window(text, start as int, count as int) + #[trigger] char_window(
            text,
            (start + count) as int,
            more as int,
        ) == char_window(text, start as int, (count + more) as int) by {
        assert(char_window(text, start as int, count as int) + char_window(
            text,
            (start + count) as int,
            more as int,
        ) =~= char_window(text, start as int, (count + more) as int));
    }
}

/// A slice whose receipt names no limit shows every line that is asked for, uncut.
pub proof fn unlimited_slice_shows_every_line(
    slice: SlicedLines,
    lines: Seq<Seq<char>>,
    start: usize,
    end: usize,
    i: int,
)
    requires
        slice.is_window(lines, SliceWindowRequest::Inclusive { start, end }),
        1 <= start <= end,
        slice.caps().len() == 0,
        start <= i <= end,
        i <= lines.len(),
    ensures
        start <= i < start + slice.lines@.len(),
        slice.lines@[i - start]@ == lines[i - 1],
{
    let request = SliceWindowRequest::Inclusive { start, end };
    let window = window_lines(lines, request, slice.line_ceiling as nat);
    let cut = output::clamp_all(window, slice.show_line_chars as nat);
    assert(window[i - start] == lines[i - 1]);
    assert(cut.len() == window.len());
    assert(strings::texts(slice.lines@).len() == slice.lines@.len());
    assert(strings::texts(slice.lines@)[i - start] == slice.lines@[i - start]@);
    if window[i - start].len() > slice.show_line_chars {
        assert(output::some_is_longer(window, slice.show_line_chars as nat));
    }
    assert(cut[i - start] == window[i - start]);
}

} // verus!
