use vstd::prelude::*;

use crate::duration::{u64_nanos_cap, Duration};
use crate::telemetry::{
    all_latency_metrics, frame_summary_of, latency_metric_name, summary_of, FrameTimingSummary,
    HistogramSummary, LatencyMetric, Telemetry,
};
use crate::text::{decimal, push_char, push_decimal};

verus! {

/// Which sensitive fields a diagnostic export would carry.
#[derive(Debug, Clone, Copy, PartialEq, Eq, Structural)]
pub struct DiagnosticPrivacy {
    pub include_paths: bool,
    pub include_query_text: bool,
    pub include_user_identifiers: bool,
}

impl Default for DiagnosticPrivacy {
    /// No sensitive field.
    fn default() -> (p: DiagnosticPrivacy)
        ensures
            !p.include_paths && !p.include_query_text && !p.include_user_identifiers,
    {
        DiagnosticPrivacy {
            include_paths: false,
            include_query_text: false,
            include_user_identifiers: false,
        }
    }
}

/// The verdict of a privacy review: approved when no field is blocked.
#[derive(Debug, Clone, PartialEq, Eq)]
pub struct PrivacyReview {
    pub approved: bool,
    pub blocked_fields: Vec<&'static str>,
}

/// The fields that `privacy` would carry and an export refuses, in order.
pub open spec fn blocked_fields_of(privacy: DiagnosticPrivacy) -> Seq<Seq<char>> {
    (if privacy.include_paths {
        seq!["paths"@]
    } else {
        Seq::empty()
    }) + (if privacy.include_query_text {
        seq!["query_text"@]
    } else {
        Seq::empty()
    }) + (if privacy.include_user_identifiers {
        seq!["user_identifiers"@]
    } else {
        Seq::empty()
    })
}

/// The plain values of static strings.
pub open spec fn static_views(v: Seq<&'static str>) -> Seq<Seq<char>> {
    v.map_values(|s: &'static str| s@)
}

impl DiagnosticPrivacy {
    /// Reviews an export: every sensitive field it would carry is blocked,
    /// and it is approved only when none is.
    pub fn review(self) -> (r: PrivacyReview)
        ensures
            static_views(r.blocked_fields@) == blocked_fields_of(self),
            r.approved == (blocked_fields_of(self).len() == 0),
    {
        let mut blocked_fields: Vec<&'static str> = Vec::new();
        if self.include_paths {
            blocked_fields.push("paths");
        }
        let ghost a = static_views(blocked_fields@);
        if self.include_query_text {
            blocked_fields.push("query_text");
        }
        let ghost b = static_views(blocked_fields@);
        if self.include_user_identifiers {
            blocked_fields.push("user_identifiers");
        }
        proof {
            assert(static_views(blocked_fields@) =~= blocked_fields_of(self));
        }
        PrivacyReview { approved: blocked_fields.len() == 0, blocked_fields }
    }
}

/// Where an export went: its path, its size and the review that let it
/// through.
#[derive(Debug, Clone, PartialEq, Eq)]
pub struct DiagnosticExportReceipt {
    pub path: String,
    pub bytes_written: u64,
    pub privacy: PrivacyReview,
}

/// Why an export failed.
#[derive(Debug, Clone, PartialEq, Eq)]
pub enum DiagnosticExportError {
    Cancelled,
    Privacy(PrivacyReview),
    Io { path: String, message: String },
}

/// Fields joined by `, `.
pub open spec fn joined_fields(fields: Seq<Seq<char>>) -> Seq<char>
    decreases fields.len(),
{
    if fields.len() == 0 {
        Seq::empty()
    } else if fields.len() == 1 {
        fields[0]
    } else {
        joined_fields(fields.drop_last()) + ", "@ + fields.last()
    }
}

/// The text of an export error.
pub open spec fn export_error_text(e: DiagnosticExportError) -> Seq<char> {
    match e {
        DiagnosticExportError::Cancelled => "diagnostic export cancelled"@,
        DiagnosticExportError::Privacy(r) => "diagnostic export rejected by privacy review: "@
            + joined_fields(static_views(r.blocked_fields@)),
        DiagnosticExportError::Io { path, message } => path@ + ": "@ + message@,
    }
}

impl DiagnosticExportError {
    /// The text of the error.
    pub fn message(&self) -> (s: String)
        ensures
            s@ == export_error_text(*self),
    {
        match self {
            DiagnosticExportError::Cancelled => String::from_str("diagnostic export cancelled"),
            DiagnosticExportError::Privacy(r) => {
                let mut s = String::from_str("diagnostic export rejected by privacy review: ");
                let ghost start = s@;
                let ghost fv = static_views(r.blocked_fields@);
                let mut i: usize = 0;
                proof {
                    assert(fv.take(0) =~= Seq::<Seq<char>>::empty());
                    assert(s@ =~= start + joined_fields(fv.take(0)));
                }
                while i < r.blocked_fields.len()
                    invariant
                        fv == static_views(r.blocked_fields@),
                        i <= fv.len(),
                        s@ == start + joined_fields(fv.take(i as int)),
                    decreases fv.len() - i,
                {
                    if i > 0 {
                        s.append(", ");
                    }
                    s.append(r.blocked_fields[i]);
                    proof {
                        assert(fv.take(i as int + 1).drop_last() =~= fv.take(i as int));
                        assert(fv[i as int] == r.blocked_fields@[i as int]@);
                        if i == 0 {
                            assert(fv.take(1) =~= seq![fv[0]]);
                        }
                        assert(s@ =~= start + joined_fields(fv.take(i as int + 1)));
                    }
                    i = i + 1;
                }
                proof {
                    assert(fv.take(i as int) =~= fv);
                }
                s
            },
            DiagnosticExportError::Io { path, message } => {
                let mut s = path.clone();
                s.append(": ");
                s.append(message.as_str());
                s
            },
        }
    }
}

/// The characters of the Unicode general category Cc.
pub open spec fn is_control_char(c: char) -> bool {
    (c as u32) <= 0x1f || (0x7f <= (c as u32) && (c as u32) <= 0x9f)
}

/// The lowercase hexadecimal digit of `d < 16`.
pub open spec fn hex_digit(d: int) -> char {
    if d < 10 {
        ((d + 48) as u8) as char
    } else {
        ((d + 87) as u8) as char
    }
}

/// `\u` and four lowercase hexadecimal digits of `n < 0x10000`.
pub open spec fn unicode_escape(n: int) -> Seq<char> {
    seq![
        '\\',
        'u',
        hex_digit((n / 4096) % 16),
        hex_digit((n / 256) % 16),
        hex_digit((n / 16) % 16),
        hex_digit(n % 16),
    ]
}

/// The JSON escape of one character.
pub open spec fn json_escape_char(c: char) -> Seq<char> {
    if c == '"' {
        seq!['\\', '"']
    } else if c == '\\' {
        seq!['\\', '\\']
    } else if c == '\n' {
        seq!['\\', 'n']
    } else if c == '\r' {
        seq!['\\', 'r']
    } else if c == '\t' {
        seq!['\\', 't']
    } else if is_control_char(c) {
        unicode_escape(c as int)
    } else {
        seq![c]
    }
}

/// The JSON escape of a text, character by character.
pub open spec fn json_escaped(s: Seq<char>) -> Seq<char>
    decreases s.len(),
{
    if s.len() == 0 {
        Seq::empty()
    } else {
        json_escaped(s.drop_last()) + json_escape_char(s.last())
    }
}

fn hex(d: u32) -> (c: char)
    requires
        d < 16,
    ensures
        c == hex_digit(d as int),
{
    if d < 10 {
        ((d + 48) as u8) as char
    } else {
        ((d + 87) as u8) as char
    }
}

/// The JSON escape of `input`.
pub fn escape_json(input: &str) -> (s: String)
    ensures
        s@ == json_escaped(input@),
{
    let mut out = String::new();
    let n = input.unicode_len();
    let mut i: usize = 0;
    proof {
        assert(input@.take(0) =~= Seq::<char>::empty());
    }
    while i < n
        invariant
            n == input@.len(),
            i <= n,
            out@ == json_escaped(input@.take(i as int)),
        decreases n - i,
    {
        let c = input.get_char(i);
        let ghost before = out@;
        let code = c as u32;
        if c == '"' {
            push_char(&mut out, '\\');
            push_char(&mut out, '"');
        } else if c == '\\' {
            push_char(&mut out, '\\');
            push_char(&mut out, '\\');
        } else if c == '\n' {
            push_char(&mut out, '\\');
            push_char(&mut out, 'n');
        } else if c == '\r' {
            push_char(&mut out, '\\');
            push_char(&mut out, 'r');
        } else if c == '\t' {
            push_char(&mut out, '\\');
            push_char(&mut out, 't');
        } else if code <= 0x1f || (0x7f <= code && code <= 0x9f) {
            push_char(&mut out, '\\');
            push_char(&mut out, 'u');
            push_char(&mut out, hex((code / 4096) % 16));
            push_char(&mut out, hex((code / 256) % 16));
            push_char(&mut out, hex((code / 16) % 16));
            push_char(&mut out, hex(code % 16));
        } else {
            push_char(&mut out, c);
        }
        proof {
            assert(input@.take(i as int + 1).drop_last() =~= input@.take(i as int));
            assert(input@.take(i as int + 1).last() == c);
            assert(out@ =~= before + json_escape_char(c));
        }
        i = i + 1;
    }
    proof {
        assert(input@.take(n as int) =~= input@);
    }
    out
}


/// `n` levels of two-space indentation.
pub open spec fn indent_text(n: nat) -> Seq<char>
    decreases n,
{
    if n == 0 {
        Seq::empty()
    } else {
        indent_text((n - 1) as nat) + "  "@
    }
}

/// The indented, quoted and escaped name of a value, and `: `.
pub open spec fn key_text(indent: nat, name: Seq<char>) -> Seq<char> {
    indent_text(indent) + "\""@ + json_escaped(name) + "\": "@
}

/// The end of a value: a comma where one follows, then a line feed.
pub open spec fn end_text(comma: bool) -> Seq<char> {
    if comma {
        ",\n"@
    } else {
        "\n"@
    }
}

/// A number entry.
pub open spec fn u64_entry(indent: nat, name: Seq<char>, v: u64, comma: bool) -> Seq<char> {
    key_text(indent, name) + decimal(v as nat) + end_text(comma)
}

/// A boolean entry.
pub open spec fn bool_entry(indent: nat, name: Seq<char>, b: bool, comma: bool) -> Seq<char> {
    key_text(indent, name) + (if b {
        "true"@
    } else {
        "false"@
    }) + end_text(comma)
}

/// A null entry.
pub open spec fn null_entry(indent: nat, name: Seq<char>, comma: bool) -> Seq<char> {
    key_text(indent, name) + "null"@ + end_text(comma)
}

/// A duration entry, in nanoseconds capped at the largest 64-bit value.
pub open spec fn duration_entry(indent: nat, name: Seq<char>, d: Duration, comma: bool) -> Seq<char> {
    u64_entry(indent, name, u64_nanos_cap(d@) as u64, comma)
}

/// An optional duration entry: null where there is none.
pub open spec fn opt_duration_entry(indent: nat, name: Seq<char>, d: Option<Duration>, comma: bool) -> Seq<char> {
    match d {
        Some(x) => duration_entry(indent, name, x, comma),
        None => null_entry(indent, name, comma),
    }
}

/// The opening line of an object entry.
pub open spec fn object_start(indent: nat, name: Seq<char>) -> Seq<char> {
    indent_text(indent) + "\""@ + json_escaped(name) + "\": {\n"@
}

/// The closing line of an object entry.
pub open spec fn object_end(indent: nat, comma: bool) -> Seq<char> {
    indent_text(indent) + "}"@ + end_text(comma)
}

/// Quoted, escaped strings joined by `, `.
pub open spec fn quoted_list(values: Seq<Seq<char>>) -> Seq<char>
    decreases values.len(),
{
    if values.len() == 0 {
        Seq::empty()
    } else if values.len() == 1 {
        "\""@ + json_escaped(values[0]) + "\""@
    } else {
        quoted_list(values.drop_last()) + ", \""@ + json_escaped(values.last()) + "\""@
    }
}

/// A string array entry.
pub open spec fn string_array_entry(indent: nat, name: Seq<char>, values: Seq<Seq<char>>, comma: bool) -> Seq<char> {
    key_text(indent, name) + "["@ + quoted_list(values) + "]"@ + end_text(comma)
}

/// The object entry of a histogram summary.
pub open spec fn histogram_block(indent: nat, name: Seq<char>, s: HistogramSummary, comma: bool) -> Seq<char> {
    let i = indent + 1;
    object_start(indent, name) + u64_entry(i, "count"@, s.count, true) + opt_duration_entry(
        i,
        "min_ns"@,
        s.min,
        true,
    ) + opt_duration_entry(i, "max_ns"@, s.max, true) + opt_duration_entry(i, "mean_ns"@, s.mean, true)
        + opt_duration_entry(i, "p50_ns"@, s.p50, true) + opt_duration_entry(i, "p95_ns"@, s.p95, true)
        + opt_duration_entry(i, "p99_ns"@, s.p99, true) + u64_entry(i, "overflow"@, s.overflow, false)
        + object_end(indent, comma)
}

/// The histogram entries of the first `n` latency metrics.
pub open spec fn latency_blocks(summaries: Seq<HistogramSummary>, n: int) -> Seq<char>
    decreases n,
{
    if n <= 0 {
        Seq::empty()
    } else {
        latency_blocks(summaries, n - 1) + histogram_block(
            2,
            latency_metric_name(all_latency_metrics()[n - 1]),
            summaries[n - 1],
            n != all_latency_metrics().len(),
        )
    }
}

/// The diagnostic report: its schema version, the privacy review, the
/// summary of every latency metric and the frame timing.
pub open spec fn report_text(
    approved: bool,
    blocked: Seq<Seq<char>>,
    summaries: Seq<HistogramSummary>,
    frames: FrameTimingSummary,
) -> Seq<char> {
    "{\n"@ + u64_entry(1, "schema_version"@, 1, true) + object_start(1, "privacy"@) + bool_entry(
        2,
        "approved"@,
        approved,
        true,
    ) + string_array_entry(2, "blocked_fields"@, blocked, false) + object_end(1, true)
        + object_start(1, "latencies"@) + latency_blocks(summaries, 10) + object_end(1, true)
        + object_start(1, "frames"@) + duration_entry(2, "stall_threshold_ns"@, frames.stall_threshold, true)
        + u64_entry(2, "stall_count"@, frames.stall_count, true) + opt_duration_entry(
        2,
        "worst_stall_ns"@,
        frames.worst_stall,
        true,
    ) + histogram_block(2, "duration"@, frames.histogram, false) + object_end(1, false) + "}\n"@
}

fn push_indent(out: &mut String, indent: usize)
    ensures
        final(out)@ == old(out)@ + indent_text(indent as nat),
{
    let ghost start = out@;
    let mut i: usize = 0;
    while i < indent
        invariant
            i <= indent,
            out@ == start + indent_text(i as nat),
        decreases indent - i,
    {
        out.append("  ");
        proof {
            assert(out@ =~= start + indent_text((i + 1) as nat));
        }
        i = i + 1;
    }
}

fn push_key(out: &mut String, indent: usize, name: &str)
    ensures
        final(out)@ == old(out)@ + key_text(indent as nat, name@),
{
    let ghost start = out@;
    push_indent(out, indent);
    out.append("\"");
    let e = escape_json(name);
    out.append(e.as_str());
    out.append("\": ");
    proof {
        assert(out@ =~= start + key_text(indent as nat, name@));
    }
}

fn finish_value(out: &mut String, comma: bool)
    ensures
        final(out)@ == old(out)@ + end_text(comma),
{
    if comma {
        out.append(",\n");
    } else {
        out.append("\n");
    }
}

fn push_u64(out: &mut String, indent: usize, name: &str, value: u64, comma: bool)
    ensures
        final(out)@ == old(out)@ + u64_entry(indent as nat, name@, value, comma),
{
    let ghost start = out@;
    push_key(out, indent, name);
    push_decimal(out, value);
    finish_value(out, comma);
    proof {
        assert(out@ =~= start + u64_entry(indent as nat, name@, value, comma));
    }
}

fn push_bool(out: &mut String, indent: usize, name: &str, value: bool, comma: bool)
    ensures
        final(out)@ == old(out)@ + bool_entry(indent as nat, name@, value, comma),
{
    let ghost start = out@;
    push_key(out, indent, name);
    out.append(if value { "true" } else { "false" });
    finish_value(out, comma);
    proof {
        assert(out@ =~= start + bool_entry(indent as nat, name@, value, comma));
    }
}

fn push_null(out: &mut String, indent: usize, name: &str, comma: bool)
    ensures
        final(out)@ == old(out)@ + null_entry(indent as nat, name@, comma),
{
    let ghost start = out@;
    push_key(out, indent, name);
    out.append("null");
    finish_value(out, comma);
    proof {
        assert(out@ =~= start + null_entry(indent as nat, name@, comma));
    }
}

fn push_duration(out: &mut String, indent: usize, name: &str, value: Duration, comma: bool)
    ensures
        final(out)@ == old(out)@ + duration_entry(indent as nat, name@, value, comma),
{
    push_u64(out, indent, name, value.as_nanos_u64_saturating(), comma);
}

fn push_optional_duration(out: &mut String, indent: usize, name: &str, value: Option<Duration>, comma: bool)
    ensures
        final(out)@ == old(out)@ + opt_duration_entry(indent as nat, name@, value, comma),
{
    match value {
        Some(v) => push_duration(out, indent, name, v, comma),
        None => push_null(out, indent, name, comma),
    }
}

fn push_object_start(out: &mut String, indent: usize, name: &str)
    ensures
        final(out)@ == old(out)@ + object_start(indent as nat, name@),
{
    let ghost start = out@;
    push_indent(out, indent);
    out.append("\"");
    let e = escape_json(name);
    out.append(e.as_str());
    out.append("\": {\n");
    proof {
        assert(out@ =~= start + object_start(indent as nat, name@));
    }
}

fn push_object_end(out: &mut String, indent: usize, comma: bool)
    ensures
        final(out)@ == old(out)@ + object_end(indent as nat, comma),
{
    let ghost start = out@;
    push_indent(out, indent);
    out.append("}");
    finish_value(out, comma);
    proof {
        assert(out@ =~= start + object_end(indent as nat, comma));
    }
}

fn push_string_array(out: &mut String, indent: usize, name: &str, values: &Vec<&'static str>, comma: bool)
    ensures
        final(out)@ == old(out)@ + string_array_entry(indent as nat, name@, static_views(values@), comma),
{
    let ghost start = out@;
    push_key(out, indent, name);
    out.append("[");
    let ghost mid = out@;
    let ghost vv = static_views(values@);
    let mut i: usize = 0;
    proof {
        assert(vv.take(0) =~= Seq::<Seq<char>>::empty());
        assert(out@ =~= mid + quoted_list(vv.take(0)));
    }
    while i < values.len()
        invariant
            vv == static_views(values@),
            i <= vv.len(),
            out@ == mid + quoted_list(vv.take(i as int)),
        decreases vv.len() - i,
    {
        if i != 0 {
            out.append(", ");
        }
        out.append("\"");
        let e = escape_json(values[i]);
        out.append(e.as_str());
        out.append("\"");
        proof {
            reveal_strlit(", ");
            reveal_strlit("\"");
            reveal_strlit(", \"");
            assert(vv[i as int] == values@[i as int]@);
            assert(vv.take(i as int + 1).drop_last() =~= vv.take(i as int));
            if i == 0 {
                assert(vv.take(1) =~= seq![vv[0]]);
            }
            assert(out@ =~= mid + quoted_list(vv.take(i as int + 1)));
        }
        i = i + 1;
    }
    out.append("]");
    finish_value(out, comma);
    proof {
        assert(vv.take(i as int) =~= vv);
        assert(out@ =~= start + string_array_entry(indent as nat, name@, vv, comma));
    }
}

#[verifier::rlimit(40)]
fn push_histogram(out: &mut String, indent: usize, name: &str, s: HistogramSummary, comma: bool)
    requires
        indent < 100,
    ensures
        final(out)@ == old(out)@ + histogram_block(indent as nat, name@, s, comma),
{
    let ghost start = out@;
    let ghost i = (indent + 1) as nat;
    push_object_start(out, indent, name);
    push_u64(out, indent + 1, "count", s.count, true);
    let ghost a = out@;
    push_optional_duration(out, indent + 1, "min_ns", s.min, true);
    push_optional_duration(out, indent + 1, "max_ns", s.max, true);
    push_optional_duration(out, indent + 1, "mean_ns", s.mean, true);
    let ghost b = out@;
    proof {
        assert(b =~= a + opt_duration_entry(i, "min_ns"@, s.min, true) + opt_duration_entry(
            i,
            "max_ns"@,
            s.max,
            true,
        ) + opt_duration_entry(i, "mean_ns"@, s.mean, true));
    }
    push_optional_duration(out, indent + 1, "p50_ns", s.p50, true);
    push_optional_duration(out, indent + 1, "p95_ns", s.p95, true);
    push_optional_duration(out, indent + 1, "p99_ns", s.p99, true);
    let ghost c = out@;
    proof {
        assert(c =~= b + opt_duration_entry(i, "p50_ns"@, s.p50, true) + opt_duration_entry(
            i,
            "p95_ns"@,
            s.p95,
            true,
        ) + opt_duration_entry(i, "p99_ns"@, s.p99, true));
    }
    push_u64(out, indent + 1, "overflow", s.overflow, false);
    push_object_end(out, indent, comma);
    proof {
        assert(out@ =~= start + histogram_block(indent as nat, name@, s, comma));
    }
}

/// The report of `review`, the latency summaries (in the order of
/// `LatencyMetric::ALL`) and the frame timing.
pub fn encode_report(review: &PrivacyReview, summaries: &Vec<HistogramSummary>, frames: FrameTimingSummary) -> (s: String)
    requires
        summaries@.len() == 10,
    ensures
        s@ == report_text(review.approved, static_views(review.blocked_fields@), summaries@, frames),
{
    let mut out = String::from_str("{\n");
    let ghost start = out@;
    push_u64(&mut out, 1, "schema_version", 1, true);
    push_object_start(&mut out, 1, "privacy");
    push_bool(&mut out, 2, "approved", review.approved, true);
    push_string_array(&mut out, 2, "blocked_fields", &review.blocked_fields, false);
    push_object_end(&mut out, 1, true);
    push_object_start(&mut out, 1, "latencies");
    let ghost before_latencies = out@;
    let all = LatencyMetric::ALL;
    let mut i: usize = 0;
    proof {
        assert(out@ =~= before_latencies + latency_blocks(summaries@, 0));
    }
    while i < 10
        invariant
            summaries@.len() == 10,
            i <= 10,
            all@ == all_latency_metrics(),
            out@ == before_latencies + latency_blocks(summaries@, i as int),
        decreases 10 - i,
    {
        let metric = all[i];
        push_histogram(&mut out, 2, metric.as_str(), summaries[i], i + 1 != 10);
        proof {
            assert(all_latency_metrics().len() == 10);
            assert(out@ =~= before_latencies + latency_blocks(summaries@, i as int + 1));
        }
        i = i + 1;
    }
    push_object_end(&mut out, 1, true);
    push_object_start(&mut out, 1, "frames");
    push_duration(&mut out, 2, "stall_threshold_ns", frames.stall_threshold, true);
    push_u64(&mut out, 2, "stall_count", frames.stall_count, true);
    push_optional_duration(&mut out, 2, "worst_stall_ns", frames.worst_stall, true);
    push_histogram(&mut out, 2, "duration", frames.histogram, false);
    push_object_end(&mut out, 1, false);
    out.append("}\n");
    proof {
        assert(out@ =~= report_text(
            review.approved,
            static_views(review.blocked_fields@),
            summaries@,
            frames,
        ));
    }
    out
}


/// The number of bytes UTF-8 takes for `c`.
pub open spec fn utf8_width(c: char) -> nat {
    if (c as u32) < 0x80 {
        1
    } else if (c as u32) < 0x800 {
        2
    } else if (c as u32) < 0x10000 {
        3
    } else {
        4
    }
}

/// The number of bytes UTF-8 takes for `s`.
pub open spec fn utf8_len(s: Seq<char>) -> nat
    decreases s.len(),
{
    if s.len() == 0 {
        0
    } else {
        utf8_len(s.drop_last()) + utf8_width(s.last())
    }
}

/// `str::len`: the length of `s` in bytes, which is the sum of the UTF-8
/// widths of its characters.
#[verifier::external_body]
pub fn byte_len(s: &str) -> (n: usize)
    ensures
        n == utf8_len(s@),
{
    s.len()
}

/// A report ready to be written, with the receipt of writing it.
#[derive(Debug, Clone, PartialEq, Eq)]
pub struct DiagnosticExport {
    pub receipt: DiagnosticExportReceipt,
    pub report: String,
}

/// The summaries of every latency metric of `t`.
pub open spec fn latency_summaries(t: Telemetry) -> Seq<HistogramSummary> {
    all_latency_metrics().map_values(|m: LatencyMetric| summary_of(t.latency_view(m)))
}

/// Exports the diagnostics of `telemetry` to `path`: refused by the privacy
/// review where `privacy` would carry a sensitive field; otherwise the
/// report of the latency and frame summaries, and its receipt.
pub fn export_diagnostics(path: &str, telemetry: &Telemetry, privacy: DiagnosticPrivacy) -> (r: Result<
    DiagnosticExport,
    DiagnosticExportError,
>)
    requires
        telemetry.wf(),
        forall|m: LatencyMetric| #[trigger] telemetry.latency_view(m).count * 100 <= u64::MAX,
        telemetry.frames_view().histogram.count * 100 <= u64::MAX,
    ensures
        r is Err <==> blocked_fields_of(privacy).len() > 0,
        r matches Err(e) ==> e matches DiagnosticExportError::Privacy(review) && !review.approved
            && static_views(review.blocked_fields@) == blocked_fields_of(privacy),
        r matches Ok(x) ==> {
            &&& x.report@ == report_text(
                true,
                Seq::empty(),
                latency_summaries(*telemetry),
                frame_summary_of(telemetry.frames_view()),
            )
            &&& x.receipt.path@ == path@
            &&& x.receipt.bytes_written == utf8_len(x.report@)
            &&& x.receipt.privacy.approved
            &&& x.receipt.privacy.blocked_fields@.len() == 0
        },
{
    let review = privacy.review();
    if !review.approved {
        return Err(DiagnosticExportError::Privacy(review));
    }
    let all = LatencyMetric::ALL;
    let mut summaries: Vec<HistogramSummary> = Vec::new();
    let mut i: usize = 0;
    while i < 10
        invariant
            telemetry.wf(),
            forall|m: LatencyMetric| #[trigger] telemetry.latency_view(m).count * 100 <= u64::MAX,
            all@ == all_latency_metrics(),
            i <= 10,
            summaries@ == latency_summaries(*telemetry).take(i as int),
        decreases 10 - i,
    {
        let s = telemetry.latency(all[i]);
        summaries.push(s);
        proof {
            assert(summaries@ =~= latency_summaries(*telemetry).take(i as int + 1));
        }
        i = i + 1;
    }
    proof {
        assert(latency_summaries(*telemetry).take(10) =~= latency_summaries(*telemetry));
        assert(static_views(review.blocked_fields@) =~= Seq::<Seq<char>>::empty());
    }
    let frames = telemetry.frame_timing();
    let report = encode_report(&review, &summaries, frames);
    let bytes = byte_len(report.as_str());
    let receipt = DiagnosticExportReceipt {
        path: String::from_str(path),
        bytes_written: bytes as u64,
        privacy: review,
    };
    Ok(DiagnosticExport { receipt, report })
}

} // verus!
