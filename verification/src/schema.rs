use vstd::prelude::*;

use crate::text::{
    copy_opt_string, escape_field, field_or_dash, field_text, opt_chars, or_dash,
    push_decimal, push_field_or_dash, push_or_dash, decimal,
};

use vstd::utf8::{decode_utf8, valid_utf8};

use crate::termarchive::{push_bytes, utf8_text};

verus! {

/// The kinds of archive a store keeps.
#[derive(Debug, Clone, Copy, PartialEq, Eq, Structural)]
pub enum ArchiveSchemaKind {
    Records,
    Columns,
    Metadata,
    Prefixes,
    Substrings,
    Fuzzy,
    Dictionary,
    Content,
    ContentManifest,
}

/// The name of an archive kind.
pub open spec fn kind_name(kind: ArchiveSchemaKind) -> Seq<char> {
    match kind {
        ArchiveSchemaKind::Records => "records"@,
        ArchiveSchemaKind::Columns => "columns"@,
        ArchiveSchemaKind::Metadata => "metadata"@,
        ArchiveSchemaKind::Prefixes => "prefixes"@,
        ArchiveSchemaKind::Substrings => "substrings"@,
        ArchiveSchemaKind::Fuzzy => "fuzzy"@,
        ArchiveSchemaKind::Dictionary => "dictionary"@,
        ArchiveSchemaKind::Content => "content"@,
        ArchiveSchemaKind::ContentManifest => "content-manifest"@,
    }
}

/// The kind a name denotes, if any (`prefix` and `substring` are accepted
/// too).
pub open spec fn kind_from_name(name: Seq<char>) -> Option<ArchiveSchemaKind> {
    if name == "records"@ {
        Some(ArchiveSchemaKind::Records)
    } else if name == "columns"@ {
        Some(ArchiveSchemaKind::Columns)
    } else if name == "metadata"@ {
        Some(ArchiveSchemaKind::Metadata)
    } else if name == "prefixes"@ || name == "prefix"@ {
        Some(ArchiveSchemaKind::Prefixes)
    } else if name == "substrings"@ || name == "substring"@ {
        Some(ArchiveSchemaKind::Substrings)
    } else if name == "fuzzy"@ {
        Some(ArchiveSchemaKind::Fuzzy)
    } else if name == "dictionary"@ {
        Some(ArchiveSchemaKind::Dictionary)
    } else if name == "content"@ {
        Some(ArchiveSchemaKind::Content)
    } else if name == "content-manifest"@ {
        Some(ArchiveSchemaKind::ContentManifest)
    } else {
        None
    }
}

/// The schema that each kind is written in today.
pub open spec fn current_schema_name(kind: ArchiveSchemaKind) -> Seq<char> {
    match kind {
        ArchiveSchemaKind::Records => "gfm-store-v3"@,
        ArchiveSchemaKind::Columns => "gfm-record-columns-v2"@,
        ArchiveSchemaKind::Metadata => "gfm-metadata-v3"@,
        ArchiveSchemaKind::Prefixes => "gfm-prefix-v1"@,
        ArchiveSchemaKind::Substrings => "gfm-substring-v1"@,
        ArchiveSchemaKind::Fuzzy => "gfm-fuzzy-v1"@,
        ArchiveSchemaKind::Dictionary => "gfm-dictionary-v1"@,
        ArchiveSchemaKind::Content => "gfm-content-v5"@,
        ArchiveSchemaKind::ContentManifest => "gfm-content-manifest-v1"@,
    }
}

/// Older schemas of each kind that can still be read.
pub open spec fn legacy_schema_names(kind: ArchiveSchemaKind) -> Seq<Seq<char>> {
    match kind {
        ArchiveSchemaKind::Records => seq!["gfm-store-v1"@, "gfm-store-v2"@],
        ArchiveSchemaKind::Columns => seq!["gfm-record-columns-v1"@],
        ArchiveSchemaKind::Metadata => seq!["gfm-metadata-v1"@, "gfm-metadata-v2"@],
        ArchiveSchemaKind::Content => seq![
            "gfm-content-v1"@,
            "gfm-content-v2"@,
            "gfm-content-v3"@,
            "gfm-content-v4"@,
        ],
        _ => Seq::empty(),
    }
}

/// Kinds whose schema is their first text line; the others open with a
/// magic: the schema name and a newline.
pub open spec fn is_line_kind(kind: ArchiveSchemaKind) -> bool {
    kind == ArchiveSchemaKind::Records || kind == ArchiveSchemaKind::ContentManifest
}

impl ArchiveSchemaKind {
    /// The kind a name denotes.
    pub fn parse(input: &str) -> (k: Option<ArchiveSchemaKind>)
        ensures
            k == kind_from_name(input@),
    {
        proof {
            reveal_strlit("records");
            reveal_strlit("columns");
            reveal_strlit("metadata");
            reveal_strlit("prefixes");
            reveal_strlit("prefix");
            reveal_strlit("substrings");
            reveal_strlit("substring");
            reveal_strlit("fuzzy");
            reveal_strlit("dictionary");
            reveal_strlit("content");
            reveal_strlit("content-manifest");
        }
        if crate::text::str_equal(input, "records") {
            Some(ArchiveSchemaKind::Records)
        } else if crate::text::str_equal(input, "columns") {
            Some(ArchiveSchemaKind::Columns)
        } else if crate::text::str_equal(input, "metadata") {
            Some(ArchiveSchemaKind::Metadata)
        } else if crate::text::str_equal(input, "prefixes") || crate::text::str_equal(input, "prefix") {
            Some(ArchiveSchemaKind::Prefixes)
        } else if crate::text::str_equal(input, "substrings") || crate::text::str_equal(
            input,
            "substring",
        ) {
            Some(ArchiveSchemaKind::Substrings)
        } else if crate::text::str_equal(input, "fuzzy") {
            Some(ArchiveSchemaKind::Fuzzy)
        } else if crate::text::str_equal(input, "dictionary") {
            Some(ArchiveSchemaKind::Dictionary)
        } else if crate::text::str_equal(input, "content") {
            Some(ArchiveSchemaKind::Content)
        } else if crate::text::str_equal(input, "content-manifest") {
            Some(ArchiveSchemaKind::ContentManifest)
        } else {
            None
        }
    }

    /// The kind's name.
    pub fn as_str(self) -> (s: &'static str)
        ensures
            s@ == kind_name(self),
    {
        match self {
            ArchiveSchemaKind::Records => "records",
            ArchiveSchemaKind::Columns => "columns",
            ArchiveSchemaKind::Metadata => "metadata",
            ArchiveSchemaKind::Prefixes => "prefixes",
            ArchiveSchemaKind::Substrings => "substrings",
            ArchiveSchemaKind::Fuzzy => "fuzzy",
            ArchiveSchemaKind::Dictionary => "dictionary",
            ArchiveSchemaKind::Content => "content",
            ArchiveSchemaKind::ContentManifest => "content-manifest",
        }
    }

    /// The schema this kind is written in today.
    pub fn current_schema(self) -> (s: &'static str)
        ensures
            s@ == current_schema_name(self),
    {
        match self {
            ArchiveSchemaKind::Records => "gfm-store-v3",
            ArchiveSchemaKind::Columns => "gfm-record-columns-v2",
            ArchiveSchemaKind::Metadata => "gfm-metadata-v3",
            ArchiveSchemaKind::Prefixes => "gfm-prefix-v1",
            ArchiveSchemaKind::Substrings => "gfm-substring-v1",
            ArchiveSchemaKind::Fuzzy => "gfm-fuzzy-v1",
            ArchiveSchemaKind::Dictionary => "gfm-dictionary-v1",
            ArchiveSchemaKind::Content => "gfm-content-v5",
            ArchiveSchemaKind::ContentManifest => "gfm-content-manifest-v1",
        }
    }
}

fn legacy_schemas(kind: ArchiveSchemaKind) -> (v: Vec<&'static str>)
    ensures
        v@.len() == legacy_schema_names(kind).len(),
        forall|i: int| 0 <= i < v@.len() ==> #[trigger] v@[i]@ == legacy_schema_names(kind)[i],
{
    let mut v: Vec<&'static str> = Vec::new();
    match kind {
        ArchiveSchemaKind::Records => {
            v.push("gfm-store-v1");
            v.push("gfm-store-v2");
        },
        ArchiveSchemaKind::Columns => {
            v.push("gfm-record-columns-v1");
        },
        ArchiveSchemaKind::Metadata => {
            v.push("gfm-metadata-v1");
            v.push("gfm-metadata-v2");
        },
        ArchiveSchemaKind::Content => {
            v.push("gfm-content-v1");
            v.push("gfm-content-v2");
            v.push("gfm-content-v3");
            v.push("gfm-content-v4");
        },
        _ => {},
    }
    v
}

/// The state of an archive's schema.
#[derive(Debug, Clone, Copy, PartialEq, Eq, Structural)]
pub enum ArchiveSchemaStatus {
    Current,
    Legacy,
    Unsupported,
    Missing,
    Unreadable,
}

/// The name of a schema status.
pub open spec fn status_name(status: ArchiveSchemaStatus) -> Seq<char> {
    match status {
        ArchiveSchemaStatus::Current => "current"@,
        ArchiveSchemaStatus::Legacy => "legacy"@,
        ArchiveSchemaStatus::Unsupported => "unsupported"@,
        ArchiveSchemaStatus::Missing => "missing"@,
        ArchiveSchemaStatus::Unreadable => "unreadable"@,
    }
}

impl ArchiveSchemaStatus {
    pub fn as_str(self) -> (s: &'static str)
        ensures
            s@ == status_name(self),
    {
        match self {
            ArchiveSchemaStatus::Current => "current",
            ArchiveSchemaStatus::Legacy => "legacy",
            ArchiveSchemaStatus::Unsupported => "unsupported",
            ArchiveSchemaStatus::Missing => "missing",
            ArchiveSchemaStatus::Unreadable => "unreadable",
        }
    }
}

/// What an inspection found about one archive.
#[derive(Debug, Clone, PartialEq, Eq)]
pub struct ArchiveSchemaReport {
    pub kind: ArchiveSchemaKind,
    pub path: String,
    pub status: ArchiveSchemaStatus,
    pub schema: Option<String>,
    pub current_schema: &'static str,
    pub detail: Option<String>,
}

/// The first bytes of an archive, as read from storage.
#[derive(Debug, Clone, PartialEq, Eq)]
pub enum ArchiveHeader {
    /// The first text line, or `None` for an empty file (line kinds).
    FirstLine(Option<String>),
    /// The first bytes, as many as the longest magic of the kind (magic
    /// kinds).
    Magic(Vec<u8>),
}

/// What storage tells about an archive: whether it exists, its header, and
/// whether its reader accepts the whole archive.
#[derive(Debug, PartialEq, Eq)]
pub struct ArchiveProbe {
    /// Whether the archive exists, or the text of the error that checking
    /// its existence raised.
    pub exists: Result<bool, String>,
    /// The header, or the text of the error that reading it raised.
    pub header: Result<ArchiveHeader, String>,
    /// Whether the kind's reader opens the archive, or its error text.
    pub validation: Result<(), String>,
}

/// Where the first line of `bytes` ends: at the first newline, or at the
/// end.
pub open spec fn first_line_end(bytes: Seq<u8>) -> int
    decreases bytes.len(),
{
    if bytes.len() == 0 || bytes[0] == 10 {
        0
    } else {
        1 + first_line_end(bytes.drop_first())
    }
}

/// The first line of `bytes`, without its line break (a newline, or a
/// carriage return and a newline).
pub open spec fn first_line_bytes(bytes: Seq<u8>) -> Seq<u8> {
    let l = bytes.take(first_line_end(bytes));
    if l.len() > 0 && l.last() == 13 && first_line_end(bytes) < bytes.len() {
        l.drop_last()
    } else {
        l
    }
}

proof fn lemma_first_line_end_bounds(bytes: Seq<u8>)
    ensures
        0 <= first_line_end(bytes) <= bytes.len(),
    decreases bytes.len(),
{
    if bytes.len() > 0 && bytes[0] != 10 {
        lemma_first_line_end_bounds(bytes.drop_first());
    }
}

/// The header of the archive at `path` whose bytes are `bytes`: for a kind
/// with a schema line, its first line (none for an empty archive), which
/// must be UTF-8, as reading lines does; for a kind with a magic, its bytes
/// (classification looks at no more than its longest magic).
pub fn archive_header_from_bytes(kind: ArchiveSchemaKind, path: &str, bytes: &[u8]) -> (r: Result<ArchiveHeader, String>)
    ensures
        !is_line_kind(kind) ==> (r matches Ok(ArchiveHeader::Magic(v)) && v@ == bytes@),
        is_line_kind(kind) && bytes@.len() == 0 ==> r == Ok::<ArchiveHeader, String>(ArchiveHeader::FirstLine(None)),
        is_line_kind(kind) && bytes@.len() > 0 && valid_utf8(first_line_bytes(bytes@)) ==> (r matches Ok(
            ArchiveHeader::FirstLine(Some(t)),
        ) && t@ == decode_utf8(first_line_bytes(bytes@))),
        is_line_kind(kind) && bytes@.len() > 0 && !valid_utf8(first_line_bytes(bytes@)) ==> (r matches Err(m) && m@
            == path@ + ": stream did not contain valid UTF-8"@),
{
    let line_kind = match kind {
        ArchiveSchemaKind::Records | ArchiveSchemaKind::ContentManifest => true,
        _ => false,
    };
    if !line_kind {
        let mut v: Vec<u8> = Vec::new();
        push_bytes(&mut v, bytes);
        return Ok(ArchiveHeader::Magic(v));
    }
    if bytes.len() == 0 {
        return Ok(ArchiveHeader::FirstLine(None));
    }
    let n = bytes.len();
    let mut k: usize = 0;
    proof {
        assert(bytes@.skip(0) =~= bytes@);
    }
    while k < n && bytes[k] != 10
        invariant
            n == bytes@.len(),
            k <= n,
            first_line_end(bytes@) == k + first_line_end(bytes@.skip(k as int)),
        decreases n - k,
    {
        proof {
            assert(bytes@.skip(k as int).drop_first() =~= bytes@.skip(k as int + 1));
        }
        k = k + 1;
    }
    proof {
        lemma_first_line_end_bounds(bytes@);
        assert(first_line_end(bytes@) == k);
    }
    let mut end = k;
    if k > 0 && k < n && bytes[k - 1] == 13 {
        end = k - 1;
    }
    let mut line: Vec<u8> = Vec::new();
    push_bytes(&mut line, vstd::slice::slice_subrange(bytes, 0, end));
    proof {
        assert(line@ =~= first_line_bytes(bytes@));
    }
    match utf8_text(line) {
        Ok(t) => Ok(ArchiveHeader::FirstLine(Some(t))),
        Err(_) => {
            let mut m = String::from_str(path);
            m.append(": stream did not contain valid UTF-8");
            Err(m)
        },
    }
}

/// The abstract outcome of an inspection: status, schema and detail.
pub ghost struct SchemaOutcome {
    pub status: ArchiveSchemaStatus,
    pub schema: Option<Seq<char>>,
    pub detail: Option<Seq<char>>,
}

/// `bytes` open with the magic of schema `name`: its characters, then a
/// newline.
pub open spec fn starts_with_magic(bytes: Seq<u8>, name: Seq<char>) -> bool {
    &&& bytes.len() > name.len()
    &&& forall|i: int| 0 <= i < name.len() ==> #[trigger] bytes[i] as int == name[i] as int
    &&& bytes[name.len() as int] == 10
}

/// The index of the first schema among `names` whose magic opens `bytes`.
pub open spec fn first_magic_match(bytes: Seq<u8>, names: Seq<Seq<char>>) -> Option<int>
    decreases names.len(),
{
    if names.len() == 0 {
        None
    } else if starts_with_magic(bytes, names[0]) {
        Some(0)
    } else {
        match first_magic_match(bytes, names.drop_first()) {
            Some(i) => Some(i + 1),
            None => None,
        }
    }
}

/// The status that a header gives an archive before its contents are
/// checked.
pub open spec fn header_outcome(kind: ArchiveSchemaKind, header: ArchiveHeader) -> SchemaOutcome {
    if is_line_kind(kind) {
        match header {
            ArchiveHeader::FirstLine(None) => SchemaOutcome {
                status: ArchiveSchemaStatus::Unsupported,
                schema: None,
                detail: Some("empty archive"@),
            },
            ArchiveHeader::FirstLine(Some(line)) => if line@ == current_schema_name(kind) {
                SchemaOutcome {
                    status: ArchiveSchemaStatus::Current,
                    schema: Some(line@),
                    detail: None,
                }
            } else if legacy_schema_names(kind).contains(line@) {
                SchemaOutcome { status: ArchiveSchemaStatus::Legacy, schema: Some(line@), detail: None }
            } else {
                SchemaOutcome {
                    status: ArchiveSchemaStatus::Unsupported,
                    schema: Some(line@),
                    detail: None,
                }
            },
            ArchiveHeader::Magic(_) => unsupported_header(),
        }
    } else {
        match header {
            ArchiveHeader::Magic(bytes) => if starts_with_magic(bytes@, current_schema_name(kind)) {
                SchemaOutcome {
                    status: ArchiveSchemaStatus::Current,
                    schema: Some(current_schema_name(kind)),
                    detail: None,
                }
            } else {
                match first_magic_match(bytes@, legacy_schema_names(kind)) {
                    Some(i) => SchemaOutcome {
                        status: ArchiveSchemaStatus::Legacy,
                        schema: Some(legacy_schema_names(kind)[i]),
                        detail: None,
                    },
                    None => unsupported_header(),
                }
            },
            ArchiveHeader::FirstLine(_) => unsupported_header(),
        }
    }
}

/// An archive whose header matches no schema of its kind.
pub open spec fn unsupported_header() -> SchemaOutcome {
    SchemaOutcome {
        status: ArchiveSchemaStatus::Unsupported,
        schema: None,
        detail: Some("unsupported archive header"@),
    }
}

/// The outcome of inspecting an archive: unreadable where its existence
/// cannot be checked, missing, unreadable where its header cannot be read
/// or its reader rejects a current or legacy archive, otherwise what its
/// header says.
pub open spec fn inspect_outcome(kind: ArchiveSchemaKind, probe: ArchiveProbe) -> SchemaOutcome {
    if probe.exists is Err {
        SchemaOutcome {
            status: ArchiveSchemaStatus::Unreadable,
            schema: None,
            detail: Some("archive schema existence unavailable: "@ + probe.exists->Err_0@),
        }
    } else if probe.exists == Ok::<bool, String>(false) {
        SchemaOutcome { status: ArchiveSchemaStatus::Missing, schema: None, detail: None }
    } else {
        match probe.header {
            Err(e) => SchemaOutcome {
                status: ArchiveSchemaStatus::Unreadable,
                schema: None,
                detail: Some(e@),
            },
            Ok(h) => {
                let o = header_outcome(kind, h);
                if o.status == ArchiveSchemaStatus::Current || o.status
                    == ArchiveSchemaStatus::Legacy {
                    match probe.validation {
                        Ok(()) => o,
                        Err(e) => SchemaOutcome {
                            status: ArchiveSchemaStatus::Unreadable,
                            schema: o.schema,
                            detail: Some(e@),
                        },
                    }
                } else {
                    o
                }
            },
        }
    }
}

/// An inspection reports an archive current or legacy only when it exists
/// and its reader accepts it: whenever the probe's validation fails, a
/// header that names the current schema, or a legacy one, gives an
/// unreadable archive with that schema and the reader's error as detail.
pub proof fn lemma_inspection_needs_validation(kind: ArchiveSchemaKind, probe: ArchiveProbe)
    ensures
        (inspect_outcome(kind, probe).status == ArchiveSchemaStatus::Current || inspect_outcome(kind, probe).status
            == ArchiveSchemaStatus::Legacy) ==> (probe.exists == Ok::<bool, String>(true) && probe.validation
            is Ok),
        probe.exists == Ok::<bool, String>(true) && probe.validation is Err && is_line_kind(kind) && (
        probe.header matches Ok(ArchiveHeader::FirstLine(Some(l))) && (l@ == current_schema_name(kind)
            || legacy_schema_names(kind).contains(l@))) ==> ({
            let o = inspect_outcome(kind, probe);
            &&& o.status == ArchiveSchemaStatus::Unreadable
            &&& o.schema == Some(probe.header->Ok_0->FirstLine_0->Some_0@)
            &&& o.detail == Some(probe.validation->Err_0@)
        }),
        probe.exists == Ok::<bool, String>(true) && probe.validation is Err && !is_line_kind(kind) && (
        probe.header matches Ok(ArchiveHeader::Magic(b)) && starts_with_magic(b@, current_schema_name(kind)))
            ==> ({
            let o = inspect_outcome(kind, probe);
            &&& o.status == ArchiveSchemaStatus::Unreadable
            &&& o.schema == Some(current_schema_name(kind))
            &&& o.detail == Some(probe.validation->Err_0@)
        }),
{
    if probe.exists is Ok {
        if probe.exists->Ok_0 {
            assert(probe.exists == Ok::<bool, String>(true));
        } else {
            assert(probe.exists == Ok::<bool, String>(false));
        }
    }
}

/// `report` describes `kind` at `path` with the given outcome.
pub open spec fn report_is(
    report: ArchiveSchemaReport,
    kind: ArchiveSchemaKind,
    path: Seq<char>,
    outcome: SchemaOutcome,
) -> bool {
    &&& report.kind == kind
    &&& report.path@ == path
    &&& report.status == outcome.status
    &&& opt_chars(report.schema) == outcome.schema
    &&& report.current_schema@ == current_schema_name(kind)
    &&& opt_chars(report.detail) == outcome.detail
}

fn magic_matches(bytes: &Vec<u8>, name: &str) -> (b: bool)
    ensures
        b == starts_with_magic(bytes@, name@),
{
    let n = name.unicode_len();
    if bytes.len() <= n {
        return false;
    }
    let mut i: usize = 0;
    while i < n
        invariant
            n == name@.len(),
            bytes@.len() > n,
            i <= n,
            forall|j: int| 0 <= j < i ==> #[trigger] bytes@[j] as int == name@[j] as int,
        decreases n - i,
    {
        let c = name.get_char(i);
        if (bytes[i] as u32) != (c as u32) {
            return false;
        }
        i = i + 1;
    }
    bytes[n] == 10
}

/// Whether `line` is one of `names`.
fn contains_str(names: &Vec<&'static str>, line: &str) -> (b: bool)
    ensures
        b == names@.map_values(|s: &'static str| s@).contains(line@),
{
    let ghost views = names@.map_values(|s: &'static str| s@);
    let mut i: usize = 0;
    while i < names.len()
        invariant
            i <= names@.len(),
            views == names@.map_values(|s: &'static str| s@),
            forall|j: int| 0 <= j < i ==> #[trigger] views[j] != line@,
        decreases names@.len() - i,
    {
        if crate::text::str_equal(names[i], line) {
            assert(views[i as int] == line@);
            return true;
        }
        i = i + 1;
    }
    false
}

proof fn lemma_legacy_views(kind: ArchiveSchemaKind, v: Seq<&'static str>)
    requires
        v.len() == legacy_schema_names(kind).len(),
        forall|i: int| 0 <= i < v.len() ==> #[trigger] v[i]@ == legacy_schema_names(kind)[i],
    ensures
        v.map_values(|s: &'static str| s@) == legacy_schema_names(kind),
{
    assert(v.map_values(|s: &'static str| s@) =~= legacy_schema_names(kind));
}

proof fn lemma_first_magic_range(bytes: Seq<u8>, names: Seq<Seq<char>>)
    ensures
        first_magic_match(bytes, names) matches Some(i) ==> 0 <= i < names.len(),
    decreases names.len(),
{
    if names.len() > 0 {
        lemma_first_magic_range(bytes, names.drop_first());
    }
}

fn first_magic(bytes: &Vec<u8>, names: &Vec<&'static str>) -> (r: Option<usize>)
    ensures
        r == match first_magic_match(bytes@, names@.map_values(|s: &'static str| s@)) {
            Some(i) => Some(i as usize),
            None => None::<usize>,
        },
        r matches Some(i) ==> i < names@.len(),
{
    let ghost views = names@.map_values(|s: &'static str| s@);
    proof {
        assert(views.skip(0) =~= views);
        lemma_first_magic_range(bytes@, views);
    }
    let mut i: usize = 0;
    while i < names.len()
        invariant
            i <= names@.len(),
            views == names@.map_values(|s: &'static str| s@),
            first_magic_match(bytes@, views) == match first_magic_match(bytes@, views.skip(i as int)) {
                Some(k) => Some(k + i),
                None => None::<int>,
            },
        decreases names@.len() - i,
    {
        assert(views.skip(i as int)[0] == views[i as int]);
        if magic_matches(bytes, names[i]) {
            return Some(i);
        }
        assert(views.skip(i as int).drop_first() =~= views.skip(i as int + 1));
        i = i + 1;
    }
    None
}

/// The header's verdict for `kind`: status, schema and detail.
fn classify_header(kind: ArchiveSchemaKind, header: &ArchiveHeader) -> (r: (
    ArchiveSchemaStatus,
    Option<String>,
    Option<String>,
))
    ensures
        r.0 == header_outcome(kind, *header).status,
        opt_chars(r.1) == header_outcome(kind, *header).schema,
        opt_chars(r.2) == header_outcome(kind, *header).detail,
{
    let line_kind = match kind {
        ArchiveSchemaKind::Records | ArchiveSchemaKind::ContentManifest => true,
        _ => false,
    };
    let legacy = legacy_schemas(kind);
    proof {
        lemma_legacy_views(kind, legacy@);
    }
    if line_kind {
        match header {
            ArchiveHeader::FirstLine(None) => (
                ArchiveSchemaStatus::Unsupported,
                None,
                Some(String::from_str("empty archive")),
            ),
            ArchiveHeader::FirstLine(Some(line)) => {
                if crate::text::str_equal(line.as_str(), kind.current_schema()) {
                    (ArchiveSchemaStatus::Current, Some(line.clone()), None)
                } else if contains_str(&legacy, line.as_str()) {
                    (ArchiveSchemaStatus::Legacy, Some(line.clone()), None)
                } else {
                    (ArchiveSchemaStatus::Unsupported, Some(line.clone()), None)
                }
            },
            ArchiveHeader::Magic(_) => (
                ArchiveSchemaStatus::Unsupported,
                None,
                Some(String::from_str("unsupported archive header")),
            ),
        }
    } else {
        match header {
            ArchiveHeader::Magic(bytes) => {
                if magic_matches(bytes, kind.current_schema()) {
                    (
                        ArchiveSchemaStatus::Current,
                        Some(String::from_str(kind.current_schema())),
                        None,
                    )
                } else {
                    match first_magic(bytes, &legacy) {
                        Some(i) => {
                            let name = String::from_str(legacy[i]);
                            proof {
                                let views = legacy@.map_values(|s: &'static str| s@);
                                assert(views == legacy_schema_names(kind));
                                lemma_first_magic_range(bytes@, views);
                                assert(first_magic_match(bytes@, legacy_schema_names(kind))
                                    == Some(i as int));
                                assert(name@ == legacy_schema_names(kind)[i as int]);
                            }
                            (ArchiveSchemaStatus::Legacy, Some(name), None)
                        },
                        None => (
                            ArchiveSchemaStatus::Unsupported,
                            None,
                            Some(String::from_str("unsupported archive header")),
                        ),
                    }
                }
            },
            ArchiveHeader::FirstLine(_) => (
                ArchiveSchemaStatus::Unsupported,
                None,
                Some(String::from_str("unsupported archive header")),
            ),
        }
    }
}

/// A report for `kind` at `path`.
pub fn report(
    kind: ArchiveSchemaKind,
    path: &str,
    status: ArchiveSchemaStatus,
    schema: Option<String>,
    detail: Option<String>,
) -> (r: ArchiveSchemaReport)
    ensures
        report_is(
            r,
            kind,
            path@,
            SchemaOutcome { status, schema: opt_chars(schema), detail: opt_chars(detail) },
        ),
{
    ArchiveSchemaReport {
        kind,
        path: String::from_str(path),
        status,
        schema,
        current_schema: kind.current_schema(),
        detail,
    }
}

/// Inspects the archive of `kind` at `path` from what storage told about
/// it.
pub fn inspect_archive_schema(kind: ArchiveSchemaKind, path: &str, probe: &ArchiveProbe) -> (r:
    ArchiveSchemaReport)
    ensures
        report_is(r, kind, path@, inspect_outcome(kind, *probe)),
{
    match &probe.exists {
        Err(e) => {
            let mut d = String::from_str("archive schema existence unavailable: ");
            d.append(e.as_str());
            return report(kind, path, ArchiveSchemaStatus::Unreadable, None, Some(d));
        },
        Ok(false) => {
            return report(kind, path, ArchiveSchemaStatus::Missing, None, None);
        },
        Ok(true) => {},
    }
    match &probe.header {
        Err(e) => report(kind, path, ArchiveSchemaStatus::Unreadable, None, Some(e.clone())),
        Ok(h) => {
            let (status, schema, detail) = classify_header(kind, h);
            match status {
                ArchiveSchemaStatus::Current | ArchiveSchemaStatus::Legacy => {
                    match &probe.validation {
                        Ok(()) => report(kind, path, status, schema, detail),
                        Err(e) => report(
                            kind,
                            path,
                            ArchiveSchemaStatus::Unreadable,
                            schema,
                            Some(e.clone()),
                        ),
                    }
                },
                _ => report(kind, path, status, schema, detail),
            }
        },
    }
}

impl ArchiveSchemaReport {
    /// A copy of the report.
    pub fn copy(&self) -> (r: ArchiveSchemaReport)
        ensures
            r.kind == self.kind,
            r.path@ == self.path@,
            r.status == self.status,
            opt_chars(r.schema) == opt_chars(self.schema),
            r.current_schema == self.current_schema,
            opt_chars(r.detail) == opt_chars(self.detail),
    {
        ArchiveSchemaReport {
            kind: self.kind,
            path: self.path.clone(),
            status: self.status,
            schema: copy_opt_string(&self.schema),
            current_schema: self.current_schema,
            detail: copy_opt_string(&self.detail),
        }
    }

    /// `archive-schema` line: kind, status, schema, current schema, path and
    /// detail.
    pub fn as_tsv(&self) -> (s: String)
        ensures
            s@ == "archive-schema\tkind="@ + kind_name(self.kind) + "\tstatus="@ + status_name(
                self.status,
            ) + "\tschema="@ + or_dash(opt_chars(self.schema)) + "\tcurrent="@
                + self.current_schema@ + "\tpath="@ + field_text(self.path@) + "\tdetail="@
                + field_or_dash(opt_chars(self.detail)),
    {
        let mut s = String::from_str("archive-schema\tkind=");
        s.append(self.kind.as_str());
        s.append("\tstatus=");
        s.append(self.status.as_str());
        s.append("\tschema=");
        push_or_dash(&mut s, &self.schema);
        s.append("\tcurrent=");
        s.append(self.current_schema);
        s.append("\tpath=");
        let p = escape_field(self.path.as_str());
        s.append(p.as_str());
        s.append("\tdetail=");
        push_field_or_dash(&mut s, &self.detail);
        s
    }
}

} // verus!

verus! {

/// The name of a migration action.
pub open spec fn migration_action_name(ready: bool, migrate: bool) -> Seq<char> {
    if ready {
        "ready"@
    } else if migrate {
        "migrate"@
    } else {
        "cannot-migrate"@
    }
}

/// What to do with a record archive.
#[derive(Debug, Clone, Copy, PartialEq, Eq, Structural)]
pub enum RecordArchiveMigrationAction {
    Ready,
    Migrate,
    CannotMigrate,
}

impl RecordArchiveMigrationAction {
    pub fn as_str(self) -> (s: &'static str)
        ensures
            s@ == migration_action_name(
                self == RecordArchiveMigrationAction::Ready,
                self == RecordArchiveMigrationAction::Migrate,
            ),
    {
        match self {
            RecordArchiveMigrationAction::Ready => "ready",
            RecordArchiveMigrationAction::Migrate => "migrate",
            RecordArchiveMigrationAction::CannotMigrate => "cannot-migrate",
        }
    }
}

/// The migration action that a record archive's status calls for.
pub open spec fn record_migration_action(status: ArchiveSchemaStatus) -> RecordArchiveMigrationAction {
    match status {
        ArchiveSchemaStatus::Current => RecordArchiveMigrationAction::Ready,
        ArchiveSchemaStatus::Legacy => RecordArchiveMigrationAction::Migrate,
        _ => RecordArchiveMigrationAction::CannotMigrate,
    }
}

/// Why a record archive gets its migration action.
pub open spec fn record_migration_detail(status: ArchiveSchemaStatus) -> Seq<char> {
    match status {
        ArchiveSchemaStatus::Current => "record archive is already current"@,
        ArchiveSchemaStatus::Legacy => "legacy record archive can be rewritten as current gfm-store-v3"@,
        ArchiveSchemaStatus::Missing => "missing record archive must be rebuilt from filesystem scan"@,
        ArchiveSchemaStatus::Unsupported => "unsupported record archive schema cannot be migrated"@,
        ArchiveSchemaStatus::Unreadable => "unreadable record archive must be quarantined and rebuilt"@,
    }
}

/// The migration plan of a record archive.
#[derive(Debug, Clone, PartialEq, Eq)]
pub struct RecordArchiveMigrationPlan {
    pub action: RecordArchiveMigrationAction,
    pub before: ArchiveSchemaReport,
    pub detail: Option<String>,
}

impl RecordArchiveMigrationPlan {
    /// `record-archive-migration-plan` line: action, status, schema, current
    /// schema, path and detail.
    pub fn as_tsv(&self) -> (s: String)
        ensures
            s@ == "record-archive-migration-plan\taction="@ + migration_action_name(
                self.action == RecordArchiveMigrationAction::Ready,
                self.action == RecordArchiveMigrationAction::Migrate,
            ) + "\tstatus="@ + status_name(self.before.status) + "\tschema="@ + or_dash(
                opt_chars(self.before.schema),
            ) + "\tcurrent="@ + self.before.current_schema@ + "\tpath="@ + field_text(
                self.before.path@,
            ) + "\tdetail="@ + field_or_dash(opt_chars(self.detail)),
    {
        let mut s = String::from_str("record-archive-migration-plan\taction=");
        s.append(self.action.as_str());
        s.append("\tstatus=");
        s.append(self.before.status.as_str());
        s.append("\tschema=");
        push_or_dash(&mut s, &self.before.schema);
        s.append("\tcurrent=");
        s.append(self.before.current_schema);
        s.append("\tpath=");
        let p = escape_field(self.before.path.as_str());
        s.append(p.as_str());
        s.append("\tdetail=");
        push_field_or_dash(&mut s, &self.detail);
        s
    }
}

/// The outcome of migrating a record archive.
#[derive(Debug, Clone, PartialEq, Eq)]
pub struct RecordArchiveMigration {
    pub before: RecordArchiveMigrationPlan,
    pub after: ArchiveSchemaReport,
    pub migrated_records: usize,
    pub backup_path: Option<String>,
}

impl RecordArchiveMigration {
    /// `record-archive-migration` line: count, statuses before and after,
    /// backup and path.
    pub fn as_tsv(&self) -> (s: String)
        ensures
            s@ == "record-archive-migration\tmigrated-records="@ + decimal(self.migrated_records as nat)
                + "\tbefore-status="@ + status_name(self.before.before.status)
                + "\tafter-status="@ + status_name(self.after.status) + "\tbackup="@
                + field_or_dash(opt_chars(self.backup_path)) + "\tpath="@ + field_text(
                self.after.path@,
            ),
    {
        let mut s = String::from_str("record-archive-migration\tmigrated-records=");
        push_decimal(&mut s, self.migrated_records as u64);
        s.append("\tbefore-status=");
        s.append(self.before.before.status.as_str());
        s.append("\tafter-status=");
        s.append(self.after.status.as_str());
        s.append("\tbackup=");
        push_field_or_dash(&mut s, &self.backup_path);
        s.append("\tpath=");
        let p = escape_field(self.after.path.as_str());
        s.append(p.as_str());
        s
    }
}

/// Plans the migration of the record archive at `path`: ready when current,
/// migrate when legacy, otherwise it cannot be migrated.
pub fn plan_record_archive_migration(path: &str, probe: &ArchiveProbe) -> (plan:
    RecordArchiveMigrationPlan)
    ensures
        report_is(
            plan.before,
            ArchiveSchemaKind::Records,
            path@,
            inspect_outcome(ArchiveSchemaKind::Records, *probe),
        ),
        plan.action == record_migration_action(plan.before.status),
        opt_chars(plan.detail) == Some(record_migration_detail(plan.before.status)),
{
    let before = inspect_archive_schema(ArchiveSchemaKind::Records, path, probe);
    record_plan_from_report(before)
}

/// The migration plan for a record archive in the state `before` describes.
pub fn record_plan_from_report(before: ArchiveSchemaReport) -> (plan: RecordArchiveMigrationPlan)
    ensures
        plan.before == before,
        plan.action == record_migration_action(before.status),
        opt_chars(plan.detail) == Some(record_migration_detail(before.status)),
{
    let (action, detail) = match before.status {
        ArchiveSchemaStatus::Current => (
            RecordArchiveMigrationAction::Ready,
            String::from_str("record archive is already current"),
        ),
        ArchiveSchemaStatus::Legacy => (
            RecordArchiveMigrationAction::Migrate,
            String::from_str("legacy record archive can be rewritten as current gfm-store-v3"),
        ),
        ArchiveSchemaStatus::Missing => (
            RecordArchiveMigrationAction::CannotMigrate,
            String::from_str("missing record archive must be rebuilt from filesystem scan"),
        ),
        ArchiveSchemaStatus::Unsupported => (
            RecordArchiveMigrationAction::CannotMigrate,
            String::from_str("unsupported record archive schema cannot be migrated"),
        ),
        ArchiveSchemaStatus::Unreadable => (
            RecordArchiveMigrationAction::CannotMigrate,
            String::from_str("unreadable record archive must be quarantined and rebuilt"),
        ),
    };
    RecordArchiveMigrationPlan { action, before, detail: Some(detail) }
}

/// What to do with a content archive.
#[derive(Debug, Clone, Copy, PartialEq, Eq, Structural)]
pub enum ContentArchiveMigrationAction {
    Ready,
    Migrate,
    CannotMigrate,
}

impl ContentArchiveMigrationAction {
    pub fn as_str(self) -> (s: &'static str)
        ensures
            s@ == migration_action_name(
                self == ContentArchiveMigrationAction::Ready,
                self == ContentArchiveMigrationAction::Migrate,
            ),
    {
        match self {
            ContentArchiveMigrationAction::Ready => "ready",
            ContentArchiveMigrationAction::Migrate => "migrate",
            ContentArchiveMigrationAction::CannotMigrate => "cannot-migrate",
        }
    }
}

/// The migration action that a content archive's status calls for.
pub open spec fn content_migration_action(status: ArchiveSchemaStatus) -> ContentArchiveMigrationAction {
    match status {
        ArchiveSchemaStatus::Current => ContentArchiveMigrationAction::Ready,
        ArchiveSchemaStatus::Legacy => ContentArchiveMigrationAction::Migrate,
        _ => ContentArchiveMigrationAction::CannotMigrate,
    }
}

/// Why a content archive gets its migration action.
pub open spec fn content_migration_detail(status: ArchiveSchemaStatus) -> Seq<char> {
    match status {
        ArchiveSchemaStatus::Current => "content archive is already current"@,
        ArchiveSchemaStatus::Legacy => "legacy content archive can be rewritten as current gfm-content-v5"@,
        ArchiveSchemaStatus::Missing => "missing content archive must be rebuilt from extraction segments"@,
        ArchiveSchemaStatus::Unsupported => "unsupported content archive schema cannot be migrated"@,
        ArchiveSchemaStatus::Unreadable => "unreadable content archive must be quarantined and rebuilt"@,
    }
}

/// The migration plan of a content archive.
#[derive(Debug, Clone, PartialEq, Eq)]
pub struct ContentArchiveMigrationPlan {
    pub action: ContentArchiveMigrationAction,
    pub before: ArchiveSchemaReport,
    pub detail: Option<String>,
}

impl ContentArchiveMigrationPlan {
    /// `content-archive-migration-plan` line: action, status, schema, current
    /// schema, path and detail.
    pub fn as_tsv(&self) -> (s: String)
        ensures
            s@ == "content-archive-migration-plan\taction="@ + migration_action_name(
                self.action == ContentArchiveMigrationAction::Ready,
                self.action == ContentArchiveMigrationAction::Migrate,
            ) + "\tstatus="@ + status_name(self.before.status) + "\tschema="@ + or_dash(
                opt_chars(self.before.schema),
            ) + "\tcurrent="@ + self.before.current_schema@ + "\tpath="@ + field_text(
                self.before.path@,
            ) + "\tdetail="@ + field_or_dash(opt_chars(self.detail)),
    {
        let mut s = String::from_str("content-archive-migration-plan\taction=");
        s.append(self.action.as_str());
        s.append("\tstatus=");
        s.append(self.before.status.as_str());
        s.append("\tschema=");
        push_or_dash(&mut s, &self.before.schema);
        s.append("\tcurrent=");
        s.append(self.before.current_schema);
        s.append("\tpath=");
        let p = escape_field(self.before.path.as_str());
        s.append(p.as_str());
        s.append("\tdetail=");
        push_field_or_dash(&mut s, &self.detail);
        s
    }
}

/// The outcome of migrating a content archive.
#[derive(Debug, Clone, PartialEq, Eq)]
pub struct ContentArchiveMigration {
    pub before: ContentArchiveMigrationPlan,
    pub after: ArchiveSchemaReport,
    pub migrated_postings: usize,
    pub backup_path: Option<String>,
}

impl ContentArchiveMigration {
    /// `content-archive-migration` line: count, statuses before and after,
    /// backup and path.
    pub fn as_tsv(&self) -> (s: String)
        ensures
            s@ == "content-archive-migration\tmigrated-postings="@ + decimal(self.migrated_postings as nat)
                + "\tbefore-status="@ + status_name(self.before.before.status)
                + "\tafter-status="@ + status_name(self.after.status) + "\tbackup="@
                + field_or_dash(opt_chars(self.backup_path)) + "\tpath="@ + field_text(
                self.after.path@,
            ),
    {
        let mut s = String::from_str("content-archive-migration\tmigrated-postings=");
        push_decimal(&mut s, self.migrated_postings as u64);
        s.append("\tbefore-status=");
        s.append(self.before.before.status.as_str());
        s.append("\tafter-status=");
        s.append(self.after.status.as_str());
        s.append("\tbackup=");
        push_field_or_dash(&mut s, &self.backup_path);
        s.append("\tpath=");
        let p = escape_field(self.after.path.as_str());
        s.append(p.as_str());
        s
    }
}

/// Plans the migration of the content archive at `path`: ready when current,
/// migrate when legacy, otherwise it cannot be migrated.
pub fn plan_content_archive_migration(path: &str, probe: &ArchiveProbe) -> (plan:
    ContentArchiveMigrationPlan)
    ensures
        report_is(
            plan.before,
            ArchiveSchemaKind::Content,
            path@,
            inspect_outcome(ArchiveSchemaKind::Content, *probe),
        ),
        plan.action == content_migration_action(plan.before.status),
        opt_chars(plan.detail) == Some(content_migration_detail(plan.before.status)),
{
    let before = inspect_archive_schema(ArchiveSchemaKind::Content, path, probe);
    content_plan_from_report(before)
}

/// The migration plan for a content archive in the state `before` describes.
pub fn content_plan_from_report(before: ArchiveSchemaReport) -> (plan: ContentArchiveMigrationPlan)
    ensures
        plan.before == before,
        plan.action == content_migration_action(before.status),
        opt_chars(plan.detail) == Some(content_migration_detail(before.status)),
{
    let (action, detail) = match before.status {
        ArchiveSchemaStatus::Current => (
            ContentArchiveMigrationAction::Ready,
            String::from_str("content archive is already current"),
        ),
        ArchiveSchemaStatus::Legacy => (
            ContentArchiveMigrationAction::Migrate,
            String::from_str("legacy content archive can be rewritten as current gfm-content-v5"),
        ),
        ArchiveSchemaStatus::Missing => (
            ContentArchiveMigrationAction::CannotMigrate,
            String::from_str("missing content archive must be rebuilt from extraction segments"),
        ),
        ArchiveSchemaStatus::Unsupported => (
            ContentArchiveMigrationAction::CannotMigrate,
            String::from_str("unsupported content archive schema cannot be migrated"),
        ),
        ArchiveSchemaStatus::Unreadable => (
            ContentArchiveMigrationAction::CannotMigrate,
            String::from_str("unreadable content archive must be quarantined and rebuilt"),
        ),
    };
    ContentArchiveMigrationPlan { action, before, detail: Some(detail) }
}

/// What to do with a metadata archive.
#[derive(Debug, Clone, Copy, PartialEq, Eq, Structural)]
pub enum MetadataArchiveMigrationAction {
    Ready,
    Migrate,
    CannotMigrate,
}

impl MetadataArchiveMigrationAction {
    pub fn as_str(self) -> (s: &'static str)
        ensures
            s@ == migration_action_name(
                self == MetadataArchiveMigrationAction::Ready,
                self == MetadataArchiveMigrationAction::Migrate,
            ),
    {
        match self {
            MetadataArchiveMigrationAction::Ready => "ready",
            MetadataArchiveMigrationAction::Migrate => "migrate",
            MetadataArchiveMigrationAction::CannotMigrate => "cannot-migrate",
        }
    }
}

/// The migration action that a metadata archive's status calls for.
pub open spec fn metadata_migration_action(status: ArchiveSchemaStatus) -> MetadataArchiveMigrationAction {
    match status {
        ArchiveSchemaStatus::Current => MetadataArchiveMigrationAction::Ready,
        ArchiveSchemaStatus::Legacy => MetadataArchiveMigrationAction::Migrate,
        _ => MetadataArchiveMigrationAction::CannotMigrate,
    }
}

/// Why a metadata archive gets its migration action.
pub open spec fn metadata_migration_detail(status: ArchiveSchemaStatus) -> Seq<char> {
    match status {
        ArchiveSchemaStatus::Current => "metadata archive is already current"@,
        ArchiveSchemaStatus::Legacy => "legacy metadata archive can be rewritten as current gfm-metadata-v3"@,
        ArchiveSchemaStatus::Missing => "missing metadata archive must be rebuilt from durable records"@,
        ArchiveSchemaStatus::Unsupported => "unsupported metadata archive schema cannot be migrated"@,
        ArchiveSchemaStatus::Unreadable => "unreadable metadata archive must be quarantined and rebuilt"@,
    }
}

/// The migration plan of a metadata archive.
#[derive(Debug, Clone, PartialEq, Eq)]
pub struct MetadataArchiveMigrationPlan {
    pub action: MetadataArchiveMigrationAction,
    pub before: ArchiveSchemaReport,
    pub detail: Option<String>,
}

impl MetadataArchiveMigrationPlan {
    /// `metadata-archive-migration-plan` line: action, status, schema, current
    /// schema, path and detail.
    pub fn as_tsv(&self) -> (s: String)
        ensures
            s@ == "metadata-archive-migration-plan\taction="@ + migration_action_name(
                self.action == MetadataArchiveMigrationAction::Ready,
                self.action == MetadataArchiveMigrationAction::Migrate,
            ) + "\tstatus="@ + status_name(self.before.status) + "\tschema="@ + or_dash(
                opt_chars(self.before.schema),
            ) + "\tcurrent="@ + self.before.current_schema@ + "\tpath="@ + field_text(
                self.before.path@,
            ) + "\tdetail="@ + field_or_dash(opt_chars(self.detail)),
    {
        let mut s = String::from_str("metadata-archive-migration-plan\taction=");
        s.append(self.action.as_str());
        s.append("\tstatus=");
        s.append(self.before.status.as_str());
        s.append("\tschema=");
        push_or_dash(&mut s, &self.before.schema);
        s.append("\tcurrent=");
        s.append(self.before.current_schema);
        s.append("\tpath=");
        let p = escape_field(self.before.path.as_str());
        s.append(p.as_str());
        s.append("\tdetail=");
        push_field_or_dash(&mut s, &self.detail);
        s
    }
}

/// The outcome of migrating a metadata archive.
#[derive(Debug, Clone, PartialEq, Eq)]
pub struct MetadataArchiveMigration {
    pub before: MetadataArchiveMigrationPlan,
    pub after: ArchiveSchemaReport,
    pub migrated_postings: usize,
    pub backup_path: Option<String>,
}

impl MetadataArchiveMigration {
    /// `metadata-archive-migration` line: count, statuses before and after,
    /// backup and path.
    pub fn as_tsv(&self) -> (s: String)
        ensures
            s@ == "metadata-archive-migration\tmigrated-postings="@ + decimal(self.migrated_postings as nat)
                + "\tbefore-status="@ + status_name(self.before.before.status)
                + "\tafter-status="@ + status_name(self.after.status) + "\tbackup="@
                + field_or_dash(opt_chars(self.backup_path)) + "\tpath="@ + field_text(
                self.after.path@,
            ),
    {
        let mut s = String::from_str("metadata-archive-migration\tmigrated-postings=");
        push_decimal(&mut s, self.migrated_postings as u64);
        s.append("\tbefore-status=");
        s.append(self.before.before.status.as_str());
        s.append("\tafter-status=");
        s.append(self.after.status.as_str());
        s.append("\tbackup=");
        push_field_or_dash(&mut s, &self.backup_path);
        s.append("\tpath=");
        let p = escape_field(self.after.path.as_str());
        s.append(p.as_str());
        s
    }
}

/// Plans the migration of the metadata archive at `path`: ready when current,
/// migrate when legacy, otherwise it cannot be migrated.
pub fn plan_metadata_archive_migration(path: &str, probe: &ArchiveProbe) -> (plan:
    MetadataArchiveMigrationPlan)
    ensures
        report_is(
            plan.before,
            ArchiveSchemaKind::Metadata,
            path@,
            inspect_outcome(ArchiveSchemaKind::Metadata, *probe),
        ),
        plan.action == metadata_migration_action(plan.before.status),
        opt_chars(plan.detail) == Some(metadata_migration_detail(plan.before.status)),
{
    let before = inspect_archive_schema(ArchiveSchemaKind::Metadata, path, probe);
    metadata_plan_from_report(before)
}

/// The migration plan for a metadata archive in the state `before` describes.
pub fn metadata_plan_from_report(before: ArchiveSchemaReport) -> (plan: MetadataArchiveMigrationPlan)
    ensures
        plan.before == before,
        plan.action == metadata_migration_action(before.status),
        opt_chars(plan.detail) == Some(metadata_migration_detail(before.status)),
{
    let (action, detail) = match before.status {
        ArchiveSchemaStatus::Current => (
            MetadataArchiveMigrationAction::Ready,
            String::from_str("metadata archive is already current"),
        ),
        ArchiveSchemaStatus::Legacy => (
            MetadataArchiveMigrationAction::Migrate,
            String::from_str("legacy metadata archive can be rewritten as current gfm-metadata-v3"),
        ),
        ArchiveSchemaStatus::Missing => (
            MetadataArchiveMigrationAction::CannotMigrate,
            String::from_str("missing metadata archive must be rebuilt from durable records"),
        ),
        ArchiveSchemaStatus::Unsupported => (
            MetadataArchiveMigrationAction::CannotMigrate,
            String::from_str("unsupported metadata archive schema cannot be migrated"),
        ),
        ArchiveSchemaStatus::Unreadable => (
            MetadataArchiveMigrationAction::CannotMigrate,
            String::from_str("unreadable metadata archive must be quarantined and rebuilt"),
        ),
    };
    MetadataArchiveMigrationPlan { action, before, detail: Some(detail) }
}

} // verus!
