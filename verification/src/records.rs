use vstd::prelude::*;

use crate::error::GfmError;
use crate::escape::{escape_text, escaped, unescape_text, unescaped, EscapeError};
use crate::order::{insert_sorted_unique, strictly_sorted, string_views};
use crate::paths::{file_name, path_file_name};
use crate::text::{
    decimal, digits_value, is_blank, is_blank_text, is_digit, parse_u128_text, parse_u32_text,
    parse_u64_text, parses_unsigned, push_char, push_decimal, push_decimal_wide, split_chars,
    split_on, str_equal, u128_parse_error, u32_parse_error, u64_parse_error, unsigned_digits,
};
use crate::types::{FileId, FileKind, FileRecord, VolumeId};

verus! {

/// The layouts of a record archive.
#[derive(Debug, Clone, Copy, PartialEq, Eq, Structural)]
pub enum StoreVersion {
    V1,
    V2,
    V3,
}

/// The number of fields of a record line in each layout.
pub open spec fn field_count(version: StoreVersion) -> nat {
    match version {
        StoreVersion::V1 => 10,
        StoreVersion::V2 => 11,
        StoreVersion::V3 => 16,
    }
}

/// The code of a file kind.
pub open spec fn kind_code(kind: FileKind) -> Seq<char> {
    match kind {
        FileKind::Directory => "d"@,
        FileKind::File => "f"@,
        FileKind::Symlink => "l"@,
        FileKind::Other => "o"@,
    }
}

/// The file kind a code denotes.
pub open spec fn kind_of_code(code: Seq<char>) -> Option<FileKind> {
    if code == "d"@ {
        Some(FileKind::Directory)
    } else if code == "f"@ {
        Some(FileKind::File)
    } else if code == "l"@ {
        Some(FileKind::Symlink)
    } else if code == "o"@ {
        Some(FileKind::Other)
    } else {
        None
    }
}

/// The code of a file kind.
pub fn encode_kind(kind: FileKind) -> (s: &'static str)
    ensures
        s@ == kind_code(kind),
{
    match kind {
        FileKind::Directory => "d",
        FileKind::File => "f",
        FileKind::Symlink => "l",
        FileKind::Other => "o",
    }
}

/// The message of a bad file kind.
pub open spec fn kind_message(code: Seq<char>) -> Seq<char> {
    "invalid file kind `"@ + code + "`"@
}

/// The file kind a code denotes, or the error.
pub fn decode_kind(value: &str) -> (r: Result<FileKind, String>)
    ensures
        match kind_of_code(value@) {
            Some(k) => r == Ok::<FileKind, String>(k),
            None => r matches Err(m) && m@ == kind_message(value@),
        },
{
    proof {
        reveal_strlit("d");
        reveal_strlit("f");
        reveal_strlit("l");
        reveal_strlit("o");
    }
    if str_equal(value, "d") {
        Ok(FileKind::Directory)
    } else if str_equal(value, "f") {
        Ok(FileKind::File)
    } else if str_equal(value, "l") {
        Ok(FileKind::Symlink)
    } else if str_equal(value, "o") {
        Ok(FileKind::Other)
    } else {
        let mut m = String::from_str("invalid file kind `");
        m.append(value);
        m.append("`");
        Err(m)
    }
}

/// The text of a time: its nanoseconds, or `0` for none.
pub open spec fn time_text(t: Option<u64>) -> Seq<char> {
    match t {
        Some(n) => decimal(n as nat),
        None => "0"@,
    }
}

/// Appends the text of a time.
pub fn push_time(out: &mut String, t: Option<u64>)
    ensures
        final(out)@ == old(out)@ + time_text(t),
{
    match t {
        Some(n) => push_decimal(out, n),
        None => out.append("0"),
    }
}

/// Pieces joined by `sep`.
pub open spec fn join_with(parts: Seq<Seq<char>>, sep: char) -> Seq<char>
    decreases parts.len(),
{
    if parts.len() == 0 {
        Seq::empty()
    } else if parts.len() == 1 {
        parts[0]
    } else {
        join_with(parts.drop_last(), sep) + seq![sep] + parts.last()
    }
}

/// The text of a tag list: each tag escaped (commas too), joined by commas.
pub open spec fn tags_text(tags: Seq<Seq<char>>) -> Seq<char> {
    join_with(tags.map_values(|t: Seq<char>| escaped(t, true)), ',')
}

/// Appends the text of a tag list.
pub fn push_tags(out: &mut String, tags: &Vec<String>)
    ensures
        final(out)@ == old(out)@ + tags_text(string_views(tags@)),
{
    let ghost start = out@;
    let ghost parts = string_views(tags@).map_values(|t: Seq<char>| escaped(t, true));
    let mut i: usize = 0;
    proof {
        assert(parts.take(0) =~= Seq::<Seq<char>>::empty());
        assert(out@ =~= start + join_with(parts.take(0), ','));
    }
    while i < tags.len()
        invariant
            parts == string_views(tags@).map_values(|t: Seq<char>| escaped(t, true)),
            i <= tags@.len(),
            out@ == start + join_with(parts.take(i as int), ','),
        decreases tags@.len() - i,
    {
        let ghost before = out@;
        if i > 0 {
            push_char(out, ',');
        }
        let e = escape_text(tags[i].as_str(), true);
        out.append(e.as_str());
        proof {
            assert(parts[i as int] == escaped(tags@[i as int]@, true));
            assert(parts.take(i as int + 1).drop_last() =~= parts.take(i as int));
            assert(parts.take(i as int + 1).last() == parts[i as int]);
            if i == 0 {
                assert(parts.take(1) =~= seq![parts[0]]);
                assert(out@ =~= start + join_with(parts.take(1), ','));
            } else {
                assert(out@ =~= start + join_with(parts.take(i as int + 1), ','));
            }
        }
        i = i + 1;
    }
    proof {
        assert(parts.take(i as int) =~= parts);
    }
}

/// The fields of a record line in the current layout.
pub open spec fn record_fields(r: FileRecord) -> Seq<Seq<char>> {
    seq![
        decimal(r.id.volume.0 as nat),
        decimal(r.id.node as nat),
        decimal(
            match r.parent {
                Some(p) => p.node as nat,
                None => 0nat,
            },
        ),
        kind_code(r.kind),
        decimal(r.len as nat),
        decimal(r.mode as nat),
        decimal(r.owner as nat),
        decimal(r.group as nat),
        decimal(r.xattrs_digest as nat),
        time_text(r.created),
        time_text(r.modified),
        time_text(r.changed),
        if r.hidden {
            "1"@
        } else {
            "0"@
        },
        tags_text(string_views(r.tags@)),
        match r.finder_comment {
            Some(c) => escaped(c@, true),
            None => Seq::empty(),
        },
        escaped(r.path@, true),
    ]
}

/// The line of a record in the current layout: its fields joined by tabs.
pub open spec fn record_line(r: FileRecord) -> Seq<char> {
    join_with(record_fields(r), '\t')
}

/// The decimal numeral of `n`.
fn decimal_string(n: u64) -> (s: String)
    ensures
        s@ == decimal(n as nat),
{
    let mut s = String::new();
    push_decimal(&mut s, n);
    proof {
        assert(s@ =~= decimal(n as nat));
    }
    s
}

/// Strings joined by `sep`.
pub fn join_strings(parts: &Vec<String>, sep: char) -> (s: String)
    ensures
        s@ == join_with(string_views(parts@), sep),
{
    let ghost pv = string_views(parts@);
    let mut s = String::new();
    let mut i: usize = 0;
    proof {
        assert(pv.take(0) =~= Seq::<Seq<char>>::empty());
    }
    while i < parts.len()
        invariant
            pv == string_views(parts@),
            i <= parts@.len(),
            s@ == join_with(pv.take(i as int), sep),
        decreases parts@.len() - i,
    {
        let ghost before = s@;
        if i > 0 {
            push_char(&mut s, sep);
        }
        s.append(parts[i].as_str());
        proof {
            assert(pv[i as int] == parts@[i as int]@);
            assert(pv.take(i as int + 1).drop_last() =~= pv.take(i as int));
            if i == 0 {
                assert(pv.take(1) =~= seq![pv[0]]);
            }
            assert(s@ =~= join_with(pv.take(i as int + 1), sep));
        }
        i = i + 1;
    }
    proof {
        assert(pv.take(i as int) =~= pv);
    }
    s
}

/// The line of a record in the current layout.
pub fn encode_record(r: &FileRecord) -> (s: String)
    ensures
        s@ == record_line(*r),
{
    let mut fields: Vec<String> = Vec::new();
    fields.push(decimal_string(r.id.volume.0));
    fields.push(decimal_string(r.id.node));
    fields.push(
        decimal_string(
            match r.parent {
                Some(p) => p.node,
                None => 0,
            },
        ),
    );
    fields.push(String::from_str(encode_kind(r.kind)));
    fields.push(decimal_string(r.len));
    fields.push(decimal_string(r.mode as u64));
    fields.push(decimal_string(r.owner as u64));
    fields.push(decimal_string(r.group as u64));
    fields.push(decimal_string(r.xattrs_digest));
    let mut created = String::new();
    push_time(&mut created, r.created);
    fields.push(created);
    let mut modified = String::new();
    push_time(&mut modified, r.modified);
    fields.push(modified);
    let mut changed = String::new();
    push_time(&mut changed, r.changed);
    fields.push(changed);
    fields.push(String::from_str(if r.hidden { "1" } else { "0" }));
    let mut tags = String::new();
    push_tags(&mut tags, &r.tags);
    fields.push(tags);
    fields.push(
        match &r.finder_comment {
            Some(c) => escape_text(c.as_str(), true),
            None => String::new(),
        },
    );
    fields.push(escape_text(r.path.as_str(), true));
    proof {
        assert(string_views(fields@) =~= record_fields(*r));
    }
    join_strings(&fields, '\t')
}

/// The header of a record archive in the current layout.
pub open spec fn records_header() -> Seq<char> {
    "gfm-store-v3"@
}

/// The lines of a record archive of `records`.
pub open spec fn records_lines(records: Seq<FileRecord>) -> Seq<Seq<char>> {
    seq![records_header()] + records.map_values(|r: FileRecord| record_line(r))
}

/// The text of a record archive of `records`: the header and one line per
/// record, each ended by a line feed.
pub fn records_text(records: &Vec<FileRecord>) -> (t: String)
    ensures
        t@ == crate::manifest::text_of_lines(records_lines(records@)),
{
    let mut out = String::from_str("gfm-store-v3");
    push_char(&mut out, '\n');
    proof {
        let first = seq![records_header()];
        assert(first.drop_last() =~= Seq::<Seq<char>>::empty());
        assert(crate::manifest::text_of_lines(Seq::<Seq<char>>::empty()) =~= Seq::<char>::empty());
        assert(records_lines(records@.take(0)) =~= first);
        assert(out@ =~= crate::manifest::text_of_lines(first));
    }
    let mut i: usize = 0;
    while i < records.len()
        invariant
            i <= records@.len(),
            out@ == crate::manifest::text_of_lines(records_lines(records@.take(i as int))),
        decreases records@.len() - i,
    {
        let ghost before = out@;
        let line = encode_record(&records[i]);
        out.append(line.as_str());
        push_char(&mut out, '\n');
        proof {
            let next = records_lines(records@.take(i as int + 1));
            assert(next.drop_last() =~= records_lines(records@.take(i as int)));
            assert(next.last() == record_line(records@[i as int]));
            assert(out@ =~= before + record_line(records@[i as int]) + seq!['\n']);
        }
        i = i + 1;
    }
    proof {
        assert(records@.take(i as int) =~= records@);
    }
    out
}


/// The scanner state after `s` while splitting at unescaped commas: the
/// finished pieces, the current piece and whether a backslash is pending.
pub open spec fn split_state(s: Seq<char>) -> (Seq<Seq<char>>, Seq<char>, bool)
    decreases s.len(),
{
    if s.len() == 0 {
        (Seq::empty(), Seq::empty(), false)
    } else {
        let (parts, cur, esc) = split_state(s.drop_last());
        let c = s.last();
        if esc {
            (parts, cur.push(c), false)
        } else if c == '\\' {
            (parts, cur.push(c), true)
        } else if c == ',' {
            (parts.push(cur), Seq::empty(), false)
        } else {
            (parts, cur.push(c), false)
        }
    }
}

/// The pieces of `s` between commas that no backslash escapes.
pub open spec fn split_escaped(s: Seq<char>) -> Seq<Seq<char>> {
    split_state(s).0.push(split_state(s).1)
}

/// Splits `input` at the commas that no backslash escapes.
pub fn split_escaped_text(input: &str) -> (parts: Vec<String>)
    ensures
        string_views(parts@) == split_escaped(input@),
{
    let n = input.unicode_len();
    let mut parts: Vec<String> = Vec::new();
    let mut cur = String::new();
    let mut esc = false;
    let mut i: usize = 0;
    proof {
        assert(input@.take(0) =~= Seq::<char>::empty());
        assert(string_views(parts@) =~= Seq::<Seq<char>>::empty());
        assert(cur@ =~= Seq::<char>::empty());
    }
    while i < n
        invariant
            n == input@.len(),
            i <= n,
            split_state(input@.take(i as int)) == (string_views(parts@), cur@, esc),
        decreases n - i,
    {
        let c = input.get_char(i);
        proof {
            assert(input@.take(i as int + 1).drop_last() =~= input@.take(i as int));
            assert(input@.take(i as int + 1).last() == c);
        }
        if esc {
            push_char(&mut cur, c);
            esc = false;
        } else if c == '\\' {
            push_char(&mut cur, c);
            esc = true;
        } else if c == ',' {
            let done = cur;
            cur = String::new();
            let ghost before = string_views(parts@);
            parts.push(done);
            proof {
                assert(string_views(parts@) =~= before.push(done@));
                assert(cur@ =~= Seq::<char>::empty());
            }
        } else {
            push_char(&mut cur, c);
        }
        i = i + 1;
    }
    proof {
        assert(input@.take(n as int) =~= input@);
    }
    let ghost before = string_views(parts@);
    parts.push(cur);
    proof {
        assert(string_views(parts@) =~= before.push(cur@));
    }
    parts
}

/// The message of a bad escape in a record.
pub open spec fn record_escape_message(e: EscapeError) -> Seq<char> {
    match e {
        EscapeError::Invalid(c) => "invalid escape `\\"@ + seq![c] + "`"@,
        EscapeError::Trailing => "trailing escape"@,
    }
}

/// The error of a bad escape in a record.
fn record_escape_error(e: EscapeError) -> (m: String)
    ensures
        m@ == record_escape_message(e),
{
    match e {
        EscapeError::Invalid(c) => {
            let mut m = String::from_str("invalid escape `\\");
            push_char(&mut m, c);
            m.append("`");
            proof {
                reveal_strlit("invalid escape `\\");
                reveal_strlit("`");
            }
            m
        },
        EscapeError::Trailing => String::from_str("trailing escape"),
    }
}

/// The unescaped pieces, the first `n` of them, or the first bad escape.
pub open spec fn unescape_all(pieces: Seq<Seq<char>>, n: int) -> Result<Seq<Seq<char>>, EscapeError>
    decreases n,
{
    if n <= 0 {
        Ok(Seq::empty())
    } else {
        match unescape_all(pieces, n - 1) {
            Err(e) => Err(e),
            Ok(ts) => match unescaped(pieces[n - 1], true) {
                Err(e) => Err(e),
                Ok(t) => Ok(ts.push(t)),
            },
        }
    }
}

/// The tags among the first `n` that are not blank.
pub open spec fn nonblank_set(ts: Seq<Seq<char>>, n: int) -> Set<Seq<char>>
    decreases n,
{
    if n <= 0 {
        Set::empty()
    } else if is_blank(ts[n - 1]) {
        nonblank_set(ts, n - 1)
    } else {
        nonblank_set(ts, n - 1).insert(ts[n - 1])
    }
}

/// The tags a tag field holds, as a set, or the error.
pub open spec fn tags_field(v: Seq<char>) -> Result<Set<Seq<char>>, Seq<char>> {
    if v.len() == 0 {
        Ok(Set::empty())
    } else {
        let pieces = split_escaped(v);
        match unescape_all(pieces, pieces.len() as int) {
            Err(e) => Err(record_escape_message(e)),
            Ok(ts) => Ok(nonblank_set(ts, ts.len() as int)),
        }
    }
}

proof fn lemma_unescape_all_err_stable(pieces: Seq<Seq<char>>, k: int, n: int)
    requires
        0 <= k <= n,
        unescape_all(pieces, k) is Err,
    ensures
        unescape_all(pieces, n) == unescape_all(pieces, k),
    decreases n - k,
{
    if k < n {
        lemma_unescape_all_err_stable(pieces, k, n - 1);
    }
}

proof fn lemma_unescape_all_len(pieces: Seq<Seq<char>>, n: int)
    requires
        0 <= n,
    ensures
        unescape_all(pieces, n) matches Ok(ts) ==> ts.len() == n,
    decreases n,
{
    if n > 0 {
        lemma_unescape_all_len(pieces, n - 1);
    }
}

/// The tags of a tag field: unescaped, without blank ones, sorted and
/// without duplicates.
pub fn decode_tags(input: &str) -> (r: Result<Vec<String>, String>)
    ensures
        match r {
            Ok(v) => strictly_sorted(string_views(v@)) && tags_field(input@) == Ok::<
                Set<Seq<char>>,
                Seq<char>,
            >(string_views(v@).to_set()),
            Err(m) => tags_field(input@) == Err::<Set<Seq<char>>, Seq<char>>(m@),
        },
{
    let mut tags: Vec<String> = Vec::new();
    if input.unicode_len() == 0 {
        proof {
            assert(string_views(tags@).to_set() =~= Set::<Seq<char>>::empty());
        }
        return Ok(tags);
    }
    let pieces = split_escaped_text(input);
    let ghost pv = string_views(pieces@);
    let ghost mut ts: Seq<Seq<char>> = Seq::empty();
    let mut i: usize = 0;
    proof {
        assert(string_views(tags@).to_set() =~= Set::<Seq<char>>::empty());
    }
    while i < pieces.len()
        invariant
            pv == string_views(pieces@),
            pv == split_escaped(input@),
            i <= pieces@.len(),
            unescape_all(pv, i as int) == Ok::<Seq<Seq<char>>, EscapeError>(ts),
            ts.len() == i,
            strictly_sorted(string_views(tags@)),
            string_views(tags@).to_set() == nonblank_set(ts, i as int),
        decreases pieces@.len() - i,
    {
        proof {
            assert(pv[i as int] == pieces@[i as int]@);
        }
        match unescape_text(pieces[i].as_str(), true) {
            Err(e) => {
                proof {
                    lemma_unescape_all_err_stable(pv, i as int + 1, pv.len() as int);
                }
                return Err(record_escape_error(e));
            },
            Ok(t) => {
                proof {
                    assert(nonblank_set(ts.push(t@), i as int) == nonblank_set(ts, i as int)) by {
                        lemma_nonblank_set_prefix(ts, t@, i as int);
                    }
                    ts = ts.push(t@);
                }
                if !is_blank_text(t.as_str()) {
                    insert_sorted_unique(&mut tags, t);
                }
            },
        }
        i = i + 1;
    }
    proof {
        assert(pv.len() == pieces@.len());
    }
    Ok(tags)
}

proof fn lemma_nonblank_set_prefix(ts: Seq<Seq<char>>, t: Seq<char>, n: int)
    requires
        0 <= n <= ts.len(),
    ensures
        nonblank_set(ts.push(t), n) == nonblank_set(ts, n),
    decreases n,
{
    if n > 0 {
        lemma_nonblank_set_prefix(ts, t, n - 1);
        assert(ts.push(t)[n - 1] == ts[n - 1]);
    }
}


/// The plain values of a record; its tags as a set.
pub ghost struct RecordView {
    pub id: FileId,
    pub parent: Option<FileId>,
    pub path: Seq<char>,
    pub name: Seq<char>,
    pub kind: FileKind,
    pub len: u64,
    pub mode: u32,
    pub owner: u32,
    pub group: u32,
    pub xattrs_digest: u64,
    pub created: Option<u64>,
    pub modified: Option<u64>,
    pub changed: Option<u64>,
    pub hidden: bool,
    pub tags: Set<Seq<char>>,
    pub finder_comment: Option<Seq<char>>,
}

/// The plain values of a record.
pub open spec fn record_view(r: FileRecord) -> RecordView {
    RecordView {
        id: r.id,
        parent: r.parent,
        path: r.path@,
        name: r.name@,
        kind: r.kind,
        len: r.len,
        mode: r.mode,
        owner: r.owner,
        group: r.group,
        xattrs_digest: r.xattrs_digest,
        created: r.created,
        modified: r.modified,
        changed: r.changed,
        hidden: r.hidden,
        tags: string_views(r.tags@).to_set(),
        finder_comment: match r.finder_comment {
            Some(c) => Some(c@),
            None => None,
        },
    }
}

/// A 64-bit field named `field`, or its error.
pub open spec fn u64_field(value: Seq<char>, field: Seq<char>) -> Result<u64, Seq<char>> {
    if parses_unsigned(value, 0x1_0000_0000_0000_0000) {
        Ok(digits_value(unsigned_digits(value)) as u64)
    } else {
        Err("invalid "@ + field + " `"@ + value + "`: "@ + u64_parse_error(value))
    }
}

/// A 32-bit field named `field`, or its error.
pub open spec fn u32_field(value: Seq<char>, field: Seq<char>) -> Result<u32, Seq<char>> {
    if parses_unsigned(value, 0x1_0000_0000) {
        Ok(digits_value(unsigned_digits(value)) as u32)
    } else {
        Err("invalid "@ + field + " `"@ + value + "`: "@ + u32_parse_error(value))
    }
}

/// A time field: `0` for none, otherwise nanoseconds (capped at the
/// largest 64-bit value), or its error.
pub open spec fn time_field(value: Seq<char>) -> Result<Option<u64>, Seq<char>> {
    if parses_unsigned(value, 0x1_0000_0000_0000_0000_0000_0000_0000_0000int) {
        let n = digits_value(unsigned_digits(value));
        if n == 0 {
            Ok(None)
        } else if n > u64::MAX {
            Ok(Some(u64::MAX))
        } else {
            Ok(Some(n as u64))
        }
    } else {
        Err("invalid timestamp `"@ + value + "`: "@ + u128_parse_error(value))
    }
}

/// A hidden flag, or its error.
pub open spec fn hidden_field(value: Seq<char>) -> Result<bool, Seq<char>> {
    if value == "0"@ {
        Ok(false)
    } else if value == "1"@ {
        Ok(true)
    } else {
        Err("invalid hidden flag `"@ + value + "`"@)
    }
}

/// A comment field: empty for none, otherwise escaped text.
pub open spec fn comment_field(value: Seq<char>) -> Result<Option<Seq<char>>, Seq<char>> {
    if value.len() == 0 {
        Ok(None)
    } else {
        match unescaped(value, true) {
            Err(e) => Err(record_escape_message(e)),
            Ok(c) => Ok(Some(c)),
        }
    }
}

/// An escaped path field.
pub open spec fn path_field(value: Seq<char>) -> Result<Seq<char>, Seq<char>> {
    match unescaped(value, true) {
        Err(e) => Err(record_escape_message(e)),
        Ok(p) => Ok(p),
    }
}

/// A kind field.
pub open spec fn kind_field(value: Seq<char>) -> Result<FileKind, Seq<char>> {
    match kind_of_code(value) {
        Some(k) => Ok(k),
        None => Err(kind_message(value)),
    }
}

/// The name of a file at `path`: its last component, or the whole path
/// where it has none.
pub open spec fn name_of(path: Seq<char>) -> Seq<char> {
    match path_file_name(path) {
        Some(n) => n,
        None => path,
    }
}

/// The mode, owner, group and extended attribute digest of a record line:
/// read in the current layout, zero in older ones.
pub open spec fn meta_fields(f: Seq<Seq<char>>, version: StoreVersion) -> Result<(u32, u32, u32, u64), Seq<char>> {
    if version == StoreVersion::V3 {
        match u32_field(f[5], "mode"@) {
            Err(e) => Err(e),
            Ok(mode) => match u32_field(f[6], "owner"@) {
                Err(e) => Err(e),
                Ok(owner) => match u32_field(f[7], "group"@) {
                    Err(e) => Err(e),
                    Ok(group) => match u64_field(f[8], "xattrs_digest"@) {
                        Err(e) => Err(e),
                        Ok(x) => Ok((mode, owner, group, x)),
                    },
                },
            },
        }
    } else {
        Ok((0, 0, 0, 0))
    }
}

/// The times and hidden flag of a record line, from field `ci` on.
pub open spec fn time_fields(f: Seq<Seq<char>>, ci: int) -> Result<(Option<u64>, Option<u64>, Option<u64>, bool), Seq<char>> {
    match time_field(f[ci]) {
        Err(e) => Err(e),
        Ok(created) => match time_field(f[ci + 1]) {
            Err(e) => Err(e),
            Ok(modified) => match time_field(f[ci + 2]) {
                Err(e) => Err(e),
                Ok(changed) => match hidden_field(f[ci + 3]) {
                    Err(e) => Err(e),
                    Ok(hidden) => Ok((created, modified, changed, hidden)),
                },
            },
        },
    }
}

/// The tags, comment and path of a record line in `version`.
pub open spec fn tail_fields(f: Seq<Seq<char>>, version: StoreVersion) -> Result<(Set<Seq<char>>, Option<Seq<char>>, Seq<char>), Seq<char>> {
    match version {
        StoreVersion::V1 => match path_field(f[9]) {
            Err(e) => Err(e),
            Ok(p) => Ok((Set::empty(), None, p)),
        },
        StoreVersion::V2 => match tags_field(f[9]) {
            Err(e) => Err(e),
            Ok(t) => match path_field(f[10]) {
                Err(e) => Err(e),
                Ok(p) => Ok((t, None, p)),
            },
        },
        StoreVersion::V3 => match tags_field(f[13]) {
            Err(e) => Err(e),
            Ok(t) => match comment_field(f[14]) {
                Err(e) => Err(e),
                Ok(c) => match path_field(f[15]) {
                    Err(e) => Err(e),
                    Ok(p) => Ok((t, c, p)),
                },
            },
        },
    }
}

/// The record a line holds in `version`, or the error that stops reading
/// it: fields are read left to right and the first bad one is reported.
pub open spec fn parsed_record(line: Seq<char>, version: StoreVersion) -> Result<RecordView, Seq<char>> {
    let f = split_on(line, '\t');
    let ci = if version == StoreVersion::V3 {
        9int
    } else {
        5int
    };
    if f.len() != field_count(version) {
        Err("expected "@ + decimal(field_count(version)) + " fields, got "@ + decimal(f.len()))
    } else {
        match u64_field(f[0], "volume"@) {
            Err(e) => Err(e),
            Ok(volume) => match u64_field(f[1], "node"@) {
                Err(e) => Err(e),
                Ok(node) => match u64_field(f[2], "parent"@) {
                    Err(e) => Err(e),
                    Ok(parent) => match kind_field(f[3]) {
                        Err(e) => Err(e),
                        Ok(kind) => match u64_field(f[4], "len"@) {
                            Err(e) => Err(e),
                            Ok(len) => match meta_fields(f, version) {
                                Err(e) => Err(e),
                                Ok(meta) => match time_fields(f, ci) {
                                    Err(e) => Err(e),
                                    Ok(times) => match tail_fields(f, version) {
                                        Err(e) => Err(e),
                                        Ok(tail) => Ok(
                                            RecordView {
                                                id: FileId { volume: VolumeId(volume), node },
                                                parent: if parent != 0 {
                                                    Some(FileId { volume: VolumeId(volume), node: parent })
                                                } else {
                                                    None
                                                },
                                                path: tail.2,
                                                name: name_of(tail.2),
                                                kind,
                                                len,
                                                mode: meta.0,
                                                owner: meta.1,
                                                group: meta.2,
                                                xattrs_digest: meta.3,
                                                created: times.0,
                                                modified: times.1,
                                                changed: times.2,
                                                hidden: times.3,
                                                tags: tail.0,
                                                finder_comment: tail.1,
                                            },
                                        ),
                                    },
                                },
                            },
                        },
                    },
                },
            },
        }
    }
}

/// Reads a 64-bit field named `field`.
fn parse_u64_field(value: &str, field: &str) -> (r: Result<u64, String>)
    ensures
        match r {
            Ok(v) => u64_field(value@, field@) == Ok::<u64, Seq<char>>(v),
            Err(m) => u64_field(value@, field@) == Err::<u64, Seq<char>>(m@),
        },
{
    match parse_u64_text(value) {
        Ok(v) => Ok(v),
        Err(e) => {
            let mut m = String::from_str("invalid ");
            m.append(field);
            m.append(" `");
            m.append(value);
            m.append("`: ");
            m.append(e.as_str());
            Err(m)
        },
    }
}

/// Reads a 32-bit field named `field`.
fn parse_u32_field(value: &str, field: &str) -> (r: Result<u32, String>)
    ensures
        match r {
            Ok(v) => u32_field(value@, field@) == Ok::<u32, Seq<char>>(v),
            Err(m) => u32_field(value@, field@) == Err::<u32, Seq<char>>(m@),
        },
{
    match parse_u32_text(value) {
        Ok(v) => Ok(v),
        Err(e) => {
            let mut m = String::from_str("invalid ");
            m.append(field);
            m.append(" `");
            m.append(value);
            m.append("`: ");
            m.append(e.as_str());
            Err(m)
        },
    }
}

/// Reads a time field.
pub fn decode_time(value: &str) -> (r: Result<Option<u64>, String>)
    ensures
        match r {
            Ok(t) => time_field(value@) == Ok::<Option<u64>, Seq<char>>(t),
            Err(m) => time_field(value@) == Err::<Option<u64>, Seq<char>>(m@),
        },
{
    match parse_u128_text(value) {
        Ok(n) => {
            if n == 0 {
                Ok(None)
            } else if n > u64::MAX as u128 {
                Ok(Some(u64::MAX))
            } else {
                Ok(Some(n as u64))
            }
        },
        Err(e) => {
            let mut m = String::from_str("invalid timestamp `");
            m.append(value);
            m.append("`: ");
            m.append(e.as_str());
            Err(m)
        },
    }
}

/// Reads a hidden flag.
fn decode_hidden(value: &str) -> (r: Result<bool, String>)
    ensures
        match r {
            Ok(b) => hidden_field(value@) == Ok::<bool, Seq<char>>(b),
            Err(m) => hidden_field(value@) == Err::<bool, Seq<char>>(m@),
        },
{
    if str_equal(value, "0") {
        Ok(false)
    } else if str_equal(value, "1") {
        Ok(true)
    } else {
        let mut m = String::from_str("invalid hidden flag `");
        m.append(value);
        m.append("`");
        Err(m)
    }
}

/// Reads a comment field.
pub fn decode_comment(value: &str) -> (r: Result<Option<String>, String>)
    ensures
        match r {
            Ok(c) => comment_field(value@) == Ok::<Option<Seq<char>>, Seq<char>>(
                crate::text::opt_chars(c),
            ),
            Err(m) => comment_field(value@) == Err::<Option<Seq<char>>, Seq<char>>(m@),
        },
{
    if value.unicode_len() == 0 {
        return Ok(None);
    }
    match unescape_text(value, true) {
        Ok(c) => Ok(Some(c)),
        Err(e) => Err(record_escape_error(e)),
    }
}

/// Reads a path field.
fn decode_path(value: &str) -> (r: Result<String, String>)
    ensures
        match r {
            Ok(p) => path_field(value@) == Ok::<Seq<char>, Seq<char>>(p@),
            Err(m) => path_field(value@) == Err::<Seq<char>, Seq<char>>(m@),
        },
{
    match unescape_text(value, true) {
        Ok(p) => Ok(p),
        Err(e) => Err(record_escape_error(e)),
    }
}


fn parse_meta(fields: &Vec<String>, version: StoreVersion) -> (r: Result<(u32, u32, u32, u64), String>)
    requires
        fields@.len() == field_count(version),
    ensures
        match r {
            Ok(m) => meta_fields(string_views(fields@), version) == Ok::<(u32, u32, u32, u64), Seq<char>>(m),
            Err(e) => meta_fields(string_views(fields@), version) == Err::<(u32, u32, u32, u64), Seq<char>>(e@),
        },
{
    let ghost f = string_views(fields@);
    match version {
        StoreVersion::V3 => {
            proof {
                assert(f[5] == fields@[5]@ && f[6] == fields@[6]@ && f[7] == fields@[7]@ && f[8]
                    == fields@[8]@);
            }
            let mode = match parse_u32_field(fields[5].as_str(), "mode") {
                Ok(v) => v,
                Err(e) => {
                    return Err(e);
                },
            };
            let owner = match parse_u32_field(fields[6].as_str(), "owner") {
                Ok(v) => v,
                Err(e) => {
                    return Err(e);
                },
            };
            let group = match parse_u32_field(fields[7].as_str(), "group") {
                Ok(v) => v,
                Err(e) => {
                    return Err(e);
                },
            };
            let x = match parse_u64_field(fields[8].as_str(), "xattrs_digest") {
                Ok(v) => v,
                Err(e) => {
                    return Err(e);
                },
            };
            Ok((mode, owner, group, x))
        },
        _ => Ok((0, 0, 0, 0)),
    }
}

fn parse_times(fields: &Vec<String>, ci: usize) -> (r: Result<(Option<u64>, Option<u64>, Option<u64>, bool), String>)
    requires
        ci <= 9,
        ci + 3 < fields@.len(),
    ensures
        match r {
            Ok(t) => time_fields(string_views(fields@), ci as int) == Ok::<(Option<u64>, Option<u64>, Option<u64>, bool), Seq<char>>(t),
            Err(e) => time_fields(string_views(fields@), ci as int) == Err::<(Option<u64>, Option<u64>, Option<u64>, bool), Seq<char>>(e@),
        },
{
    let ghost f = string_views(fields@);
    proof {
        assert(f[ci as int] == fields@[ci as int]@);
        assert(f[ci + 1] == fields@[ci + 1]@);
        assert(f[ci + 2] == fields@[ci + 2]@);
        assert(f[ci + 3] == fields@[ci + 3]@);
    }
    let created = match decode_time(fields[ci].as_str()) {
        Ok(t) => t,
        Err(e) => {
            return Err(e);
        },
    };
    let modified = match decode_time(fields[ci + 1].as_str()) {
        Ok(t) => t,
        Err(e) => {
            return Err(e);
        },
    };
    let changed = match decode_time(fields[ci + 2].as_str()) {
        Ok(t) => t,
        Err(e) => {
            return Err(e);
        },
    };
    let hidden = match decode_hidden(fields[ci + 3].as_str()) {
        Ok(b) => b,
        Err(e) => {
            return Err(e);
        },
    };
    Ok((created, modified, changed, hidden))
}

/// The plain value of a decoded tail: tag set, comment and path.
pub open spec fn tail_view(t: (Vec<String>, Option<String>, String)) -> (Set<Seq<char>>, Option<Seq<char>>, Seq<char>) {
    (string_views(t.0@).to_set(), crate::text::opt_chars(t.1), t.2@)
}

fn parse_tail(fields: &Vec<String>, version: StoreVersion) -> (r: Result<(Vec<String>, Option<String>, String), String>)
    requires
        fields@.len() == field_count(version),
    ensures
        match r {
            Ok(t) => strictly_sorted(string_views(t.0@)) && tail_fields(string_views(fields@), version)
                == Ok::<(Set<Seq<char>>, Option<Seq<char>>, Seq<char>), Seq<char>>(tail_view(t)),
            Err(e) => tail_fields(string_views(fields@), version) == Err::<(Set<Seq<char>>, Option<Seq<char>>, Seq<char>), Seq<char>>(e@),
        },
{
    let ghost f = string_views(fields@);
    match version {
        StoreVersion::V1 => {
            proof {
                assert(f[9] == fields@[9]@);
            }
            let p = match decode_path(fields[9].as_str()) {
                Ok(p) => p,
                Err(e) => {
                    return Err(e);
                },
            };
            let tags: Vec<String> = Vec::new();
            proof {
                assert(string_views(tags@).to_set() =~= Set::<Seq<char>>::empty());
            }
            Ok((tags, None, p))
        },
        StoreVersion::V2 => {
            proof {
                assert(f[9] == fields@[9]@ && f[10] == fields@[10]@);
            }
            let tags = match decode_tags(fields[9].as_str()) {
                Ok(t) => t,
                Err(e) => {
                    return Err(e);
                },
            };
            let p = match decode_path(fields[10].as_str()) {
                Ok(p) => p,
                Err(e) => {
                    return Err(e);
                },
            };
            Ok((tags, None, p))
        },
        StoreVersion::V3 => {
            proof {
                assert(f[13] == fields@[13]@ && f[14] == fields@[14]@ && f[15] == fields@[15]@);
            }
            let tags = match decode_tags(fields[13].as_str()) {
                Ok(t) => t,
                Err(e) => {
                    return Err(e);
                },
            };
            let comment = match decode_comment(fields[14].as_str()) {
                Ok(c) => c,
                Err(e) => {
                    return Err(e);
                },
            };
            let p = match decode_path(fields[15].as_str()) {
                Ok(p) => p,
                Err(e) => {
                    return Err(e);
                },
            };
            Ok((tags, comment, p))
        },
    }
}

/// The record a line holds in `version`, or the error that stops reading
/// it.
pub fn parse_record(line: &str, version: StoreVersion) -> (r: Result<FileRecord, String>)
    ensures
        match r {
            Ok(rec) => strictly_sorted(string_views(rec.tags@)) && parsed_record(line@, version)
                == Ok::<RecordView, Seq<char>>(record_view(rec)),
            Err(m) => parsed_record(line@, version) == Err::<RecordView, Seq<char>>(m@),
        },
{
    let fields = split_chars(line, '\t');
    let ghost f = split_on(line@, '\t');
    proof {
        assert(string_views(fields@) =~= f);
    }
    let expected: usize = match version {
        StoreVersion::V1 => 10,
        StoreVersion::V2 => 11,
        StoreVersion::V3 => 16,
    };
    if fields.len() != expected {
        let mut m = String::from_str("expected ");
        push_decimal(&mut m, expected as u64);
        m.append(" fields, got ");
        push_decimal(&mut m, fields.len() as u64);
        return Err(m);
    }
    proof {
        assert(f[0] == fields@[0]@ && f[1] == fields@[1]@ && f[2] == fields@[2]@ && f[3]
            == fields@[3]@ && f[4] == fields@[4]@);
    }
    let volume = match parse_u64_field(fields[0].as_str(), "volume") {
        Ok(v) => v,
        Err(e) => {
            return Err(e);
        },
    };
    let node = match parse_u64_field(fields[1].as_str(), "node") {
        Ok(v) => v,
        Err(e) => {
            return Err(e);
        },
    };
    let parent_node = match parse_u64_field(fields[2].as_str(), "parent") {
        Ok(v) => v,
        Err(e) => {
            return Err(e);
        },
    };
    let kind = match decode_kind(fields[3].as_str()) {
        Ok(k) => k,
        Err(e) => {
            return Err(e);
        },
    };
    let len = match parse_u64_field(fields[4].as_str(), "len") {
        Ok(v) => v,
        Err(e) => {
            return Err(e);
        },
    };
    let meta = match parse_meta(&fields, version) {
        Ok(m) => m,
        Err(e) => {
            return Err(e);
        },
    };
    let ci: usize = match version {
        StoreVersion::V3 => 9,
        _ => 5,
    };
    let times = match parse_times(&fields, ci) {
        Ok(t) => t,
        Err(e) => {
            return Err(e);
        },
    };
    let tail = match parse_tail(&fields, version) {
        Ok(t) => t,
        Err(e) => {
            return Err(e);
        },
    };
    let (tags, finder_comment, path) = tail;
    let name = match file_name(path.as_str()) {
        Some(n) => n,
        None => path.clone(),
    };
    let parent = if parent_node != 0 {
        Some(FileId::new(VolumeId(volume), parent_node))
    } else {
        None
    };
    Ok(FileRecord {
        id: FileId::new(VolumeId(volume), node),
        parent,
        path,
        name,
        kind,
        len,
        mode: meta.0,
        owner: meta.1,
        group: meta.2,
        xattrs_digest: meta.3,
        created: times.0,
        modified: times.1,
        changed: times.2,
        hidden: times.3,
        tags,
        finder_comment,
    })
}


/// The layout a header line names.
pub open spec fn version_of_header(h: Seq<char>) -> Option<StoreVersion> {
    if h == "gfm-store-v1"@ {
        Some(StoreVersion::V1)
    } else if h == "gfm-store-v2"@ {
        Some(StoreVersion::V2)
    } else if h == "gfm-store-v3"@ {
        Some(StoreVersion::V3)
    } else {
        None
    }
}

/// The records of the first `n` lines after the header, or the first
/// error, prefixed with the path and line number.
pub open spec fn records_body(path: Seq<char>, body: Seq<Seq<char>>, version: StoreVersion, n: int) -> Result<
    Seq<RecordView>,
    Seq<char>,
>
    decreases n,
{
    if n <= 0 {
        Ok(Seq::empty())
    } else {
        match records_body(path, body, version, n - 1) {
            Err(e) => Err(e),
            Ok(rs) => match parsed_record(body[n - 1], version) {
                Err(e) => Err(crate::manifest::line_prefix(path, n - 1) + e),
                Ok(r) => Ok(rs.push(r)),
            },
        }
    }
}

/// The records of the archive at `path` whose lines are `lines`, or the
/// error that reading it raises.
pub open spec fn records_from_lines(path: Seq<char>, lines: Seq<Seq<char>>) -> Result<
    Seq<RecordView>,
    Seq<char>,
> {
    if lines.len() == 0 {
        Err("empty store "@ + path)
    } else {
        match version_of_header(lines[0]) {
            None => Err("unsupported store header `"@ + lines[0] + "` in "@ + path),
            Some(v) => records_body(path, lines.skip(1), v, lines.len() - 1),
        }
    }
}

proof fn lemma_records_body_err_stable(path: Seq<char>, body: Seq<Seq<char>>, version: StoreVersion, k: int, n: int)
    requires
        0 <= k <= n,
        records_body(path, body, version, k) is Err,
    ensures
        records_body(path, body, version, n) == records_body(path, body, version, k),
    decreases n - k,
{
    if k < n {
        lemma_records_body_err_stable(path, body, version, k, n - 1);
    }
}

/// The plain values of records.
pub open spec fn record_views(rs: Seq<FileRecord>) -> Seq<RecordView> {
    rs.map_values(|r: FileRecord| record_view(r))
}

/// Reads the record archive at `path` from its lines: a header naming the
/// layout, then one record per line.
pub fn parse_records_lines(path: &str, lines: &Vec<String>) -> (r: Result<Vec<FileRecord>, GfmError>)
    ensures
        match r {
            Ok(rs) => records_from_lines(path@, crate::manifest::line_views(lines@)) == Ok::<
                Seq<RecordView>,
                Seq<char>,
            >(record_views(rs@)) && forall|i: int|
                0 <= i < rs@.len() ==> strictly_sorted(string_views(#[trigger] rs@[i].tags@)),
            Err(g) => g matches GfmError::Format(m) && records_from_lines(
                path@,
                crate::manifest::line_views(lines@),
            ) == Err::<Seq<RecordView>, Seq<char>>(m@),
        },
{
    let ghost lv = crate::manifest::line_views(lines@);
    if lines.len() == 0 {
        let mut m = String::from_str("empty store ");
        m.append(path);
        return Err(GfmError::Format(m));
    }
    proof {
        assert(lv[0] == lines@[0]@);
    }
    let header = lines[0].as_str();
    let version = if str_equal(header, "gfm-store-v1") {
        StoreVersion::V1
    } else if str_equal(header, "gfm-store-v2") {
        StoreVersion::V2
    } else if str_equal(header, "gfm-store-v3") {
        StoreVersion::V3
    } else {
        let mut m = String::from_str("unsupported store header `");
        m.append(header);
        m.append("` in ");
        m.append(path);
        return Err(GfmError::Format(m));
    };
    let ghost body = lv.skip(1);
    let mut records: Vec<FileRecord> = Vec::new();
    let mut i: usize = 1;
    proof {
        assert(record_views(records@) =~= Seq::<RecordView>::empty());
    }
    while i < lines.len()
        invariant
            lv == crate::manifest::line_views(lines@),
            body == lv.skip(1),
            1 <= i <= lines@.len(),
            version_of_header(lv[0]) == Some(version),
            records_body(path@, body, version, i - 1) == Ok::<Seq<RecordView>, Seq<char>>(
                record_views(records@),
            ),
            forall|k: int|
                0 <= k < records@.len() ==> strictly_sorted(string_views(#[trigger] records@[k].tags@)),
        decreases lines@.len() - i,
    {
        proof {
            assert(body[i - 1] == lines@[i as int]@);
        }
        match parse_record(lines[i].as_str(), version) {
            Err(e) => {
                let mut m = String::new();
                m.append(path);
                m.append(" line ");
                push_decimal_wide(&mut m, i as u128 + 1);
                m.append(": ");
                m.append(e.as_str());
                proof {
                    assert(m@ =~= crate::manifest::line_prefix(path@, i - 1) + e@);
                    lemma_records_body_err_stable(path@, body, version, i as int, lines@.len() - 1);
                }
                return Err(GfmError::Format(m));
            },
            Ok(rec) => {
                let ghost before = record_views(records@);
                records.push(rec);
                proof {
                    assert(record_views(records@) =~= before.push(record_view(rec)));
                }
            },
        }
        i = i + 1;
    }
    Ok(records)
}


proof fn lemma_digit_char(d: int)
    requires
        0 <= d < 10,
    ensures
        is_digit(crate::text::digit_char(d)),
        crate::text::digit_char(d) as int - '0' as int == d,
{
}

/// A decimal numeral is digits only and has the value it was made from.
pub proof fn lemma_decimal_value(n: nat)
    ensures
        decimal(n).len() > 0,
        forall|i: int| 0 <= i < decimal(n).len() ==> is_digit(#[trigger] decimal(n)[i]),
        digits_value(decimal(n)) == n,
    decreases n,
{
    if n < 10 {
        lemma_digit_char(n as int);
        assert(decimal(n) =~= seq![crate::text::digit_char(n as int)]);
        assert(decimal(n).drop_last() =~= Seq::<char>::empty());
        assert(digits_value(Seq::<char>::empty()) == 0);
        assert(digits_value(decimal(n)) == digits_value(decimal(n).drop_last()) * 10 + (decimal(n).last() as int - '0' as int));
    } else {
        lemma_decimal_value(n / 10);
        lemma_digit_char((n % 10) as int);
        let d = decimal(n);
        assert(d.drop_last() =~= decimal(n / 10));
        assert(d.last() == crate::text::digit_char((n % 10) as int));
        assert forall|i: int| 0 <= i < d.len() implies is_digit(#[trigger] d[i]) by {
            if i < d.len() - 1 {
                assert(d[i] == decimal(n / 10)[i]);
            }
        }
        assert(digits_value(d) == digits_value(decimal(n / 10)) * 10 + (n % 10) as int);
        let q = n / 10;
        assert(digits_value(decimal(q)) == q);
        assert(n == q * 10 + n % 10) by (nonlinear_arith)
            requires
                q == n / 10,
        ;
    }
}

/// An unsigned field reads back the value whose numeral it is.
pub proof fn lemma_decimal_parses(n: nat, bound: int)
    requires
        n < bound,
    ensures
        parses_unsigned(decimal(n), bound),
        digits_value(unsigned_digits(decimal(n))) == n,
{
    lemma_decimal_value(n);
    assert(is_digit(decimal(n)[0]));
    assert(unsigned_digits(decimal(n)) == decimal(n));
}

/// Splitting pieces joined by `sep` gives the pieces back, when no piece
/// holds `sep`.
pub proof fn lemma_join_split(parts: Seq<Seq<char>>, sep: char)
    requires
        parts.len() >= 1,
        forall|k: int, i: int|
            0 <= k < parts.len() && 0 <= i < parts[k].len() ==> #[trigger] parts[k][i] != sep,
    ensures
        split_on(join_with(parts, sep), sep) == parts,
    decreases parts.len(),
{
    if parts.len() == 1 {
        crate::text::lemma_split_without_sep(parts[0], sep);
        assert(seq![parts[0]] =~= parts);
    } else {
        let init = parts.drop_last();
        lemma_join_split(init, sep);
        crate::text::lemma_split_concat(join_with(init, sep), parts.last(), sep);
        crate::text::lemma_split_without_sep(parts.last(), sep);
        assert(init + seq![parts.last()] =~= parts);
    }
}

/// The scanner state after `prefix` followed by an escaped text, from a
/// state without a pending backslash.
proof fn lemma_split_state_escaped(prefix: Seq<char>, t: Seq<char>)
    requires
        split_state(prefix).2 == false,
    ensures
        split_state(prefix + escaped(t, true)) == (
            split_state(prefix).0,
            split_state(prefix).1 + escaped(t, true),
            false,
        ),
    decreases t.len(),
{
    if t.len() == 0 {
        assert(prefix + escaped(t, true) =~= prefix);
        assert(split_state(prefix).1 + escaped(t, true) =~= split_state(prefix).1);
    } else {
        let c = t[0];
        let head = crate::escape::escape_char(c, true);
        let (parts, cur, esc) = split_state(prefix);
        let mid = prefix + head;
        if head.len() == 2 {
            assert((prefix + seq![head[0]]).drop_last() =~= prefix);
            assert(mid.drop_last() =~= prefix + seq![head[0]]);
            assert(split_state(prefix + seq![head[0]]) == (parts, cur.push('\\'), true));
            assert(split_state(mid) == (parts, cur.push('\\').push(head[1]), false));
            assert(cur.push('\\').push(head[1]) =~= cur + head);
        } else {
            assert(mid.drop_last() =~= prefix);
            assert(head == seq![c]);
            assert(split_state(mid) == (parts, cur.push(c), false));
            assert(cur.push(c) =~= cur + head);
        }
        lemma_split_state_escaped(mid, t.skip(1));
        assert(mid + escaped(t.skip(1), true) =~= prefix + escaped(t, true));
        assert(cur + head + escaped(t.skip(1), true) =~= cur + escaped(t, true));
    }
}

/// Splitting escaped tags joined by commas gives the escaped tags back.
proof fn lemma_split_escaped_tags(tags: Seq<Seq<char>>)
    requires
        tags.len() >= 1,
    ensures
        split_state(join_with(tags.map_values(|t: Seq<char>| escaped(t, true)), ',')) == (
            tags.map_values(|t: Seq<char>| escaped(t, true)).drop_last(),
            escaped(tags.last(), true),
            false,
        ),
    decreases tags.len(),
{
    let es = tags.map_values(|t: Seq<char>| escaped(t, true));
    if tags.len() == 1 {
        assert(split_state(Seq::<char>::empty()) == (Seq::<Seq<char>>::empty(), Seq::<char>::empty(), false));
        lemma_split_state_escaped(Seq::<char>::empty(), tags[0]);
        assert(Seq::<char>::empty() + escaped(tags[0], true) =~= escaped(tags[0], true));
        assert(Seq::<char>::empty() + escaped(tags[0], true) =~= escaped(tags[0], true));
        assert(es.drop_last() =~= Seq::<Seq<char>>::empty());
        assert(join_with(es, ',') == es[0]);
    } else {
        let init = tags.drop_last();
        lemma_split_escaped_tags(init);
        let ei = init.map_values(|t: Seq<char>| escaped(t, true));
        assert(es.drop_last() =~= ei);
        let j = join_with(ei, ',');
        let withc = j + seq![','];
        assert(withc.drop_last() =~= j);
        assert(split_state(withc) == (ei.drop_last().push(escaped(init.last(), true)), Seq::<char>::empty(), false));
        assert(ei.drop_last().push(escaped(init.last(), true)) =~= ei);
        lemma_split_state_escaped(withc, tags.last());
        assert(join_with(es, ',') =~= withc + escaped(tags.last(), true));
        assert(Seq::<char>::empty() + escaped(tags.last(), true) =~= escaped(tags.last(), true));
    }
}

/// The nonblank tags of a list without blank tags are all of them.
proof fn lemma_nonblank_set_all(ts: Seq<Seq<char>>, n: int)
    requires
        0 <= n <= ts.len(),
        forall|i: int| 0 <= i < ts.len() ==> !is_blank(#[trigger] ts[i]),
    ensures
        nonblank_set(ts, n) == ts.take(n).to_set(),
    decreases n,
{
    if n == 0 {
        assert(ts.take(0).to_set() =~= Set::<Seq<char>>::empty());
    } else {
        lemma_nonblank_set_all(ts, n - 1);
        assert(ts.take(n) =~= ts.take(n - 1).push(ts[n - 1]));
        assert(ts.take(n).to_set() =~= ts.take(n - 1).to_set().insert(ts[n - 1])) by {
            assert forall|x: Seq<char>| ts.take(n).to_set().contains(x) <==> ts.take(n - 1).to_set().insert(ts[n - 1]).contains(x) by {
                if ts.take(n).to_set().contains(x) {
                    let i = choose|i: int| 0 <= i < ts.take(n).len() && #[trigger] ts.take(n)[i] == x;
                    if i < n - 1 {
                        assert(ts.take(n - 1)[i] == x);
                    }
                }
                if ts.take(n - 1).to_set().contains(x) {
                    let i = choose|i: int| 0 <= i < ts.take(n - 1).len() && #[trigger] ts.take(n - 1)[i] == x;
                    assert(ts.take(n)[i] == x);
                }
                if x == ts[n - 1] {
                    assert(ts.take(n)[n - 1] == x);
                }
            }
        }
    }
}

proof fn lemma_unescape_all_escaped(tags: Seq<Seq<char>>, n: int)
    requires
        0 <= n <= tags.len(),
    ensures
        unescape_all(tags.map_values(|t: Seq<char>| escaped(t, true)), n) == Ok::<
            Seq<Seq<char>>,
            EscapeError,
        >(tags.take(n)),
    decreases n,
{
    if n == 0 {
        assert(tags.take(0) =~= Seq::<Seq<char>>::empty());
    } else {
        lemma_unescape_all_escaped(tags, n - 1);
        crate::escape::lemma_unescape_escaped(tags[n - 1], true);
        assert(tags.take(n) =~= tags.take(n - 1).push(tags[n - 1]));
    }
}

/// A tag list without blank tags reads back as its set of tags.
pub proof fn lemma_tags_round_trip(tags: Seq<Seq<char>>)
    requires
        forall|i: int| 0 <= i < tags.len() ==> !is_blank(#[trigger] tags[i]),
    ensures
        tags_field(tags_text(tags)) == Ok::<Set<Seq<char>>, Seq<char>>(tags.to_set()),
{
    let es = tags.map_values(|t: Seq<char>| escaped(t, true));
    if tags.len() == 0 {
        assert(tags_text(tags) =~= Seq::<char>::empty());
        assert(tags.to_set() =~= Set::<Seq<char>>::empty());
    } else {
        let text = tags_text(tags);
        lemma_split_escaped_tags(tags);
        assert(es.drop_last().push(escaped(tags.last(), true)) =~= es);
        assert(split_escaped(text) == es);
        lemma_unescape_all_escaped(tags, tags.len() as int);
        assert(tags.take(tags.len() as int) =~= tags);
        lemma_nonblank_set_all(tags, tags.len() as int);
        assert(!is_blank(tags[0]));
        assert(tags[0].len() > 0);
        lemma_escaped_len(tags[0]);
        lemma_join_len(es);
        assert(text.len() > 0);
    }
}

proof fn lemma_escaped_len(t: Seq<char>)
    ensures
        escaped(t, true).len() >= t.len(),
    decreases t.len(),
{
    if t.len() > 0 {
        lemma_escaped_len(t.skip(1));
    }
}

proof fn lemma_join_len(parts: Seq<Seq<char>>)
    requires
        parts.len() >= 1,
    ensures
        join_with(parts, ',').len() >= parts[0].len(),
    decreases parts.len(),
{
    if parts.len() > 1 {
        lemma_join_len(parts.drop_last());
    }
}


proof fn lemma_join_without(parts: Seq<Seq<char>>, sep: char, c: char)
    requires
        c != sep,
        forall|k: int, i: int|
            0 <= k < parts.len() && 0 <= i < parts[k].len() ==> #[trigger] parts[k][i] != c,
    ensures
        forall|i: int| 0 <= i < join_with(parts, sep).len() ==> #[trigger] join_with(parts, sep)[i] != c,
    decreases parts.len(),
{
    if parts.len() == 1 {
        assert forall|i: int| 0 <= i < join_with(parts, sep).len() implies #[trigger] join_with(parts, sep)[i] != c by {
            assert(parts[0][i] != c);
        }
    } else if parts.len() > 1 {
        let init = parts.drop_last();
        lemma_join_without(init, sep, c);
        let j = join_with(init, sep);
        let last = parts.last();
        assert forall|i: int| 0 <= i < join_with(parts, sep).len() implies #[trigger] join_with(parts, sep)[i] != c by {
            if i < j.len() {
                assert(join_with(parts, sep)[i] == j[i]);
            } else if i == j.len() {
                assert(join_with(parts, sep)[i] == sep);
            } else {
                assert(join_with(parts, sep)[i] == last[i - j.len() - 1]);
                assert(parts[parts.len() - 1][i - j.len() - 1] != c);
            }
        }
    }
}

/// A record that reads back as itself: its tags are not blank, its
/// comment (if any) is not empty, its times are not the epoch itself, its
/// parent (if any) is on its own volume and is not node zero, and its name
/// is the last component of its path.
pub open spec fn record_round_trips(r: FileRecord) -> bool {
    &&& forall|i: int| 0 <= i < r.tags@.len() ==> !is_blank(#[trigger] r.tags@[i]@)
    &&& r.finder_comment matches Some(c) ==> c@.len() > 0
    &&& r.created != Some(0u64)
    &&& r.modified != Some(0u64)
    &&& r.changed != Some(0u64)
    &&& r.parent matches Some(p) ==> p.volume == r.id.volume && p.node != 0
    &&& r.name@ == name_of(r.path@)
}

proof fn lemma_time_round_trip(t: Option<u64>)
    requires
        t != Some(0u64),
    ensures
        time_field(time_text(t)) == Ok::<Option<u64>, Seq<char>>(t),
        forall|i: int| 0 <= i < time_text(t).len() ==> #[trigger] time_text(t)[i] != '\t',
{
    match t {
        Some(n) => {
            lemma_decimal_parses(n as nat, 0x1_0000_0000_0000_0000_0000_0000_0000_0000int);
            lemma_decimal_value(n as nat);
        },
        None => {
            reveal_strlit("0");
            lemma_decimal_parses(0, 0x1_0000_0000_0000_0000_0000_0000_0000_0000int);
            assert(decimal(0) =~= "0"@);
        },
    }
}

proof fn lemma_kind_round_trip(k: FileKind)
    ensures
        kind_field(kind_code(k)) == Ok::<FileKind, Seq<char>>(k),
{
    reveal_strlit("d");
    reveal_strlit("f");
    reveal_strlit("l");
    reveal_strlit("o");
    assert("f"@ != "d"@) by {
        assert("f"@[0] != "d"@[0]);
    }
    assert("l"@ != "d"@) by {
        assert("l"@[0] != "d"@[0]);
    }
    assert("l"@ != "f"@) by {
        assert("l"@[0] != "f"@[0]);
    }
    assert("o"@ != "d"@) by {
        assert("o"@[0] != "d"@[0]);
    }
    assert("o"@ != "f"@) by {
        assert("o"@[0] != "f"@[0]);
    }
    assert("o"@ != "l"@) by {
        assert("o"@[0] != "l"@[0]);
    }
}

proof fn lemma_hidden_round_trip(b: bool)
    ensures
        hidden_field(if b {
            "1"@
        } else {
            "0"@
        }) == Ok::<bool, Seq<char>>(b),
{
    reveal_strlit("0");
    reveal_strlit("1");
    assert("1"@ != "0"@) by {
        assert("1"@[0] != "0"@[0]);
    }
}

proof fn lemma_decimal_no_tab(n: nat)
    ensures
        forall|i: int| 0 <= i < decimal(n).len() ==> #[trigger] decimal(n)[i] != '\t',
{
    lemma_decimal_value(n);
}

/// A record line of the current layout reads back as the record, for
/// every record that round-trips.
pub proof fn lemma_record_line_round_trip(r: FileRecord)
    requires
        record_round_trips(r),
    ensures
        parsed_record(record_line(r), StoreVersion::V3) == Ok::<RecordView, Seq<char>>(record_view(r)),
{
    let f = record_fields(r);
    let tv = string_views(r.tags@);
    reveal_strlit("0");
    reveal_strlit("1");
    reveal_strlit("d");
    reveal_strlit("f");
    reveal_strlit("l");
    reveal_strlit("o");
    // no field holds a tab
    lemma_decimal_no_tab(r.id.volume.0 as nat);
    lemma_decimal_no_tab(r.id.node as nat);
    let pn: nat = match r.parent {
        Some(p) => p.node as nat,
        None => 0nat,
    };
    lemma_decimal_no_tab(pn);
    lemma_decimal_no_tab(r.len as nat);
    lemma_decimal_no_tab(r.mode as nat);
    lemma_decimal_no_tab(r.owner as nat);
    lemma_decimal_no_tab(r.group as nat);
    lemma_decimal_no_tab(r.xattrs_digest as nat);
    lemma_time_round_trip(r.created);
    lemma_time_round_trip(r.modified);
    lemma_time_round_trip(r.changed);
    let es = tv.map_values(|t: Seq<char>| escaped(t, true));
    assert forall|k: int, i: int| 0 <= k < es.len() && 0 <= i < es[k].len() implies #[trigger] es[k][i] != '\t' by {
        crate::escape::lemma_escaped_has_no_breaks(tv[k], true);
    }
    lemma_join_without(es, ',', '\t');
    crate::escape::lemma_escaped_has_no_breaks(r.path@, true);
    match r.finder_comment {
        Some(c) => {
            crate::escape::lemma_escaped_has_no_breaks(c@, true);
            crate::escape::lemma_unescape_escaped(c@, true);
            lemma_escaped_len(c@);
        },
        None => {},
    }
    assert forall|k: int, i: int| 0 <= k < f.len() && 0 <= i < f[k].len() implies #[trigger] f[k][i] != '\t' by {
        if k == 3 {
            assert(f[3] == kind_code(r.kind));
        }
    }
    lemma_join_split(f, '\t');
    assert(split_on(record_line(r), '\t') == f);
    // each field reads back
    lemma_decimal_parses(r.id.volume.0 as nat, 0x1_0000_0000_0000_0000);
    lemma_decimal_parses(r.id.node as nat, 0x1_0000_0000_0000_0000);
    lemma_decimal_parses(pn, 0x1_0000_0000_0000_0000);
    lemma_decimal_parses(r.len as nat, 0x1_0000_0000_0000_0000);
    lemma_decimal_parses(r.mode as nat, 0x1_0000_0000);
    lemma_decimal_parses(r.owner as nat, 0x1_0000_0000);
    lemma_decimal_parses(r.group as nat, 0x1_0000_0000);
    lemma_decimal_parses(r.xattrs_digest as nat, 0x1_0000_0000_0000_0000);
    lemma_kind_round_trip(r.kind);
    lemma_hidden_round_trip(r.hidden);
    assert(kind_field(f[3]) == Ok::<FileKind, Seq<char>>(r.kind));
    assert(hidden_field(f[12]) == Ok::<bool, Seq<char>>(r.hidden));
    assert forall|i: int| 0 <= i < tv.len() implies !is_blank(#[trigger] tv[i]) by {
        assert(tv[i] == r.tags@[i]@);
    }
    lemma_tags_round_trip(tv);
    crate::escape::lemma_unescape_escaped(r.path@, true);
    assert(meta_fields(f, StoreVersion::V3) == Ok::<(u32, u32, u32, u64), Seq<char>>(
        (r.mode, r.owner, r.group, r.xattrs_digest),
    ));
    assert(time_fields(f, 9) == Ok::<(Option<u64>, Option<u64>, Option<u64>, bool), Seq<char>>(
        (r.created, r.modified, r.changed, r.hidden),
    ));
    let comment_view: Option<Seq<char>> = match r.finder_comment {
        Some(c) => Some(c@),
        None => None,
    };
    assert(comment_field(f[14]) == Ok::<Option<Seq<char>>, Seq<char>>(comment_view));
    assert(tail_fields(f, StoreVersion::V3) == Ok::<(Set<Seq<char>>, Option<Seq<char>>, Seq<char>), Seq<char>>(
        (tv.to_set(), comment_view, r.path@),
    ));
    assert(r.id == FileId { volume: VolumeId(r.id.volume.0), node: r.id.node });
}

/// Reading the text that `records_text` writes gives back every record, for
/// records that round-trip.
pub proof fn lemma_records_round_trip(path: Seq<char>, rs: Seq<FileRecord>)
    requires
        forall|i: int| 0 <= i < rs.len() ==> record_round_trips(#[trigger] rs[i]),
    ensures
        records_from_lines(path, records_lines(rs)) == Ok::<Seq<RecordView>, Seq<char>>(
            record_views(rs),
        ),
{
    let lines = records_lines(rs);
    reveal_strlit("gfm-store-v3");
    reveal_strlit("gfm-store-v2");
    reveal_strlit("gfm-store-v1");
    assert(lines[0] == records_header());
    assert("gfm-store-v3"@ != "gfm-store-v1"@) by {
        assert("gfm-store-v3"@[11] != "gfm-store-v1"@[11]);
    }
    assert("gfm-store-v3"@ != "gfm-store-v2"@) by {
        assert("gfm-store-v3"@[11] != "gfm-store-v2"@[11]);
    }
    assert(version_of_header(lines[0]) == Some(StoreVersion::V3));
    let body = lines.skip(1);
    assert(body =~= rs.map_values(|r: FileRecord| record_line(r)));
    lemma_records_body_round_trip(path, rs, rs.len() as int);
    assert(rs.take(rs.len() as int) =~= rs);
}

proof fn lemma_records_body_round_trip(path: Seq<char>, rs: Seq<FileRecord>, n: int)
    requires
        0 <= n <= rs.len(),
        forall|i: int| 0 <= i < rs.len() ==> record_round_trips(#[trigger] rs[i]),
    ensures
        records_body(path, rs.map_values(|r: FileRecord| record_line(r)), StoreVersion::V3, n)
            == Ok::<Seq<RecordView>, Seq<char>>(record_views(rs.take(n))),
    decreases n,
{
    if n == 0 {
        assert(record_views(rs.take(0)) =~= Seq::<RecordView>::empty());
    } else {
        lemma_records_body_round_trip(path, rs, n - 1);
        lemma_record_line_round_trip(rs[n - 1]);
        assert(record_views(rs.take(n)) =~= record_views(rs.take(n - 1)).push(record_view(rs[n - 1])));
    }
}

} // verus!
