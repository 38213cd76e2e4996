use vstd::prelude::*;

use crate::contentmerge::ContentMergeTier;
use crate::contentset::{
    duplicate_path_message, empty_manifest_message, lemma_first_duplicate_bounds, entry_paths, entry_view, entry_views,
    first_duplicate, parse_tier, resolve_manifest_path, resolved_path, tier_from_text, tier_name,
    tier_text, ContentArchiveManifest, ContentArchiveManifestEntry,
};
use crate::error::GfmError;
use crate::escape::{
    escape_text, escaped, lemma_escaped_has_no_breaks, lemma_unescape_escaped, unescape_text,
    unescaped, EscapeError,
};
use crate::paths::{path_equivalent, paths_equal};
use crate::text::{
    decimal, is_blank, is_blank_text, lemma_split_concat, lemma_split_without_sep, push_char,
    push_decimal_wide, split_chars, split_on, str_equal, unicode_white_space,
};

verus! {

/// The first line of a content manifest.
pub open spec fn manifest_header() -> Seq<char> {
    "gfm-content-manifest-v1"@
}

/// The line of a manifest that names an archive.
pub open spec fn archive_line(e: (ContentMergeTier, Seq<char>)) -> Seq<char> {
    "archive\t"@ + tier_text(e.0) + "\t"@ + escaped(e.1, false)
}

/// The lines of a manifest of `entries`.
pub open spec fn manifest_lines(entries: Seq<(ContentMergeTier, Seq<char>)>) -> Seq<Seq<char>> {
    seq![manifest_header()] + entries.map_values(|e: (ContentMergeTier, Seq<char>)| archive_line(e))
}

/// Lines, each ended by a line feed.
pub open spec fn text_of_lines(lines: Seq<Seq<char>>) -> Seq<char>
    decreases lines.len(),
{
    if lines.len() == 0 {
        Seq::empty()
    } else {
        text_of_lines(lines.drop_last()) + lines.last() + seq!['\n']
    }
}

/// `<path> line <n>: `, for the line at `index` after the header.
pub open spec fn line_prefix(path: Seq<char>, index: int) -> Seq<char> {
    path + " line "@ + decimal((index + 2) as nat) + ": "@
}

/// The message of a bad escape in a manifest.
pub open spec fn manifest_escape_message(e: EscapeError) -> Seq<char> {
    match e {
        EscapeError::Invalid(c) => "invalid content manifest escape `\\"@ + seq![c] + "`"@,
        EscapeError::Trailing => "trailing content manifest escape"@,
    }
}

/// The resolved paths of manifest entries.
pub open spec fn resolved_paths(path: Seq<char>, es: Seq<(ContentMergeTier, Seq<char>)>) -> Seq<Seq<char>> {
    es.map_values(|e: (ContentMergeTier, Seq<char>)| resolved_path(path, e.1))
}

/// Whether `seen` holds a path equal to `p`.
pub open spec fn seen_equivalent(seen: Seq<Seq<char>>, p: Seq<char>) -> bool {
    exists|k: int| 0 <= k < seen.len() && path_equivalent(#[trigger] seen[k], p)
}

/// What the manifest line `line` at `index` holds, after entries whose
/// resolved paths are `seen`: nothing for a blank line, an archive, or the
/// error that stops the reading.
pub open spec fn manifest_line_entry(
    path: Seq<char>,
    index: int,
    line: Seq<char>,
    seen: Seq<Seq<char>>,
) -> Result<Option<(ContentMergeTier, Seq<char>)>, Seq<char>> {
    if is_blank(line) {
        Ok(None)
    } else {
        let f = split_on(line, '\t');
        if f.len() != 3 || f[0] != "archive"@ {
            Err(line_prefix(path, index) + "expected archive, tier, path"@)
        } else {
            match unescaped(f[2], false) {
                Err(e) => Err(manifest_escape_message(e)),
                Ok(p) => if seen_equivalent(seen, resolved_path(path, p)) {
                    Err(line_prefix(path, index) + "duplicate content archive path `"@ + p + "`"@)
                } else {
                    match tier_from_text(f[1]) {
                        Some(t) => Ok(Some((t, p))),
                        None => Err(
                            line_prefix(path, index) + "unsupported content archive tier `"@ + f[1]
                                + "`"@,
                        ),
                    }
                },
            }
        }
    }
}

/// The entries of the first `n` lines after the header, or the first
/// error.
pub open spec fn manifest_body(path: Seq<char>, body: Seq<Seq<char>>, n: int) -> Result<
    Seq<(ContentMergeTier, Seq<char>)>,
    Seq<char>,
>
    decreases n,
{
    if n <= 0 {
        Ok(Seq::empty())
    } else {
        match manifest_body(path, body, n - 1) {
            Err(e) => Err(e),
            Ok(es) => match manifest_line_entry(path, n - 1, body[n - 1], resolved_paths(path, es)) {
                Err(e) => Err(e),
                Ok(None) => Ok(es),
                Ok(Some(x)) => Ok(es.push(x)),
            },
        }
    }
}

proof fn lemma_manifest_body_err_stable(path: Seq<char>, body: Seq<Seq<char>>, k: int, n: int)
    requires
        0 <= k <= n,
        manifest_body(path, body, k) is Err,
    ensures
        manifest_body(path, body, n) == manifest_body(path, body, k),
    decreases n - k,
{
    if k < n {
        lemma_manifest_body_err_stable(path, body, k, n - 1);
    }
}

/// The entries of the manifest at `path` whose lines are `lines`, or the
/// error that reading it raises.
pub open spec fn manifest_from_lines(path: Seq<char>, lines: Seq<Seq<char>>) -> Result<
    Seq<(ContentMergeTier, Seq<char>)>,
    Seq<char>,
> {
    if lines.len() == 0 {
        Err("empty content manifest "@ + path)
    } else if lines[0] != manifest_header() {
        Err("unsupported content manifest header `"@ + lines[0] + "` in "@ + path)
    } else {
        match manifest_body(path, lines.skip(1), lines.len() - 1) {
            Err(e) => Err(e),
            Ok(es) => if es.len() == 0 {
                Err(empty_manifest_message())
            } else {
                match first_duplicate(
                    es.map_values(|e: (ContentMergeTier, Seq<char>)| e.1),
                    es.len() as int,
                ) {
                    Some(j) => Err(duplicate_path_message(es[j].1)),
                    None => Ok(es),
                }
            },
        }
    }
}

/// The plain values of lines.
pub open spec fn line_views(lines: Seq<String>) -> Seq<Seq<char>> {
    lines.map_values(|l: String| l@)
}

/// Appends `<path> line <index + 2>: `.
fn push_line_prefix(out: &mut String, path: &str, index: usize)
    ensures
        final(out)@ == old(out)@ + line_prefix(path@, index as int),
{
    let ghost start = out@;
    out.append(path);
    out.append(" line ");
    push_decimal_wide(out, index as u128 + 2);
    out.append(": ");
    proof {
        assert(final(out)@ =~= start + line_prefix(path@, index as int));
    }
}

/// Whether a path of `seen` equals `p`.
pub(crate) fn seen_contains(seen: &Vec<String>, p: &str) -> (b: bool)
    ensures
        b == seen_equivalent(line_views(seen@), p@),
{
    let ghost views = line_views(seen@);
    let mut k: usize = 0;
    while k < seen.len()
        invariant
            k <= seen@.len(),
            views == line_views(seen@),
            forall|j: int| 0 <= j < k ==> !path_equivalent(#[trigger] views[j], p@),
        decreases seen@.len() - k,
    {
        if paths_equal(seen[k].as_str(), p) {
            assert(path_equivalent(views[k as int], p@));
            return true;
        }
        k = k + 1;
    }
    false
}


/// The error of a manifest escape, as a manifest error.
fn escape_error(e: EscapeError) -> (g: GfmError)
    ensures
        g matches GfmError::Format(m) && m@ == manifest_escape_message(e),
{
    match e {
        EscapeError::Invalid(c) => {
            let mut m = String::from_str("invalid content manifest escape `\\");
            push_char(&mut m, c);
            m.append("`");
            proof {
                reveal_strlit("invalid content manifest escape `\\");
                reveal_strlit("`");
            }
            GfmError::Format(m)
        },
        EscapeError::Trailing => GfmError::Format(String::from_str("trailing content manifest escape")),
    }
}

/// Reads the manifest line `line` at `index`, after entries whose resolved
/// paths are `seen`.
fn parse_manifest_line(path: &str, index: usize, line: &str, seen: &Vec<String>) -> (r: Result<
    Option<ContentArchiveManifestEntry>,
    GfmError,
>)
    ensures
        match r {
            Ok(None) => manifest_line_entry(path@, index as int, line@, line_views(seen@)) == Ok::<
                Option<(ContentMergeTier, Seq<char>)>,
                Seq<char>,
            >(None),
            Ok(Some(e)) => manifest_line_entry(path@, index as int, line@, line_views(seen@))
                == Ok::<Option<(ContentMergeTier, Seq<char>)>, Seq<char>>(Some(entry_view(e))),
            Err(g) => g matches GfmError::Format(m) && manifest_line_entry(
                path@,
                index as int,
                line@,
                line_views(seen@),
            ) == Err::<Option<(ContentMergeTier, Seq<char>)>, Seq<char>>(m@),
        },
{
    if is_blank_text(line) {
        return Ok(None);
    }
    let fields = split_chars(line, '\t');
    let ghost f = split_on(line@, '\t');
    proof {
        assert(fields@.len() == f.len());
    }
    if fields.len() != 3 || !str_equal(fields[0].as_str(), "archive") {
        proof {
            if fields@.len() == 3 {
                assert(fields@[0]@ == f[0]);
            }
        }
        let mut m = String::new();
        push_line_prefix(&mut m, path, index);
        m.append("expected archive, tier, path");
        return Err(GfmError::Format(m));
    }
    proof {
        assert(fields@[0]@ == f[0]);
        assert(fields@[1]@ == f[1]);
        assert(fields@[2]@ == f[2]);
    }
    let p = match unescape_text(fields[2].as_str(), false) {
        Err(e) => {
            return Err(escape_error(e));
        },
        Ok(p) => p,
    };
    let resolved = resolve_manifest_path(path, p.as_str());
    if seen_contains(seen, resolved.as_str()) {
        let mut m = String::new();
        push_line_prefix(&mut m, path, index);
        m.append("duplicate content archive path `");
        m.append(p.as_str());
        m.append("`");
        return Err(GfmError::Format(m));
    }
    match parse_tier(fields[1].as_str()) {
        Some(tier) => Ok(Some(ContentArchiveManifestEntry { tier, path: p })),
        None => {
            let mut m = String::new();
            push_line_prefix(&mut m, path, index);
            m.append("unsupported content archive tier `");
            m.append(fields[1].as_str());
            m.append("`");
            Err(GfmError::Format(m))
        },
    }
}

impl ContentArchiveManifest {
    /// Reads the manifest at `path` from its lines: the header, then one
    /// `archive`, tier, path line per archive (blank lines are skipped).
    pub fn parse_lines(path: &str, lines: &Vec<String>) -> (r: Result<ContentArchiveManifest, GfmError>)
        ensures
            match r {
                Ok(m) => manifest_from_lines(path@, line_views(lines@)) == Ok::<
                    Seq<(ContentMergeTier, Seq<char>)>,
                    Seq<char>,
                >(entry_views(m.archives@)),
                Err(g) => g matches GfmError::Format(msg) && manifest_from_lines(
                    path@,
                    line_views(lines@),
                ) == Err::<Seq<(ContentMergeTier, Seq<char>)>, Seq<char>>(msg@),
            },
    {
        let ghost lv = line_views(lines@);
        if lines.len() == 0 {
            let mut m = String::from_str("empty content manifest ");
            m.append(path);
            return Err(GfmError::Format(m));
        }
        proof {
            assert(lv[0] == lines@[0]@);
        }
        if !str_equal(lines[0].as_str(), "gfm-content-manifest-v1") {
            let mut m = String::from_str("unsupported content manifest header `");
            m.append(lines[0].as_str());
            m.append("` in ");
            m.append(path);
            return Err(GfmError::Format(m));
        }
        let ghost body = lv.skip(1);
        let mut archives: Vec<ContentArchiveManifestEntry> = Vec::new();
        let mut seen: Vec<String> = Vec::new();
        let mut i: usize = 1;
        proof {
            assert(entry_views(archives@) =~= Seq::<(ContentMergeTier, Seq<char>)>::empty());
            assert(line_views(seen@) =~= Seq::<Seq<char>>::empty());
            assert(resolved_paths(path@, entry_views(archives@)) =~= Seq::<Seq<char>>::empty());
        }
        while i < lines.len()
            invariant
                lv == line_views(lines@),
                body == lv.skip(1),
                1 <= i <= lines@.len(),
                lv[0] == manifest_header(),
                manifest_body(path@, body, i - 1) == Ok::<
                    Seq<(ContentMergeTier, Seq<char>)>,
                    Seq<char>,
                >(entry_views(archives@)),
                line_views(seen@) == resolved_paths(path@, entry_views(archives@)),
            decreases lines@.len() - i,
        {
            proof {
                assert(body[i - 1] == lines@[i as int]@);
            }
            match parse_manifest_line(path, i - 1, lines[i].as_str(), &seen) {
                Err(g) => {
                    proof {
                        let es = entry_views(archives@);
                        assert(manifest_line_entry(
                            path@,
                            i - 1,
                            body[i - 1],
                            resolved_paths(path@, es),
                        ) is Err);
                        assert(manifest_body(path@, body, i as int) is Err);
                        lemma_manifest_body_err_stable(path@, body, i as int, lines@.len() - 1);
                        assert(lv[0] == manifest_header());
                        assert(manifest_from_lines(path@, lv) == manifest_body(path@, body, lines@.len() - 1));
                    }
                    return Err(g);
                },
                Ok(None) => {},
                Ok(Some(e)) => {
                    let r = resolve_manifest_path(path, e.path.as_str());
                    let ghost before = entry_views(archives@);
                    let ghost seen_before = line_views(seen@);
                    let ghost ev = entry_view(e);
                    archives.push(e);
                    seen.push(r);
                    proof {
                        assert(entry_views(archives@) =~= before.push(ev));
                        assert(line_views(seen@) =~= seen_before.push(r@));
                        assert(resolved_paths(path@, before.push(ev)) =~= resolved_paths(
                            path@,
                            before,
                        ).push(resolved_path(path@, ev.1)));
                    }
                },
            }
            i = i + 1;
        }
        proof {
            let es = entry_views(archives@);
            assert(body.len() == lines@.len() - 1);
            assert(entry_paths(archives@) =~= es.map_values(|e: (ContentMergeTier, Seq<char>)| e.1));
            assert(es.len() == archives@.len());
            assert(forall|j: int| 0 <= j < es.len() ==> (#[trigger] es[j]).1 == archives@[j].path@);
            assert(entry_views(ContentArchiveManifest { archives }.archives@) == es);
            assert(manifest_body(path@, body, lines@.len() - 1) == Ok::<
                Seq<(ContentMergeTier, Seq<char>)>,
                Seq<char>,
            >(es));
            assert(lv.skip(1) == body);
            assert(manifest_from_lines(path@, lv) == (if es.len() == 0 {
                Err::<Seq<(ContentMergeTier, Seq<char>)>, Seq<char>>(empty_manifest_message())
            } else {
                match first_duplicate(
                    es.map_values(|e: (ContentMergeTier, Seq<char>)| e.1),
                    es.len() as int,
                ) {
                    Some(j) => Err(duplicate_path_message(es[j].1)),
                    None => Ok(es),
                }
            }));
        }
        let ghost es = entry_views(archives@);
        let ghost ap = archives@;
        match ContentArchiveManifest::new(archives) {
            Ok(m) => {
                assert(entry_views(m.archives@) == es);
                Ok(m)
            },
            Err(g) => {
                proof {
                    if es.len() > 0 {
                        let d = first_duplicate(
                            es.map_values(|e: (ContentMergeTier, Seq<char>)| e.1),
                            es.len() as int,
                        );
                        lemma_first_duplicate_bounds(
                            es.map_values(|e: (ContentMergeTier, Seq<char>)| e.1),
                            es.len() as int,
                        );
                        if let Some(j) = d {
                            assert(es[j].1 == ap[j].path@);
                        }
                    }
                }
                Err(g)
            },
        }
    }

    /// The text of the manifest, or an error for a manifest without
    /// archives.
    pub fn to_text(&self) -> (r: Result<String, GfmError>)
        ensures
            self.archives@.len() == 0 <==> r is Err,
            match r {
                Ok(t) => t@ == text_of_lines(manifest_lines(entry_views(self.archives@))),
                Err(g) => g matches GfmError::Format(m) && m@ == empty_manifest_message(),
            },
    {
        if self.archives.len() == 0 {
            return Err(GfmError::Format(String::from_str("content manifest requires at least one archive")));
        }
        let ghost es = entry_views(self.archives@);
        let mut out = String::from_str("gfm-content-manifest-v1");
        push_char(&mut out, '\n');
        proof {
            let first = seq![manifest_header()];
            assert(manifest_lines(es.take(0)) =~= first);
            assert(first.drop_last() =~= Seq::<Seq<char>>::empty());
            assert(text_of_lines(Seq::<Seq<char>>::empty()) =~= Seq::<char>::empty());
            assert(text_of_lines(first) =~= Seq::<char>::empty() + manifest_header() + seq!['\n']);
            assert(out@ =~= manifest_header() + seq!['\n']);
        }
        let mut i: usize = 0;
        while i < self.archives.len()
            invariant
                es == entry_views(self.archives@),
                i <= self.archives@.len(),
                out@ == text_of_lines(manifest_lines(es.take(i as int))),
            decreases self.archives@.len() - i,
        {
            let ghost before = out@;
            out.append("archive\t");
            out.append(tier_name(self.archives[i].tier));
            out.append("\t");
            let e = escape_text(self.archives[i].path.as_str(), false);
            out.append(e.as_str());
            push_char(&mut out, '\n');
            proof {
                let next = manifest_lines(es.take(i as int + 1));
                assert(next.drop_last() =~= manifest_lines(es.take(i as int)));
                assert(next.last() == archive_line(es[i as int]));
                assert(out@ =~= before + archive_line(es[i as int]) + seq!['\n']);
            }
            i = i + 1;
        }
        proof {
            assert(es.take(i as int) =~= es);
        }
        Ok(out)
    }
}

/// No line of a written manifest holds a line feed, so that reading its
/// text line by line gives its lines back.
pub proof fn lemma_manifest_lines_unbroken(es: Seq<(ContentMergeTier, Seq<char>)>)
    ensures
        forall|k: int, i: int|
            0 <= k < manifest_lines(es).len() && 0 <= i < manifest_lines(es)[k].len()
                ==> #[trigger] manifest_lines(es)[k][i] != '\n',
{
    reveal_strlit("gfm-content-manifest-v1");
    reveal_strlit("archive\t");
    reveal_strlit("\t");
    reveal_strlit("hot");
    reveal_strlit("warm");
    reveal_strlit("cold");
    assert forall|k: int, i: int|
        0 <= k < manifest_lines(es).len() && 0 <= i < manifest_lines(es)[k].len()
            implies #[trigger] manifest_lines(es)[k][i] != '\n' by {
        if k > 0 {
            let e = es[k - 1];
            lemma_escaped_has_no_breaks(e.1, false);
            let line = archive_line(e);
            assert(manifest_lines(es)[k] == line);
            let a = "archive\t"@ + tier_text(e.0) + "\t"@;
            if i >= a.len() {
                assert(line[i] == escaped(e.1, false)[i - a.len()]);
            }
        }
    }
}

/// The line of an archive splits at its tabs into `archive`, the tier
/// name and the escaped path.
proof fn lemma_archive_line_fields(e: (ContentMergeTier, Seq<char>))
    ensures
        split_on(archive_line(e), '\t') == seq!["archive"@, tier_text(e.0), escaped(e.1, false)],
        !is_blank(archive_line(e)),
{
    reveal_strlit("archive\t");
    reveal_strlit("archive");
    reveal_strlit("\t");
    reveal_strlit("hot");
    reveal_strlit("warm");
    reveal_strlit("cold");
    let a = "archive"@;
    let t = tier_text(e.0);
    let x = escaped(e.1, false);
    assert(archive_line(e) =~= (a + seq!['\t'] + t) + seq!['\t'] + x);
    lemma_escaped_has_no_breaks(e.1, false);
    lemma_split_concat(a + seq!['\t'] + t, x, '\t');
    lemma_split_concat(a, t, '\t');
    lemma_split_without_sep(a, '\t');
    lemma_split_without_sep(t, '\t');
    lemma_split_without_sep(x, '\t');
    assert(seq![a] + seq![t] + seq![x] =~= seq![a, t, x]);
    assert(archive_line(e)[0] == 'a');
    assert(!unicode_white_space(archive_line(e)[0]));
}

/// Whether no two entries resolve against `path` to equal paths.
pub open spec fn resolved_distinct(path: Seq<char>, es: Seq<(ContentMergeTier, Seq<char>)>) -> bool {
    forall|i: int, j: int|
        0 <= i < j < es.len() ==> !path_equivalent(
            #[trigger] resolved_path(path, es[i].1),
            #[trigger] resolved_path(path, es[j].1),
        )
}

proof fn lemma_manifest_body_of_lines(path: Seq<char>, es: Seq<(ContentMergeTier, Seq<char>)>, n: int)
    requires
        0 <= n <= es.len(),
        resolved_distinct(path, es),
    ensures
        manifest_body(
            path,
            es.map_values(|e: (ContentMergeTier, Seq<char>)| archive_line(e)),
            n,
        ) == Ok::<Seq<(ContentMergeTier, Seq<char>)>, Seq<char>>(es.take(n)),
    decreases n,
{
    let body = es.map_values(|e: (ContentMergeTier, Seq<char>)| archive_line(e));
    if n == 0 {
        assert(es.take(0) =~= Seq::<(ContentMergeTier, Seq<char>)>::empty());
    } else {
        lemma_manifest_body_of_lines(path, es, n - 1);
        let e = es[n - 1];
        lemma_archive_line_fields(e);
        lemma_unescape_escaped(e.1, false);
        reveal_strlit("hot");
        reveal_strlit("warm");
        reveal_strlit("cold");
        match e.0 {
            ContentMergeTier::Hot => {},
            ContentMergeTier::Warm => {
                assert("warm"@ != "hot"@) by {
                    assert("warm"@.len() != "hot"@.len());
                }
            },
            ContentMergeTier::Cold => {
                assert("cold"@ != "hot"@) by {
                    assert("cold"@.len() != "hot"@.len());
                }
                assert("cold"@ != "warm"@) by {
                    assert("cold"@[0] != "warm"@[0]);
                }
            },
        }
        assert(tier_from_text(tier_text(e.0)) == Some(e.0));
        let seen = resolved_paths(path, es.take(n - 1));
        assert(!seen_equivalent(seen, resolved_path(path, e.1))) by {
            assert forall|k: int| 0 <= k < seen.len() implies !path_equivalent(
                #[trigger] seen[k],
                resolved_path(path, e.1),
            ) by {
                assert(seen[k] == resolved_path(path, es[k].1));
            }
        }
        assert(body[n - 1] == archive_line(e));
        assert(es.take(n - 1).push(e) =~= es.take(n));
    }
}

/// Reading the lines of a manifest gives back its archives, for every
/// manifest whose archives are distinct both as written and as resolved
/// against its own path.
pub proof fn lemma_manifest_round_trip(path: Seq<char>, es: Seq<(ContentMergeTier, Seq<char>)>)
    requires
        es.len() > 0,
        first_duplicate(
            es.map_values(|e: (ContentMergeTier, Seq<char>)| e.1),
            es.len() as int,
        ) is None,
        resolved_distinct(path, es),
    ensures
        manifest_from_lines(path, manifest_lines(es)) == Ok::<
            Seq<(ContentMergeTier, Seq<char>)>,
            Seq<char>,
        >(es),
{
    let lines = manifest_lines(es);
    let body = es.map_values(|e: (ContentMergeTier, Seq<char>)| archive_line(e));
    assert(lines.skip(1) =~= body);
    assert(lines[0] == manifest_header());
    lemma_manifest_body_of_lines(path, es, es.len() as int);
    assert(es.take(es.len() as int) =~= es);
}

} // verus!
