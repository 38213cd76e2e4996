use vstd::prelude::*;

use crate::contentmerge::ContentMergeTier;
use crate::contentset::{
    duplicate_path_message, empty_manifest_message, entry_paths, entry_view, entry_views,
    first_duplicate, lemma_first_duplicate_bounds, parse_tier, promotion_journal_path,
    resolve_manifest_path, resolved_path, tier_from_text, tier_name, tier_text,
    ContentArchiveManifest, ContentArchiveManifestEntry, ContentManifestPromotion,
    ContentManifestPromotionJournal, ContentManifestPromotionRecoveryAction,
    ContentManifestPromotionRecoveryPlan, content_manifest_promotion_journal_path,
};
use crate::contentrecover::copy_entry;
use crate::error::{error_text, GfmError};
use crate::escape::{escape_text, escaped, unescape_text, unescaped, EscapeError};
use crate::manifest::{
    line_prefix, line_views, manifest_escape_message, resolved_paths, seen_equivalent,
    text_of_lines,
};
use crate::paths::{path_equivalent, path_less, path_precedes, paths_equal};
use crate::text::{
    is_blank, is_blank_text, opt_chars, push_char, push_decimal_wide, split_chars, split_on,
    str_equal,
};

verus! {

/// The first line of a promotion journal.
pub open spec fn journal_header() -> Seq<char> {
    "gfm-content-promotion-journal-v1"@
}

/// The message for a journal whose previous manifest has no archive.
pub open spec fn journal_without_previous_message() -> Seq<char> {
    "content promotion journal requires previous manifest archives"@
}

/// The message for a retired path named twice.
pub open spec fn duplicate_retired_message(path: Seq<char>) -> Seq<char> {
    "content promotion journal has duplicate retired archive path `"@ + path + "`"@
}

impl ContentManifestPromotionJournal {
    /// The journal of promoting `new_archive` over `previous` and retiring
    /// `retired_paths`; the previous manifest must hold an archive and no
    /// retired path may be named twice.
    pub fn new(
        previous: ContentArchiveManifest,
        new_archive: ContentArchiveManifestEntry,
        retired_paths: Vec<String>,
    ) -> (r: Result<ContentManifestPromotionJournal, GfmError>)
        ensures
            previous.archives@.len() == 0 ==> (r matches Err(GfmError::Format(m)) && m@
                == journal_without_previous_message()),
            previous.archives@.len() > 0 ==> match first_duplicate(
                line_views(retired_paths@),
                retired_paths@.len() as int,
            ) {
                Some(j) => (r matches Err(GfmError::Format(m)) && m@ == duplicate_retired_message(
                    retired_paths@[j]@,
                )),
                None => r == Ok::<ContentManifestPromotionJournal, GfmError>(
                    ContentManifestPromotionJournal { previous, new_archive, retired_paths },
                ),
            },
    {
        if previous.archives.len() == 0 {
            return Err(
                GfmError::Format(
                    String::from_str("content promotion journal requires previous manifest archives"),
                ),
            );
        }
        let ghost paths = line_views(retired_paths@);
        let mut j: usize = 0;
        while j < retired_paths.len()
            invariant
                j <= retired_paths@.len(),
                paths == line_views(retired_paths@),
                previous.archives@.len() > 0,
                first_duplicate(paths, j as int) is None,
            decreases retired_paths@.len() - j,
        {
            let mut i: usize = 0;
            let mut dup = false;
            while i < j
                invariant
                    j < retired_paths@.len(),
                    paths == line_views(retired_paths@),
                    previous.archives@.len() > 0,
                    first_duplicate(paths, j as int) is None,
                    i <= j,
                    !dup,
                    forall|k: int| 0 <= k < i ==> !path_equivalent(#[trigger] paths[k], paths[j as int]),
                decreases j - i,
            {
                if paths_equal(retired_paths[i].as_str(), retired_paths[j].as_str()) {
                    assert(path_equivalent(paths[i as int], paths[j as int]));
                    proof {
                        assert(crate::contentset::has_earlier_equivalent(paths, j as int));
                        assert(first_duplicate(paths, j as int + 1) == Some(j as int));
                        crate::contentset::lemma_first_duplicate_stable(
                            paths,
                            j as int + 1,
                            retired_paths@.len() as int,
                        );
                    }
                    let mut m = String::from_str("content promotion journal has duplicate retired archive path `");
                    m.append(retired_paths[j].as_str());
                    m.append("`");
                    return Err(GfmError::Format(m));
                }
                i = i + 1;
            }
            proof {
                assert(!crate::contentset::has_earlier_equivalent(paths, j as int));
            }
            j = j + 1;
        }
        Ok(ContentManifestPromotionJournal { previous, new_archive, retired_paths })
    }
}

/// The plain values of a journal: the previous archives, the new archive
/// and the retired paths.
pub ghost struct JournalView {
    pub previous: Seq<(ContentMergeTier, Seq<char>)>,
    pub new_archive: Option<(ContentMergeTier, Seq<char>)>,
    pub retired: Seq<Seq<char>>,
}

/// The plain values of a journal.
pub open spec fn journal_view(j: ContentManifestPromotionJournal) -> JournalView {
    JournalView {
        previous: entry_views(j.previous.archives@),
        new_archive: Some(entry_view(j.new_archive)),
        retired: line_views(j.retired_paths@),
    }
}

/// The paths of entries.
pub open spec fn view_paths(es: Seq<(ContentMergeTier, Seq<char>)>) -> Seq<Seq<char>> {
    es.map_values(|e: (ContentMergeTier, Seq<char>)| e.1)
}

/// The archive of a `previous` or `new` line, from its tier and escaped
/// path fields: the tier is read first.
pub open spec fn journal_archive(path: Seq<char>, index: int, tier: Seq<char>, escaped_path: Seq<char>) -> Result<
    (ContentMergeTier, Seq<char>),
    Seq<char>,
> {
    match tier_from_text(tier) {
        None => Err(line_prefix(path, index) + "unsupported content archive tier `"@ + tier + "`"@),
        Some(t) => match unescaped(escaped_path, false) {
            Err(e) => Err(manifest_escape_message(e)),
            Ok(p) => Ok((t, p)),
        },
    }
}

/// The journal after its line `line` at `index`, from the journal `j` of
/// the lines before it.
pub open spec fn journal_step(path: Seq<char>, index: int, line: Seq<char>, j: JournalView) -> Result<
    JournalView,
    Seq<char>,
> {
    let pre = line_prefix(path, index);
    let f = split_on(line, '\t');
    if is_blank(line) {
        Ok(j)
    } else if f.len() == 3 && f[0] == "previous"@ {
        match journal_archive(path, index, f[1], f[2]) {
            Err(e) => Err(e),
            Ok(a) => if seen_equivalent(view_paths(j.previous), a.1) {
                Err(pre + "duplicate previous archive path `"@ + a.1 + "`"@)
            } else {
                Ok(JournalView { previous: j.previous.push(a), ..j })
            },
        }
    } else if f.len() == 3 && f[0] == "new"@ {
        if j.new_archive is Some {
            Err(pre + "duplicate new archive"@)
        } else {
            match journal_archive(path, index, f[1], f[2]) {
                Err(e) => Err(e),
                Ok(a) => Ok(JournalView { new_archive: Some(a), ..j }),
            }
        }
    } else if f.len() == 2 && f[0] == "retire"@ {
        match unescaped(f[1], false) {
            Err(e) => Err(manifest_escape_message(e)),
            Ok(p) => if seen_equivalent(j.retired, p) {
                Err(pre + "duplicate retired archive path `"@ + p + "`"@)
            } else {
                Ok(JournalView { retired: j.retired.push(p), ..j })
            },
        }
    } else {
        Err(pre + "expected previous, new, or retire entry"@)
    }
}

/// The journal of the first `n` lines after the header, or the first
/// error.
pub open spec fn journal_body(path: Seq<char>, body: Seq<Seq<char>>, n: int) -> Result<
    JournalView,
    Seq<char>,
>
    decreases n,
{
    if n <= 0 {
        Ok(JournalView { previous: Seq::empty(), new_archive: None, retired: Seq::empty() })
    } else {
        match journal_body(path, body, n - 1) {
            Err(e) => Err(e),
            Ok(j) => journal_step(path, n - 1, body[n - 1], j),
        }
    }
}

/// The journal at `path` whose lines are `lines`, or the error that
/// reading it raises.
pub open spec fn journal_from_lines(path: Seq<char>, lines: Seq<Seq<char>>) -> Result<
    JournalView,
    Seq<char>,
> {
    if lines.len() == 0 {
        Err("empty content promotion journal "@ + path)
    } else if lines[0] != journal_header() {
        Err("unsupported content promotion journal header `"@ + lines[0] + "` in "@ + path)
    } else {
        match journal_body(path, lines.skip(1), lines.len() - 1) {
            Err(e) => Err(e),
            Ok(j) => if j.previous.len() == 0 {
                Err(empty_manifest_message())
            } else if first_duplicate(view_paths(j.previous), j.previous.len() as int) is Some {
                Err(
                    duplicate_path_message(
                        j.previous[first_duplicate(
                            view_paths(j.previous),
                            j.previous.len() as int,
                        )->0].1,
                    ),
                )
            } else if j.new_archive is None {
                Err("content promotion journal "@ + path + " requires a new archive"@)
            } else if first_duplicate(j.retired, j.retired.len() as int) is Some {
                Err(
                    duplicate_retired_message(
                        j.retired[first_duplicate(j.retired, j.retired.len() as int)->0],
                    ),
                )
            } else {
                Ok(j)
            },
        }
    }
}


/// Appends `<path> line <index + 2>: `.
fn push_prefix(out: &mut String, path: &str, index: usize)
    ensures
        final(out)@ == old(out)@ + line_prefix(path@, index as int),
{
    let ghost start = out@;
    out.append(path);
    out.append(" line ");
    push_decimal_wide(out, index as u128 + 2);
    out.append(": ");
    proof {
        assert(final(out)@ =~= start + line_prefix(path@, index as int));
    }
}

/// The error of a bad escape.
fn journal_escape_error(e: EscapeError) -> (g: GfmError)
    ensures
        g matches GfmError::Format(m) && m@ == manifest_escape_message(e),
{
    match e {
        EscapeError::Invalid(c) => {
            let mut m = String::from_str("invalid content manifest escape `\\");
            push_char(&mut m, c);
            m.append("`");
            proof {
                reveal_strlit("invalid content manifest escape `\\");
                reveal_strlit("`");
            }
            GfmError::Format(m)
        },
        EscapeError::Trailing => GfmError::Format(String::from_str("trailing content manifest escape")),
    }
}

/// Reads the archive of a `previous` or `new` line.
fn parse_journal_archive(path: &str, index: usize, tier: &str, escaped_path: &str) -> (r: Result<
    ContentArchiveManifestEntry,
    GfmError,
>)
    ensures
        match r {
            Ok(e) => journal_archive(path@, index as int, tier@, escaped_path@) == Ok::<
                (ContentMergeTier, Seq<char>),
                Seq<char>,
            >(entry_view(e)),
            Err(g) => g matches GfmError::Format(m) && journal_archive(
                path@,
                index as int,
                tier@,
                escaped_path@,
            ) == Err::<(ContentMergeTier, Seq<char>), Seq<char>>(m@),
        },
{
    match parse_tier(tier) {
        None => {
            let mut m = String::new();
            push_prefix(&mut m, path, index);
            m.append("unsupported content archive tier `");
            m.append(tier);
            m.append("`");
            Err(GfmError::Format(m))
        },
        Some(t) => match unescape_text(escaped_path, false) {
            Err(e) => Err(journal_escape_error(e)),
            Ok(p) => Ok(ContentArchiveManifestEntry { tier: t, path: p }),
        },
    }
}

/// Whether a path of `seen` equals `p`.
fn contains_equivalent(seen: &Vec<String>, p: &str) -> (b: bool)
    ensures
        b == seen_equivalent(line_views(seen@), p@),
{
    let ghost views = line_views(seen@);
    let mut k: usize = 0;
    while k < seen.len()
        invariant
            k <= seen@.len(),
            views == line_views(seen@),
            forall|j: int| 0 <= j < k ==> !path_equivalent(#[trigger] views[j], p@),
        decreases seen@.len() - k,
    {
        if paths_equal(seen[k].as_str(), p) {
            assert(path_equivalent(views[k as int], p@));
            return true;
        }
        k = k + 1;
    }
    false
}

proof fn lemma_journal_body_err_stable(path: Seq<char>, body: Seq<Seq<char>>, k: int, n: int)
    requires
        0 <= k <= n,
        journal_body(path, body, k) is Err,
    ensures
        journal_body(path, body, n) == journal_body(path, body, k),
    decreases n - k,
{
    if k < n {
        lemma_journal_body_err_stable(path, body, k, n - 1);
    }
}

/// The journal built so far.
pub open spec fn partial_view(
    previous: Seq<ContentArchiveManifestEntry>,
    new_archive: Option<ContentArchiveManifestEntry>,
    retired: Seq<String>,
) -> JournalView {
    JournalView {
        previous: entry_views(previous),
        new_archive: match new_archive {
            Some(e) => Some(entry_view(e)),
            None => None,
        },
        retired: line_views(retired),
    }
}

impl ContentManifestPromotionJournal {
    /// Reads the journal at `path` from its lines: the header, then
    /// `previous` and `new` lines (tier and path) and `retire` lines (path).
    pub fn parse_lines(path: &str, lines: &Vec<String>) -> (r: Result<
        ContentManifestPromotionJournal,
        GfmError,
    >)
        ensures
            match r {
                Ok(j) => journal_from_lines(path@, line_views(lines@)) == Ok::<JournalView, Seq<char>>(
                    journal_view(j),
                ),
                Err(g) => g matches GfmError::Format(m) && journal_from_lines(
                    path@,
                    line_views(lines@),
                ) == Err::<JournalView, Seq<char>>(m@),
            },
    {
        let ghost lv = line_views(lines@);
        if lines.len() == 0 {
            let mut m = String::from_str("empty content promotion journal ");
            m.append(path);
            return Err(GfmError::Format(m));
        }
        proof {
            assert(lv[0] == lines@[0]@);
        }
        if !str_equal(lines[0].as_str(), "gfm-content-promotion-journal-v1") {
            let mut m = String::from_str("unsupported content promotion journal header `");
            m.append(lines[0].as_str());
            m.append("` in ");
            m.append(path);
            return Err(GfmError::Format(m));
        }
        let ghost body = lv.skip(1);
        let mut previous: Vec<ContentArchiveManifestEntry> = Vec::new();
        let mut previous_paths: Vec<String> = Vec::new();
        let mut new_archive: Option<ContentArchiveManifestEntry> = None;
        let mut retired: Vec<String> = Vec::new();
        let mut i: usize = 1;
        proof {
            assert(entry_views(previous@) =~= Seq::<(ContentMergeTier, Seq<char>)>::empty());
            assert(line_views(retired@) =~= Seq::<Seq<char>>::empty());
            assert(line_views(previous_paths@) =~= Seq::<Seq<char>>::empty());
        }
        while i < lines.len()
            invariant
                lv == line_views(lines@),
                body == lv.skip(1),
                1 <= i <= lines@.len(),
                lv[0] == journal_header(),
                journal_body(path@, body, i - 1) == Ok::<JournalView, Seq<char>>(
                    partial_view(previous@, new_archive, retired@),
                ),
                line_views(previous_paths@) == view_paths(entry_views(previous@)),
            decreases lines@.len() - i,
        {
            let line = lines[i].as_str();
            let ghost j = partial_view(previous@, new_archive, retired@);
            proof {
                assert(body[i - 1] == line@);
            }
            let step: Result<(), GfmError> = if is_blank_text(line) {
                Ok(())
            } else {
                let fields = split_chars(line, '\t');
                let ghost f = split_on(line@, '\t');
                proof {
                    assert(fields@.len() == f.len());
                    if fields@.len() >= 1 {
                        assert(fields@[0]@ == f[0]);
                    }
                    if fields@.len() >= 2 {
                        assert(fields@[1]@ == f[1]);
                    }
                    if fields@.len() >= 3 {
                        assert(fields@[2]@ == f[2]);
                    }
                }
                if fields.len() == 3 && str_equal(fields[0].as_str(), "previous") {
                    match parse_journal_archive(path, i - 1, fields[1].as_str(), fields[2].as_str()) {
                        Err(g) => Err(g),
                        Ok(a) => {
                            if contains_equivalent(&previous_paths, a.path.as_str()) {
                                let mut m = String::new();
                                push_prefix(&mut m, path, i - 1);
                                m.append("duplicate previous archive path `");
                                m.append(a.path.as_str());
                                m.append("`");
                                Err(GfmError::Format(m))
                            } else {
                                let ghost before = entry_views(previous@);
                                let ghost pp = line_views(previous_paths@);
                                previous_paths.push(a.path.clone());
                                previous.push(a);
                                proof {
                                    assert(entry_views(previous@) =~= before.push(entry_view(a)));
                                    assert(line_views(previous_paths@) =~= pp.push(a.path@));
                                    assert(view_paths(before.push(entry_view(a))) =~= view_paths(
                                        before,
                                    ).push(a.path@));
                                }
                                Ok(())
                            }
                        },
                    }
                } else if fields.len() == 3 && str_equal(fields[0].as_str(), "new") {
                    if new_archive.is_some() {
                        let mut m = String::new();
                        push_prefix(&mut m, path, i - 1);
                        m.append("duplicate new archive");
                        Err(GfmError::Format(m))
                    } else {
                        match parse_journal_archive(path, i - 1, fields[1].as_str(), fields[2].as_str()) {
                            Err(g) => Err(g),
                            Ok(a) => {
                                new_archive = Some(a);
                                Ok(())
                            },
                        }
                    }
                } else if fields.len() == 2 && str_equal(fields[0].as_str(), "retire") {
                    match unescape_text(fields[1].as_str(), false) {
                        Err(e) => Err(journal_escape_error(e)),
                        Ok(p) => {
                            if contains_equivalent(&retired, p.as_str()) {
                                let mut m = String::new();
                                push_prefix(&mut m, path, i - 1);
                                m.append("duplicate retired archive path `");
                                m.append(p.as_str());
                                m.append("`");
                                Err(GfmError::Format(m))
                            } else {
                                let ghost before = line_views(retired@);
                                retired.push(p);
                                proof {
                                    assert(line_views(retired@) =~= before.push(p@));
                                }
                                Ok(())
                            }
                        },
                    }
                } else {
                    let mut m = String::new();
                    push_prefix(&mut m, path, i - 1);
                    m.append("expected previous, new, or retire entry");
                    Err(GfmError::Format(m))
                }
            };
            match step {
                Err(g) => {
                    proof {
                        assert(journal_step(path@, i - 1, body[i - 1], j) is Err);
                        lemma_journal_body_err_stable(path@, body, i as int, lines@.len() - 1);
                    }
                    return Err(g);
                },
                Ok(()) => {},
            }
            proof {
                assert(journal_body(path@, body, i as int) == Ok::<JournalView, Seq<char>>(
                    partial_view(previous@, new_archive, retired@),
                ));
            }
            i = i + 1;
        }
        let ghost jv = partial_view(previous@, new_archive, retired@);
        proof {
            assert(body.len() == lines@.len() - 1);
            assert(entry_paths(previous@) =~= view_paths(entry_views(previous@)));
        }
        let ghost pv = previous@;
        let manifest = match ContentArchiveManifest::new(previous) {
            Err(g) => {
                proof {
                    lemma_first_duplicate_bounds(view_paths(jv.previous), jv.previous.len() as int);
                    if jv.previous.len() > 0 {
                        if let Some(k) = first_duplicate(view_paths(jv.previous), jv.previous.len() as int) {
                            assert(jv.previous[k].1 == pv[k].path@);
                        }
                    }
                }
                return Err(g);
            },
            Ok(m) => m,
        };
        let new_archive = match new_archive {
            None => {
                let mut m = String::from_str("content promotion journal ");
                m.append(path);
                m.append(" requires a new archive");
                return Err(GfmError::Format(m));
            },
            Some(a) => a,
        };
        let ghost rv = retired@;
        match ContentManifestPromotionJournal::new(manifest, new_archive, retired) {
            Err(g) => {
                proof {
                    lemma_first_duplicate_bounds(jv.retired, jv.retired.len() as int);
                }
                Err(g)
            },
            Ok(j) => Ok(j),
        }
    }

    /// The text of the journal.
    pub fn to_text(&self) -> (t: String)
        ensures
            t@ == text_of_lines(journal_lines(journal_view(*self))),
    {
        let ghost jv = journal_view(*self);
        let ghost prev = jv.previous;
        let mut out = String::from_str("gfm-content-promotion-journal-v1");
        push_char(&mut out, '\n');
        proof {
            let first = seq![journal_header()];
            assert(first.drop_last() =~= Seq::<Seq<char>>::empty());
            assert(text_of_lines(Seq::<Seq<char>>::empty()) =~= Seq::<char>::empty());
            assert(out@ =~= text_of_lines(first));
        }
        let ghost mut lines_so_far: Seq<Seq<char>> = seq![journal_header()];
        let mut i: usize = 0;
        while i < self.previous.archives.len()
            invariant
                jv == journal_view(*self),
                prev == jv.previous,
                i <= prev.len(),
                lines_so_far == seq![journal_header()] + prev.take(i as int).map_values(
                    |e: (ContentMergeTier, Seq<char>)| previous_line(e),
                ),
                out@ == text_of_lines(lines_so_far),
            decreases prev.len() - i,
        {
            let ghost before = out@;
            let e = &self.previous.archives[i];
            out.append("previous\t");
            out.append(tier_name(e.tier));
            out.append("\t");
            let x = escape_text(e.path.as_str(), false);
            out.append(x.as_str());
            push_char(&mut out, '\n');
            proof {
                let next = lines_so_far.push(previous_line(prev[i as int]));
                assert(next.drop_last() =~= lines_so_far);
                assert(out@ =~= before + previous_line(prev[i as int]) + seq!['\n']);
                assert(prev.take(i as int + 1).map_values(
                    |e: (ContentMergeTier, Seq<char>)| previous_line(e),
                ) =~= prev.take(i as int).map_values(
                    |e: (ContentMergeTier, Seq<char>)| previous_line(e),
                ).push(previous_line(prev[i as int])));
                lines_so_far = next;
            }
            i = i + 1;
        }
        let ghost before_new = out@;
        out.append("new\t");
        out.append(tier_name(self.new_archive.tier));
        out.append("\t");
        let x = escape_text(self.new_archive.path.as_str(), false);
        out.append(x.as_str());
        push_char(&mut out, '\n');
        proof {
            let nl = new_line(entry_view(self.new_archive));
            let next = lines_so_far.push(nl);
            assert(next.drop_last() =~= lines_so_far);
            assert(out@ =~= before_new + nl + seq!['\n']);
            assert(prev.take(i as int) =~= prev);
            lines_so_far = next;
        }
        let ghost rv = jv.retired;
        let ghost base = lines_so_far;
        let mut k: usize = 0;
        while k < self.retired_paths.len()
            invariant
                jv == journal_view(*self),
                rv == jv.retired,
                k <= rv.len(),
                lines_so_far == base + rv.take(k as int).map_values(|p: Seq<char>| retire_line(p)),
                out@ == text_of_lines(lines_so_far),
            decreases rv.len() - k,
        {
            let ghost before = out@;
            out.append("retire\t");
            let x = escape_text(self.retired_paths[k].as_str(), false);
            out.append(x.as_str());
            push_char(&mut out, '\n');
            proof {
                assert(rv[k as int] == self.retired_paths@[k as int]@);
                let next = lines_so_far.push(retire_line(rv[k as int]));
                assert(next.drop_last() =~= lines_so_far);
                assert(out@ =~= before + retire_line(rv[k as int]) + seq!['\n']);
                assert(rv.take(k as int + 1).map_values(|p: Seq<char>| retire_line(p)) =~= rv.take(
                    k as int,
                ).map_values(|p: Seq<char>| retire_line(p)).push(retire_line(rv[k as int])));
                lines_so_far = next;
            }
            k = k + 1;
        }
        proof {
            assert(rv.take(k as int) =~= rv);
            assert(lines_so_far =~= journal_lines(jv));
        }
        out
    }
}

/// The line of a previous archive.
pub open spec fn previous_line(e: (ContentMergeTier, Seq<char>)) -> Seq<char> {
    "previous\t"@ + tier_text(e.0) + "\t"@ + escaped(e.1, false)
}

/// The line of the new archive.
pub open spec fn new_line(e: (ContentMergeTier, Seq<char>)) -> Seq<char> {
    "new\t"@ + tier_text(e.0) + "\t"@ + escaped(e.1, false)
}

/// The line of a retired path.
pub open spec fn retire_line(p: Seq<char>) -> Seq<char> {
    "retire\t"@ + escaped(p, false)
}

/// The lines of a journal: the header, the previous archives, the new
/// archive and the retired paths.
pub open spec fn journal_lines(j: JournalView) -> Seq<Seq<char>> {
    seq![journal_header()] + j.previous.map_values(|e: (ContentMergeTier, Seq<char>)| previous_line(e))
        + match j.new_archive {
        Some(a) => seq![new_line(a)],
        None => Seq::empty(),
    } + j.retired.map_values(|p: Seq<char>| retire_line(p))
}


/// Whether the archive `e` leaves the manifest at `mp` when `new_resolved`
/// is promoted and the resolved paths `retired` are retired.
pub open spec fn leaves(mp: Seq<char>, retired: Seq<Seq<char>>, new_resolved: Seq<char>, e: (
    ContentMergeTier,
    Seq<char>,
)) -> bool {
    let r = resolved_path(mp, e.1);
    seen_equivalent(retired, r) || path_equivalent(r, new_resolved)
}

/// The resolved paths of `paths`.
pub open spec fn resolved_all(mp: Seq<char>, paths: Seq<Seq<char>>) -> Seq<Seq<char>> {
    paths.map_values(|p: Seq<char>| resolved_path(mp, p))
}

/// The archives that stay.
pub open spec fn staying(mp: Seq<char>, retired: Seq<Seq<char>>, nr: Seq<char>, es: Seq<(
    ContentMergeTier,
    Seq<char>,
)>) -> Seq<(ContentMergeTier, Seq<char>)> {
    es.filter(|e: (ContentMergeTier, Seq<char>)| !leaves(mp, retired, nr, e))
}

/// The resolved paths of the archives that leave.
pub open spec fn leaving(mp: Seq<char>, retired: Seq<Seq<char>>, nr: Seq<char>, es: Seq<(
    ContentMergeTier,
    Seq<char>,
)>) -> Seq<Seq<char>> {
    resolved_paths(
        mp,
        es.filter(|e: (ContentMergeTier, Seq<char>)| leaves(mp, retired, nr, e)),
    )
}

/// Whether `ms` holds `x` or a path equal to it.
pub open spec fn covers(ms: Seq<Seq<char>>, x: Seq<char>) -> bool {
    exists|q: int| 0 <= q < ms.len() && (#[trigger] ms[q] == x || path_equivalent(ms[q], x))
}

/// `x` is a retired path that no leaving archive matched.
pub open spec fn unmatched_retired(x: Seq<char>, retired: Seq<Seq<char>>, leave: Seq<Seq<char>>) -> bool {
    exists|i: int| 0 <= i < retired.len() && x == retired[i] && !seen_equivalent(leave, retired[i])
}

/// `missing` holds exactly the retired paths that no leaving archive
/// matched: each of its paths is such a retired path, and each such retired
/// path is in it.
pub open spec fn missing_matches(missing: Seq<Seq<char>>, retired: Seq<Seq<char>>, leave: Seq<Seq<char>>) -> bool {
    &&& forall|q: int| 0 <= q < missing.len() ==> unmatched_retired(#[trigger] missing[q], retired, leave)
    &&& forall|i: int|
        0 <= i < retired.len() && !seen_equivalent(leave, #[trigger] retired[i]) ==> covers(
            missing,
            retired[i],
        )
}

/// Inserts `p` into `sorted`, before the first path that `p` precedes.
fn insert_by_path(sorted: &mut Vec<String>, p: String)
    ensures
        final(sorted)@.len() == old(sorted)@.len() + 1,
        exists|k: int|
            0 <= k <= old(sorted)@.len() && line_views(final(sorted)@) == line_views(
                old(sorted)@,
            ).insert(k, p@),
{
    let mut k: usize = 0;
    while k < sorted.len()
        invariant
            k <= sorted@.len(),
        decreases sorted@.len() - k,
    {
        if path_less(p.as_str(), sorted[k].as_str()) {
            break;
        }
        k = k + 1;
    }
    let ghost before = line_views(sorted@);
    sorted.insert(k, p);
    proof {
        assert(line_views(sorted@) =~= before.insert(k as int, p@));
    }
}

impl ContentArchiveManifest {
    /// Promotes `new_archive` into the manifest at `manifest_path`, retiring
    /// the archives at `retired_paths`: every archive whose resolved path is
    /// retired or is that of the new archive leaves, the others stay in
    /// order and the new archive comes last. Also reports the retired paths
    /// that no archive held.
    pub fn promote_archive(
        &self,
        manifest_path: &str,
        new_archive: ContentArchiveManifestEntry,
        retired_paths: &Vec<String>,
    ) -> (r: Result<ContentManifestPromotion, GfmError>)
        ensures
            ({
                let mp = manifest_path@;
                let retired = resolved_all(mp, line_views(retired_paths@));
                let nr = resolved_path(mp, new_archive.path@);
                let es = entry_views(self.archives@);
                let kept = staying(mp, retired, nr, es).push(entry_view(new_archive));
                &&& match first_duplicate(view_paths(kept), kept.len() as int) {
                    Some(j) => r matches Err(GfmError::Format(m)) && m@ == duplicate_path_message(kept[j].1),
                    None => r is Ok,
                }
                &&& r matches Ok(p) ==> {
                    &&& entry_views(p.manifest.archives@) == kept
                    &&& line_views(p.retired_archives@) == leaving(mp, retired, nr, es)
                    &&& missing_matches(
                        line_views(p.missing_retirements@),
                        retired,
                        leaving(mp, retired, nr, es),
                    )
                }
            }),
    {
        let ghost mp = manifest_path@;
        let ghost new_archive_path_view = new_archive.path@;
        let mut retired: Vec<String> = Vec::new();
        let mut i: usize = 0;
        while i < retired_paths.len()
            invariant
                i <= retired_paths@.len(),
                line_views(retired@) == resolved_all(mp, line_views(retired_paths@)).take(i as int),
                mp == manifest_path@,
            decreases retired_paths@.len() - i,
        {
            let ghost before = line_views(retired@);
            let r = resolve_manifest_path(manifest_path, retired_paths[i].as_str());
            retired.push(r);
            proof {
                let all = resolved_all(mp, line_views(retired_paths@));
                assert(line_views(retired@) =~= before.push(r@));
                assert(all[i as int] == resolved_path(mp, retired_paths@[i as int]@));
                assert(all.take(i as int + 1) =~= all.take(i as int).push(all[i as int]));
            }
            i = i + 1;
        }
        proof {
            assert(resolved_all(mp, line_views(retired_paths@)).take(retired_paths@.len() as int)
                =~= resolved_all(mp, line_views(retired_paths@)));
        }
        let ghost rv = line_views(retired@);
        let new_resolved = resolve_manifest_path(manifest_path, new_archive.path.as_str());
        let ghost nr = new_resolved@;
        let ghost es = entry_views(self.archives@);
        let ghost pred = |e: (ContentMergeTier, Seq<char>)| leaves(mp, rv, nr, e);
        let ghost npred = |e: (ContentMergeTier, Seq<char>)| !leaves(mp, rv, nr, e);
        let mut retired_archives: Vec<String> = Vec::new();
        let mut retained: Vec<ContentArchiveManifestEntry> = Vec::new();
        let mut k: usize = 0;
        proof {
            reveal(Seq::filter);
            assert(es.take(0) =~= Seq::<(ContentMergeTier, Seq<char>)>::empty());
            assert(line_views(retired_archives@) =~= resolved_paths(mp, es.take(0).filter(pred)));
            assert(entry_views(retained@) =~= es.take(0).filter(npred));
        }
        while k < self.archives.len()
            invariant
                mp == manifest_path@,
                rv == line_views(retired@),
                nr == new_resolved@,
                es == entry_views(self.archives@),
                pred == (|e: (ContentMergeTier, Seq<char>)| leaves(mp, rv, nr, e)),
                npred == (|e: (ContentMergeTier, Seq<char>)| !leaves(mp, rv, nr, e)),
                k <= es.len(),
                line_views(retired_archives@) == resolved_paths(mp, es.take(k as int).filter(pred)),
                entry_views(retained@) == es.take(k as int).filter(npred),
            decreases es.len() - k,
        {
            let entry = &self.archives[k];
            let resolved = resolve_manifest_path(manifest_path, entry.path.as_str());
            let gone = contains_equivalent(&retired, resolved.as_str()) || paths_equal(
                resolved.as_str(),
                new_resolved.as_str(),
            );
            let ghost ra = line_views(retired_archives@);
            let ghost rt = entry_views(retained@);
            proof {
                reveal(Seq::filter);
                assert(es.take(k as int + 1).drop_last() =~= es.take(k as int));
                assert(es.take(k as int + 1).last() == es[k as int]);
                assert(es[k as int] == entry_view(*entry));
                assert(gone == pred(es[k as int]));
            }
            if gone {
                retired_archives.push(resolved);
                proof {
                    assert(line_views(retired_archives@) =~= ra.push(
                        resolved_path(mp, es[k as int].1),
                    ));
                    assert(es.take(k as int + 1).filter(pred) == es.take(k as int).filter(pred).push(
                        es[k as int],
                    ));
                    assert(resolved_paths(mp, es.take(k as int).filter(pred).push(es[k as int]))
                        =~= resolved_paths(mp, es.take(k as int).filter(pred)).push(
                        resolved_path(mp, es[k as int].1),
                    ));
                    assert(es.take(k as int + 1).filter(npred) == es.take(k as int).filter(npred));
                }
            } else {
                retained.push(copy_entry(entry));
                proof {
                    assert(es.take(k as int + 1).filter(npred) == es.take(k as int).filter(npred).push(
                        es[k as int],
                    ));
                    assert(es.take(k as int + 1).filter(pred) == es.take(k as int).filter(pred));
                }
            }
            k = k + 1;
        }
        proof {
            assert(es.take(k as int) =~= es);
            assert(staying(mp, rv, nr, es) == es.filter(npred));
            assert(leaving(mp, rv, nr, es) == resolved_paths(mp, es.filter(pred)));
        }
        let ghost leave = line_views(retired_archives@);
        let mut missing: Vec<String> = Vec::new();
        let mut m: usize = 0;
        while m < retired.len()
            invariant
                rv == line_views(retired@),
                leave == line_views(retired_archives@),
                m <= rv.len(),
                forall|q: int|
                    0 <= q < missing@.len() ==> exists|i: int|
                        0 <= i < rv.len() && #[trigger] missing@[q]@ == rv[i] && !seen_equivalent(
                            leave,
                            rv[i],
                        ),
                forall|i: int|
                    0 <= i < m && !seen_equivalent(leave, #[trigger] rv[i]) ==> covers(
                        line_views(missing@),
                        rv[i],
                    ),
            decreases rv.len() - m,
        {
            let p = retired[m].as_str();
            proof {
                assert(rv[m as int] == p@);
            }
            if !contains_equivalent(&retired_archives, p) && !contains_equivalent(&missing, p) {
                let ghost old_missing = missing@;
                insert_by_path(&mut missing, String::from_str(p));
                proof {
                    let ghost kk = choose|kk: int|
                        0 <= kk <= old_missing.len() && line_views(missing@) == line_views(
                            old_missing,
                        ).insert(kk, p@);
                    assert(line_views(missing@) == line_views(old_missing).insert(kk, p@));
                    assert forall|q: int| 0 <= q < missing@.len() implies exists|i: int|
                        0 <= i < rv.len() && #[trigger] missing@[q]@ == rv[i] && !seen_equivalent(
                            leave,
                            rv[i],
                        ) by {
                        assert(missing@[q]@ == line_views(missing@)[q]);
                        if q < kk {
                            assert(missing@[q]@ == old_missing[q]@);
                        } else if q == kk {
                            assert(missing@[q]@ == rv[m as int]);
                        } else {
                            assert(missing@[q]@ == old_missing[q - 1]@);
                        }
                    }
                    assert forall|i: int|
                        0 <= i < m + 1 && !seen_equivalent(leave, #[trigger] rv[i]) implies covers(
                            line_views(missing@),
                            rv[i],
                        ) by {
                        if i < m {
                            let w = choose|w: int|
                                0 <= w < line_views(old_missing).len() && (#[trigger] line_views(
                                    old_missing,
                                )[w] == rv[i] || path_equivalent(line_views(old_missing)[w], rv[i]));
                            let w2 = if w < kk {
                                w
                            } else {
                                w + 1
                            };
                            assert(line_views(missing@)[w2] == line_views(old_missing)[w]);
                        } else {
                            assert(line_views(missing@)[kk] == rv[i]);
                        }
                    }
                }
            } else {
                proof {
                    if !seen_equivalent(leave, rv[m as int]) {
                        assert(seen_equivalent(line_views(missing@), rv[m as int]));
                        let w = choose|w: int|
                            0 <= w < line_views(missing@).len() && path_equivalent(
                                #[trigger] line_views(missing@)[w],
                                rv[m as int],
                            );
                        assert(covers(line_views(missing@), rv[m as int]));
                    }
                }
            }
            m = m + 1;
        }
        let ghost stay = entry_views(retained@);
        let ghost nv = entry_view(new_archive);
        retained.push(new_archive);
        let ghost kept = entry_views(retained@);
        let ghost kv = retained@;
        proof {
            assert(kept =~= stay.push(nv));
            assert(entry_paths(retained@) =~= view_paths(kept));
            lemma_first_duplicate_bounds(view_paths(kept), kept.len() as int);
            if let Some(j) = first_duplicate(view_paths(kept), kept.len() as int) {
                assert(kept[j].1 == kv[j].path@);
            }
        }
        let manifest = match ContentArchiveManifest::new(retained) {
            Ok(man) => man,
            Err(g) => {
                return Err(g);
            },
        };
        let ghost retired_spec = resolved_all(mp, line_views(retired_paths@));
        let ghost nr_spec = resolved_path(mp, new_archive_path_view);
        proof {
            assert(retired_spec == rv);
            assert(entry_views(manifest.archives@) == kept);
            assert(kept == staying(mp, retired_spec, nr_spec, es).push(nv));
            assert(line_views(retired_archives@) == leaving(mp, retired_spec, nr_spec, es));
            assert(first_duplicate(view_paths(kept), kept.len() as int) is None);
            let mv = line_views(missing@);
            assert forall|q: int| 0 <= q < mv.len() implies unmatched_retired(
                #[trigger] mv[q],
                retired_spec,
                leaving(mp, retired_spec, nr_spec, es),
            ) by {
                let i = choose|i: int|
                    0 <= i < rv.len() && #[trigger] missing@[q]@ == rv[i] && !seen_equivalent(
                        leave,
                        rv[i],
                    );
                assert(mv[q] == retired_spec[i]);
            }
            assert(m == rv.len());
            assert forall|i: int|
                0 <= i < retired_spec.len() && !seen_equivalent(
                    leaving(mp, retired_spec, nr_spec, es),
                    #[trigger] retired_spec[i],
                ) implies covers(mv, retired_spec[i]) by {
                assert(retired_spec[i] == rv[i]);
                assert(!seen_equivalent(leave, rv[i]));
            }
            assert(missing_matches(mv, retired_spec, leaving(mp, retired_spec, nr_spec, es)));
        }
        let result = ContentManifestPromotion { manifest, retired_archives, missing_retirements: missing };
        proof {
            assert(entry_views(result.manifest.archives@) == staying(mp, retired_spec, nr_spec, es).push(nv));
            assert(nv == entry_view(new_archive));
            assert(nr_spec == resolved_path(mp, new_archive.path@));
            assert(line_views(result.retired_archives@) == leaving(mp, retired_spec, nr_spec, es));
            assert(result.missing_retirements@ == missing@);
        }
        Ok(result)
    }
}


/// The archives of the manifest that promoting the journal `j` into the
/// manifest at `mp` gives.
pub open spec fn promoted_entries(mp: Seq<char>, j: ContentManifestPromotionJournal) -> Seq<
    (ContentMergeTier, Seq<char>),
> {
    staying(
        mp,
        resolved_all(mp, line_views(j.retired_paths@)),
        resolved_path(mp, j.new_archive.path@),
        entry_views(j.previous.archives@),
    ).push(entry_view(j.new_archive))
}

/// The duplicate that makes the promotion of `j` fail, if any.
pub open spec fn promotion_duplicate(mp: Seq<char>, j: ContentManifestPromotionJournal) -> Option<int> {
    let kept = promoted_entries(mp, j);
    first_duplicate(view_paths(kept), kept.len() as int)
}

/// Two manifests compare equal: the same tiers and equal paths, in order.
pub open spec fn same_archives(a: Seq<(ContentMergeTier, Seq<char>)>, b: Seq<(ContentMergeTier, Seq<char>)>) -> bool {
    &&& a.len() == b.len()
    &&& forall|i: int|
        0 <= i < a.len() ==> (#[trigger] a[i]).0 == b[i].0 && path_equivalent(a[i].1, b[i].1)
}

/// Whether two manifests compare equal.
fn manifests_equal(a: &ContentArchiveManifest, b: &ContentArchiveManifest) -> (r: bool)
    ensures
        r == same_archives(entry_views(a.archives@), entry_views(b.archives@)),
{
    let ghost av = entry_views(a.archives@);
    let ghost bv = entry_views(b.archives@);
    if a.archives.len() != b.archives.len() {
        return false;
    }
    let mut i: usize = 0;
    while i < a.archives.len()
        invariant
            av == entry_views(a.archives@),
            bv == entry_views(b.archives@),
            a.archives@.len() == b.archives@.len(),
            i <= a.archives@.len(),
            forall|k: int| 0 <= k < i ==> (#[trigger] av[k]).0 == bv[k].0 && path_equivalent(av[k].1, bv[k].1),
        decreases a.archives@.len() - i,
    {
        if a.archives[i].tier != b.archives[i].tier || !paths_equal(
            a.archives[i].path.as_str(),
            b.archives[i].path.as_str(),
        ) {
            proof {
                assert(av[i as int] == entry_view(a.archives@[i as int]));
                assert(bv[i as int] == entry_view(b.archives@[i as int]));
            }
            return false;
        }
        proof {
            assert(av[i as int] == entry_view(a.archives@[i as int]));
            assert(bv[i as int] == entry_view(b.archives@[i as int]));
        }
        i = i + 1;
    }
    true
}

/// What storage tells about the promotion journal.
#[derive(Debug, Clone, PartialEq, Eq)]
pub enum PromotionJournalState {
    /// Whether it exists could not be told; the error text.
    ProbeFailed(String),
    /// It does not exist.
    Missing,
    /// It exists and reading it failed; the error text.
    Unreadable(String),
    /// It exists and reads as this journal.
    Read(ContentManifestPromotionJournal),
}

/// What storage tells about an interrupted promotion: the journal, the
/// current manifest (or the text of the error reading it), and for each
/// archive of the promoted manifest, `None` where it opens and the error
/// text where it does not.
#[derive(Debug, PartialEq, Eq)]
pub struct ContentManifestPromotionProbe {
    pub journal: PromotionJournalState,
    pub current: Result<ContentArchiveManifest, String>,
    pub archive_errors: Vec<Option<String>>,
}

/// The first promoted archive, among the first `n`, that does not open.
pub open spec fn first_unreadable(errs: Seq<Option<String>>, n: int) -> Option<int>
    decreases n,
{
    if n <= 0 {
        None
    } else {
        match first_unreadable(errs, n - 1) {
            Some(k) => Some(k),
            None => if errs[n - 1] is Some {
                Some(n - 1)
            } else {
                None
            },
        }
    }
}

proof fn lemma_first_unreadable_stable(errs: Seq<Option<String>>, k: int, n: int)
    requires
        k <= n,
        first_unreadable(errs, k) is Some,
    ensures
        first_unreadable(errs, n) == first_unreadable(errs, k),
    decreases n - k,
{
    if k < n {
        lemma_first_unreadable_stable(errs, k, n - 1);
    }
}

proof fn lemma_first_unreadable_bounds(errs: Seq<Option<String>>, n: int)
    ensures
        first_unreadable(errs, n) matches Some(k) ==> 0 <= k < n && errs[k] is Some,
    decreases n,
{
    if n > 0 {
        lemma_first_unreadable_bounds(errs, n - 1);
    }
}

/// The action and detail of recovering the promotion at `mp` from `probe`.
pub open spec fn promotion_recovery(mp: Seq<char>, probe: ContentManifestPromotionProbe) -> (
    ContentManifestPromotionRecoveryAction,
    Option<Seq<char>>,
) {
    match probe.journal {
        PromotionJournalState::ProbeFailed(e) => (
            ContentManifestPromotionRecoveryAction::CannotRecover,
            Some("content promotion journal existence unavailable: "@ + e@),
        ),
        PromotionJournalState::Missing => (
            ContentManifestPromotionRecoveryAction::Ready,
            Some("no pending promotion journal"@),
        ),
        PromotionJournalState::Unreadable(e) => (
            ContentManifestPromotionRecoveryAction::CannotRecover,
            Some(e@),
        ),
        PromotionJournalState::Read(j) => {
            let kept = promoted_entries(mp, j);
            match promotion_duplicate(mp, j) {
                Some(d) => (
                    ContentManifestPromotionRecoveryAction::CannotRecover,
                    Some(duplicate_path_message(kept[d].1)),
                ),
                None => if probe.current matches Ok(m) && same_archives(
                    entry_views(m.archives@),
                    kept,
                ) {
                    (
                        ContentManifestPromotionRecoveryAction::RemoveStaleJournal,
                        Some("manifest already contains promoted archive"@),
                    )
                } else {
                    match first_unreadable(probe.archive_errors@, kept.len() as int) {
                        Some(k) => (
                            ContentManifestPromotionRecoveryAction::CannotRecover,
                            Some(
                                "promoted archive "@ + resolved_path(mp, kept[k].1)
                                    + " is not readable: "@ + probe.archive_errors@[k]->0@,
                            ),
                        ),
                        None => (
                            ContentManifestPromotionRecoveryAction::CompletePromotion,
                            match probe.current {
                                Ok(_) => None,
                                Err(e) => Some(e@),
                            },
                        ),
                    }
                },
            }
        },
    }
}

/// A probe that gives one outcome for each archive of the promoted
/// manifest, where those are opened.
pub open spec fn promotion_probe_fits(mp: Seq<char>, probe: ContentManifestPromotionProbe) -> bool {
    probe.journal matches PromotionJournalState::Read(j) ==> probe.archive_errors@.len()
        == promoted_entries(mp, j).len()
}

/// The plan with `action` and `detail` for the manifest at `manifest_path`.
fn promotion_plan(
    manifest_path: &str,
    action: ContentManifestPromotionRecoveryAction,
    detail: Option<String>,
) -> (plan: ContentManifestPromotionRecoveryPlan)
    ensures
        plan.action == action,
        plan.manifest_path@ == manifest_path@,
        plan.journal_path@ == promotion_journal_path(manifest_path@),
        opt_chars(plan.detail) == opt_chars(detail),
{
    ContentManifestPromotionRecoveryPlan {
        action,
        manifest_path: String::from_str(manifest_path),
        journal_path: content_manifest_promotion_journal_path(manifest_path),
        detail,
    }
}

/// Plans the recovery of an interrupted promotion of the manifest at
/// `manifest_path`: nothing to do without a journal; a journal that cannot
/// be read or promoted blocks recovery; a manifest that already is the
/// promoted one leaves only a stale journal; otherwise the promotion is
/// completed, provided every promoted archive opens.
pub fn plan_content_manifest_promotion_recovery(
    manifest_path: &str,
    probe: &ContentManifestPromotionProbe,
) -> (plan: ContentManifestPromotionRecoveryPlan)
    requires
        promotion_probe_fits(manifest_path@, *probe),
    ensures
        plan.manifest_path@ == manifest_path@,
        plan.journal_path@ == promotion_journal_path(manifest_path@),
        (plan.action, opt_chars(plan.detail)) == promotion_recovery(manifest_path@, *probe),
{
    match &probe.journal {
        PromotionJournalState::ProbeFailed(e) => {
            let mut d = String::from_str("content promotion journal existence unavailable: ");
            d.append(e.as_str());
            promotion_plan(manifest_path, ContentManifestPromotionRecoveryAction::CannotRecover, Some(d))
        },
        PromotionJournalState::Missing => promotion_plan(
            manifest_path,
            ContentManifestPromotionRecoveryAction::Ready,
            Some(String::from_str("no pending promotion journal")),
        ),
        PromotionJournalState::Unreadable(e) => promotion_plan(
            manifest_path,
            ContentManifestPromotionRecoveryAction::CannotRecover,
            Some(e.clone()),
        ),
        PromotionJournalState::Read(j) => {
            let promotion = match j.previous.promote_archive(
                manifest_path,
                copy_entry(&j.new_archive),
                &j.retired_paths,
            ) {
                Err(g) => {
                    proof {
                        let kept = promoted_entries(manifest_path@, *j);
                        lemma_first_duplicate_bounds(view_paths(kept), kept.len() as int);
                    }
                    return promotion_plan(
                        manifest_path,
                        ContentManifestPromotionRecoveryAction::CannotRecover,
                        Some(g.message()),
                    );
                },
                Ok(p) => p,
            };
            let ghost kept = promoted_entries(manifest_path@, *j);
            proof {
                assert(entry_views(promotion.manifest.archives@) == kept);
            }
            if let Ok(m) = &probe.current {
                if manifests_equal(m, &promotion.manifest) {
                    return promotion_plan(
                        manifest_path,
                        ContentManifestPromotionRecoveryAction::RemoveStaleJournal,
                        Some(String::from_str("manifest already contains promoted archive")),
                    );
                }
            }
            proof {
                assert(!(probe.current matches Ok(m) && same_archives(entry_views(m.archives@), kept)));
                assert(promotion_duplicate(manifest_path@, *j) is None);
            }
            let mut i: usize = 0;
            while i < promotion.manifest.archives.len()
                invariant
                    probe.journal == PromotionJournalState::Read(*j),
                    kept == promoted_entries(manifest_path@, *j),
                    promotion_duplicate(manifest_path@, *j) is None,
                    !(probe.current matches Ok(m) && same_archives(entry_views(m.archives@), kept)),
                    kept == entry_views(promotion.manifest.archives@),
                    probe.archive_errors@.len() == kept.len(),
                    i <= kept.len(),
                    first_unreadable(probe.archive_errors@, i as int) is None,
                decreases kept.len() - i,
            {
                if let Some(err) = &probe.archive_errors[i] {
                    let path = resolve_manifest_path(
                        manifest_path,
                        promotion.manifest.archives[i].path.as_str(),
                    );
                    let mut d = String::from_str("promoted archive ");
                    d.append(path.as_str());
                    d.append(" is not readable: ");
                    d.append(err.as_str());
                    proof {
                        assert(first_unreadable(probe.archive_errors@, i as int + 1) == Some(i as int));
                        lemma_first_unreadable_stable(
                            probe.archive_errors@,
                            i as int + 1,
                            kept.len() as int,
                        );
                        assert(kept[i as int] == entry_view(promotion.manifest.archives@[i as int]));
                    }
                    return promotion_plan(
                        manifest_path,
                        ContentManifestPromotionRecoveryAction::CannotRecover,
                        Some(d),
                    );
                }
                i = i + 1;
            }
            let detail = match &probe.current {
                Ok(_) => None,
                Err(e) => Some(e.clone()),
            };
            promotion_plan(
                manifest_path,
                ContentManifestPromotionRecoveryAction::CompletePromotion,
                detail,
            )
        },
    }
}

/// Plans the recovery of an interrupted promotion where `probe` gives one
/// outcome per promoted archive, and gives `None` where it does not.
pub fn plan_content_manifest_promotion_recovery_checked(
    manifest_path: &str,
    probe: &ContentManifestPromotionProbe,
) -> (plan: Option<ContentManifestPromotionRecoveryPlan>)
    ensures
        plan is Some <==> promotion_probe_fits(manifest_path@, *probe),
        plan matches Some(p) ==> {
            &&& p.manifest_path@ == manifest_path@
            &&& p.journal_path@ == promotion_journal_path(manifest_path@)
            &&& (p.action, opt_chars(p.detail)) == promotion_recovery(manifest_path@, *probe)
        },
{
    if let PromotionJournalState::Read(j) = &probe.journal {
        let n = promoted_count(manifest_path, j);
        if probe.archive_errors.len() == 0 || n != probe.archive_errors.len() - 1 {
            return None;
        }
    }
    Some(plan_content_manifest_promotion_recovery(manifest_path, probe))
}

/// How many previous archives stay in the manifest promoted from `j` (it
/// holds one more, the new archive).
fn promoted_count(manifest_path: &str, j: &ContentManifestPromotionJournal) -> (n: usize)
    ensures
        n + 1 == promoted_entries(manifest_path@, *j).len(),
{
    let ghost mp = manifest_path@;
    let ghost rv = resolved_all(mp, line_views(j.retired_paths@));
    let ghost es = entry_views(j.previous.archives@);
    let mut retired: Vec<String> = Vec::new();
    let mut i: usize = 0;
    while i < j.retired_paths.len()
        invariant
            mp == manifest_path@,
            rv == resolved_all(mp, line_views(j.retired_paths@)),
            i <= j.retired_paths@.len(),
            line_views(retired@) == rv.take(i as int),
        decreases j.retired_paths@.len() - i,
    {
        let ghost before = line_views(retired@);
        let r = resolve_manifest_path(manifest_path, j.retired_paths[i].as_str());
        retired.push(r);
        proof {
            assert(line_views(retired@) =~= before.push(r@));
            assert(rv[i as int] == resolved_path(mp, j.retired_paths@[i as int]@));
            assert(rv.take(i as int + 1) =~= rv.take(i as int).push(rv[i as int]));
        }
        i = i + 1;
    }
    proof {
        assert(rv.take(i as int) =~= rv);
    }
    let new_resolved = resolve_manifest_path(manifest_path, j.new_archive.path.as_str());
    let ghost nr = new_resolved@;
    let ghost npred = |e: (ContentMergeTier, Seq<char>)| !leaves(mp, rv, nr, e);
    let mut n: usize = 0;
    let mut k: usize = 0;
    proof {
        reveal(Seq::filter);
        assert(es.take(0) =~= Seq::<(ContentMergeTier, Seq<char>)>::empty());
    }
    while k < j.previous.archives.len()
        invariant
            mp == manifest_path@,
            rv == line_views(retired@),
            nr == new_resolved@,
            es == entry_views(j.previous.archives@),
            npred == (|e: (ContentMergeTier, Seq<char>)| !leaves(mp, rv, nr, e)),
            k <= es.len(),
            n == es.take(k as int).filter(npred).len(),
            n <= k,
        decreases es.len() - k,
    {
        let entry = &j.previous.archives[k];
        let resolved = resolve_manifest_path(manifest_path, entry.path.as_str());
        let gone = contains_equivalent(&retired, resolved.as_str()) || paths_equal(
            resolved.as_str(),
            new_resolved.as_str(),
        );
        proof {
            reveal(Seq::filter);
            assert(es.take(k as int + 1).drop_last() =~= es.take(k as int));
            assert(es.take(k as int + 1).last() == es[k as int]);
            assert(es[k as int] == entry_view(*entry));
        }
        if !gone {
            n = n + 1;
        }
        k = k + 1;
    }
    proof {
        assert(es.take(k as int) =~= es);
    }
    n
}

/// The archives of the manifest promoted from `j`: the previous archives
/// that stay, in order, then the new archive.
pub fn promoted_archives(manifest_path: &str, j: &ContentManifestPromotionJournal) -> (v: Vec<
    ContentArchiveManifestEntry,
>)
    ensures
        entry_views(v@) == promoted_entries(manifest_path@, *j),
{
    let ghost mp = manifest_path@;
    let ghost rv = resolved_all(mp, line_views(j.retired_paths@));
    let ghost es = entry_views(j.previous.archives@);
    let mut retired: Vec<String> = Vec::new();
    let mut i: usize = 0;
    while i < j.retired_paths.len()
        invariant
            mp == manifest_path@,
            rv == resolved_all(mp, line_views(j.retired_paths@)),
            i <= j.retired_paths@.len(),
            line_views(retired@) == rv.take(i as int),
        decreases j.retired_paths@.len() - i,
    {
        let ghost before = line_views(retired@);
        let r = resolve_manifest_path(manifest_path, j.retired_paths[i].as_str());
        retired.push(r);
        proof {
            assert(line_views(retired@) =~= before.push(r@));
            assert(rv[i as int] == resolved_path(mp, j.retired_paths@[i as int]@));
            assert(rv.take(i as int + 1) =~= rv.take(i as int).push(rv[i as int]));
        }
        i = i + 1;
    }
    proof {
        assert(rv.take(i as int) =~= rv);
    }
    let new_resolved = resolve_manifest_path(manifest_path, j.new_archive.path.as_str());
    let ghost nr = new_resolved@;
    let ghost npred = |e: (ContentMergeTier, Seq<char>)| !leaves(mp, rv, nr, e);
    let mut out: Vec<ContentArchiveManifestEntry> = Vec::new();
    let mut k: usize = 0;
    proof {
        reveal(Seq::filter);
        assert(es.take(0) =~= Seq::<(ContentMergeTier, Seq<char>)>::empty());
    }
    while k < j.previous.archives.len()
        invariant
            mp == manifest_path@,
            rv == line_views(retired@),
            nr == new_resolved@,
            es == entry_views(j.previous.archives@),
            npred == (|e: (ContentMergeTier, Seq<char>)| !leaves(mp, rv, nr, e)),
            k <= es.len(),
            entry_views(out@) == es.take(k as int).filter(npred),
        decreases es.len() - k,
    {
        let entry = &j.previous.archives[k];
        let resolved = resolve_manifest_path(manifest_path, entry.path.as_str());
        let gone = contains_equivalent(&retired, resolved.as_str()) || paths_equal(
            resolved.as_str(),
            new_resolved.as_str(),
        );
        proof {
            reveal(Seq::filter);
            assert(es.take(k as int + 1).drop_last() =~= es.take(k as int));
            assert(es.take(k as int + 1).last() == es[k as int]);
            assert(es[k as int] == entry_view(*entry));
        }
        if !gone {
            let ghost before = entry_views(out@);
            out.push(copy_entry(entry));
            proof {
                assert(entry_views(out@) =~= before.push(entry_view(*entry)));
            }
        }
        k = k + 1;
    }
    proof {
        assert(es.take(k as int) =~= es);
    }
    let ghost before = entry_views(out@);
    out.push(copy_entry(&j.new_archive));
    proof {
        assert(entry_views(out@) =~= before.push(entry_view(j.new_archive)));
    }
    out
}

/// The message of a promotion that cannot be recovered.
pub open spec fn promotion_refusal_text(mp: Seq<char>, detail: Option<Seq<char>>) -> Seq<char> {
    mp + " promotion cannot be recovered: "@ + match detail {
        Some(d) => d,
        None => "invalid promotion journal"@,
    }
}

/// The error of recovering a promotion whose plan cannot recover it.
pub fn promotion_recovery_refusal(manifest_path: &str, plan: &ContentManifestPromotionRecoveryPlan) -> (e:
    GfmError)
    ensures
        e matches GfmError::Format(m) && m@ == promotion_refusal_text(
            manifest_path@,
            opt_chars(plan.detail),
        ),
{
    let mut m = String::from_str(manifest_path);
    m.append(" promotion cannot be recovered: ");
    match &plan.detail {
        Some(d) => m.append(d.as_str()),
        None => m.append("invalid promotion journal"),
    }
    GfmError::Format(m)
}

} // verus!
