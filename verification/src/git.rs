//! The repository-facing core: parsing the machine-readable status stream
//! into an ordered list of change entries, parsing numeric diff-stat
//! streams into per-path line counts, and planning the argument lists for
//! staging and unstaging paths.

use vstd::prelude::*;
use vstd::relations::sorted_by;
use crate::text::{
    count_field_val, find_char, find_from, lemma_find_from_props, lemma_lex_total_ordering,
    lemma_rfind_props, lex_le, lex_le_str, lex_leq, lines_of, lines_view, parse_count, rfind,
    rfind_char, trim_str, trim_view, views,
};

verus! {

/// One file with a pending change, and whether that change is staged.
pub struct Entry {
    pub path: String,
    pub staged: bool,
}

/// The mathematical value of an entry.
pub ghost struct EntryV {
    pub path: Seq<char>,
    pub staged: bool,
}

impl View for Entry {
    type V = EntryV;

    open spec fn view(&self) -> EntryV {
        EntryV { path: self.path@, staged: self.staged }
    }
}

pub open spec fn entries_view(es: Seq<Entry>) -> Seq<EntryV> {
    es.map_values(|e: Entry| e@)
}

pub open spec fn paths_of(es: Seq<EntryV>) -> Seq<Seq<char>> {
    es.map_values(|e: EntryV| e.path)
}

/// The record kinds of the status wire format, told apart by the first
/// character of a line.
#[derive(PartialEq, Eq, Structural, Clone, Copy, Debug)]
pub enum RecordKind {
    /// An ordinary changed entry.
    Changed,
    /// A rename or copy; only the new path (the last field) is retained.
    Renamed,
    /// An unmerged, conflicted entry.
    Unmerged,
    /// An untracked file.
    Untracked,
    /// An ignored file; discarded.
    Ignored,
    /// An empty line; discarded.
    Blank,
    /// An unrecognized marker; skipped as a non-fatal anomaly.
    Unknown,
}

pub open spec fn record_kind_of(l: Seq<char>) -> RecordKind {
    if l.len() == 0 {
        RecordKind::Blank
    } else if l[0] == '1' {
        RecordKind::Changed
    } else if l[0] == '2' {
        RecordKind::Renamed
    } else if l[0] == 'u' {
        RecordKind::Unmerged
    } else if l[0] == '?' {
        RecordKind::Untracked
    } else if l[0] == '!' {
        RecordKind::Ignored
    } else {
        RecordKind::Unknown
    }
}

/// Classifies one status line.
pub fn record_kind(l: &str) -> (r: RecordKind)
    ensures
        r == record_kind_of(l@),
{
    if l.unicode_len() == 0 {
        return RecordKind::Blank;
    }
    let c = l.get_char(0);
    if c == '1' {
        RecordKind::Changed
    } else if c == '2' {
        RecordKind::Renamed
    } else if c == 'u' {
        RecordKind::Unmerged
    } else if c == '?' {
        RecordKind::Untracked
    } else if c == '!' {
        RecordKind::Ignored
    } else {
        RecordKind::Unknown
    }
}

/// The record kinds that carry a two-character index/worktree status code.
pub open spec fn has_xy(k: RecordKind) -> bool {
    k == RecordKind::Changed || k == RecordKind::Renamed || k == RecordKind::Unmerged
}

/// The index (staged) status character of a status line: the first
/// character of the second space-delimited field, defaulting to the
/// unmodified marker `.` when the field is missing or short.
pub open spec fn x_of(l: Seq<char>) -> char {
    let sp = find_from(l, 0, ' ');
    if sp >= l.len() {
        '.'
    } else if find_from(l, sp + 1, ' ') > sp + 1 {
        l[sp + 1]
    } else {
        '.'
    }
}

/// The worktree (unstaged) status character: the second character of the
/// second space-delimited field.
pub open spec fn y_of(l: Seq<char>) -> char {
    let sp = find_from(l, 0, ' ');
    if sp >= l.len() {
        '.'
    } else if find_from(l, sp + 1, ' ') > sp + 2 {
        l[sp + 2]
    } else {
        '.'
    }
}

/// The last space-delimited field of a status line: the path (for renames,
/// the new path). Empty when the line has no space at all.
pub open spec fn tail_path_of(l: Seq<char>) -> Seq<char> {
    let j = rfind(l, ' ');
    if j >= 0 {
        l.skip(j + 1)
    } else {
        Seq::empty()
    }
}

/// The path of an untracked-file record: everything after the marker and
/// its separator, trimmed.
pub open spec fn untracked_path_of(l: Seq<char>) -> Seq<char> {
    if l.len() >= 2 {
        trim_view(l.skip(2))
    } else {
        Seq::empty()
    }
}

/// The staged entry a status line contributes, if any: records with a
/// status code whose index column is not the unmodified marker.
pub open spec fn staged_path_of(l: Seq<char>) -> Option<Seq<char>> {
    if has_xy(record_kind_of(l)) && x_of(l) != '.' && tail_path_of(l).len() > 0 {
        Some(tail_path_of(l))
    } else {
        None
    }
}

/// The unstaged entry a status line contributes, if any. A record whose
/// index column is already changed is suppressed here even when its
/// worktree column is changed too, so a path never shows up twice.
pub open spec fn unstaged_path_of(l: Seq<char>) -> Option<Seq<char>> {
    if has_xy(record_kind_of(l)) && x_of(l) == '.' && y_of(l) != '.' && tail_path_of(l).len() > 0 {
        Some(tail_path_of(l))
    } else if record_kind_of(l) == RecordKind::Untracked && untracked_path_of(l).len() > 0 {
        Some(untracked_path_of(l))
    } else {
        None
    }
}

/// What one status line contributes to the entry list.
pub enum RecordEffect {
    /// Nothing: blank, ignored, unrecognized or pathless lines.
    Skip,
    /// One staged entry with this path.
    Staged(String),
    /// One unstaged entry with this path.
    Unstaged(String),
}

/// Parses one status line into its contribution.
pub fn parse_record(l: &str) -> (r: RecordEffect)
    ensures
        match r {
            RecordEffect::Skip => staged_path_of(l@) is None && unstaged_path_of(l@) is None,
            RecordEffect::Staged(p) => staged_path_of(l@) == Some(p@) && unstaged_path_of(l@) is None,
            RecordEffect::Unstaged(p) => unstaged_path_of(l@) == Some(p@) && staged_path_of(l@) is None,
        },
{
    let len = l.unicode_len();
    let kind = record_kind(l);
    match kind {
        RecordKind::Changed | RecordKind::Renamed | RecordKind::Unmerged => {
            let sp = find_char(l, 0, ' ');
            proof {
                lemma_find_from_props(l@, 0, ' ');
            }
            let (x, y) = if sp >= len {
                ('.', '.')
            } else {
                let start = sp + 1;
                let fe = find_char(l, start, ' ');
                proof {
                    lemma_find_from_props(l@, start as int, ' ');
                }
                let xc = if fe - start >= 1 {
                    l.get_char(start)
                } else {
                    '.'
                };
                let yc = if fe - start >= 2 {
                    l.get_char(start + 1)
                } else {
                    '.'
                };
                (xc, yc)
            };
            let path: String = match rfind_char(l, ' ') {
                Some(j) => {
                    proof {
                        lemma_rfind_props(l@, ' ');
                        assert(l@.subrange(j + 1, len as int) =~= l@.skip(j + 1));
                    }
                    l.substring_char(j + 1, len).to_owned()
                },
                None => {
                    return RecordEffect::Skip;
                },
            };
            if path.as_str().unicode_len() == 0 {
                return RecordEffect::Skip;
            }
            if x != '.' {
                RecordEffect::Staged(path)
            } else if y != '.' {
                RecordEffect::Unstaged(path)
            } else {
                RecordEffect::Skip
            }
        },
        RecordKind::Untracked => {
            if len < 2 {
                return RecordEffect::Skip;
            }
            proof {
                assert(l@.subrange(2, len as int) =~= l@.skip(2));
            }
            let p = trim_str(l.substring_char(2, len));
            if p.as_str().unicode_len() == 0 {
                RecordEffect::Skip
            } else {
                RecordEffect::Unstaged(p)
            }
        },
        _ => RecordEffect::Skip,
    }
}

/// The sequence of empty-or-singleton contributions, used to collect a
/// stream's staged and unstaged paths in line order.
pub open spec fn opt_path_seq(o: Option<Seq<char>>) -> Seq<Seq<char>> {
    match o {
        Some(p) => seq![p],
        None => Seq::empty(),
    }
}

/// All staged paths a status stream's lines contribute, in line order.
pub open spec fn staged_paths(ls: Seq<Seq<char>>) -> Seq<Seq<char>>
    decreases ls.len(),
{
    if ls.len() == 0 {
        Seq::empty()
    } else {
        staged_paths(ls.drop_last()) + opt_path_seq(staged_path_of(ls.last()))
    }
}

/// All unstaged paths a status stream's lines contribute, in line order.
pub open spec fn unstaged_paths(ls: Seq<Seq<char>>) -> Seq<Seq<char>>
    decreases ls.len(),
{
    if ls.len() == 0 {
        Seq::empty()
    } else {
        unstaged_paths(ls.drop_last()) + opt_path_seq(unstaged_path_of(ls.last()))
    }
}

proof fn lemma_views_push(s: Seq<String>, x: String)
    ensures
        views(s.push(x)) =~= views(s).push(x@),
{
}

proof fn lemma_views_remove(s: Seq<String>, i: int)
    requires
        0 <= i < s.len(),
    ensures
        views(s.remove(i)) =~= views(s).remove(i),
{
}

proof fn lemma_views_insert(s: Seq<String>, i: int, x: String)
    requires
        0 <= i <= s.len(),
    ensures
        views(s.insert(i, x)) =~= views(s).insert(i, x@),
{
}

proof fn lemma_to_multiset_insert(s: Seq<Seq<char>>, i: int, x: Seq<char>)
    requires
        0 <= i <= s.len(),
    ensures
        s.insert(i, x).to_multiset() =~= s.to_multiset().insert(x),
{
    broadcast use vstd::seq_lib::group_to_multiset_ensures;
    broadcast use vstd::multiset::group_multiset_axioms;

    let t = s.take(i);
    let k = s.skip(i);
    assert(s.insert(i, x) =~= t.push(x) + k);
    assert(s =~= t + k);
    vstd::seq_lib::lemma_multiset_commutative(t.push(x), k);
    vstd::seq_lib::lemma_multiset_commutative(t, k);
    assert(t.push(x).to_multiset() =~= t.to_multiset().insert(x));
}

/// Sorts a list of paths into ascending lexicographic order; the result
/// holds exactly the same paths.
pub fn sort_paths(v: &mut Vec<String>)
    ensures
        views(final(v)@).to_multiset() == views(old(v)@).to_multiset(),
        sorted_by(views(final(v)@), lex_leq()),
{
    proof {
        lemma_lex_total_ordering();
    }
    let ghost orig = views(v@);
    let n = v.len();
    if n <= 1 {
        return;
    }
    let mut i: usize = 1;
    while i < n
        invariant
            1 <= i <= n == v@.len(),
            views(v@).to_multiset() == orig.to_multiset(),
            sorted_by(views(v@).take(i as int), lex_leq()),
            vstd::relations::total_ordering(lex_leq()),
        decreases n - i,
    {
        let mut j: usize = 0;
        while j < i && lex_le_str(v[j].as_str(), v[i].as_str())
            invariant
                0 <= j <= i < n == v@.len(),
                forall|k: int| 0 <= k < j ==> lex_le(#[trigger] views(v@)[k], views(v@)[i as int]),
            decreases i - j,
        {
            j = j + 1;
        }
        let ghost w = views(v@);
        let ghost pre = v@;
        proof {
            if j < i {
                crate::text::lemma_lex_le_total(w[j as int], w[i as int]);
            }
        }
        let key = v.remove(i);
        v.insert(j, key);
        proof {
            broadcast use vstd::seq_lib::group_to_multiset_ensures;
            broadcast use vstd::multiset::group_multiset_axioms;

            lemma_views_remove(pre, i as int);
            lemma_views_insert(pre.remove(i as int), j as int, key);
            let nv = views(v@);
            assert(nv =~= w.remove(i as int).insert(j as int, w[i as int]));
            // the multiset is unchanged: one occurrence went out and back in
            lemma_to_multiset_insert(w.remove(i as int), j as int, w[i as int]);
            assert(w.contains(w[i as int]));
            assert(w.to_multiset().count(w[i as int]) > 0);
            assert(nv.to_multiset() =~= w.to_multiset());
            // the sorted prefix grew by one
            let leq = lex_leq();
            assert forall|p: int, q: int| 0 <= p < q < i + 1 implies #[trigger] leq(
                nv.take(i + 1)[p],
                nv.take(i + 1)[q],
            ) by {
                let vp = if p < j { w[p] } else if p == j { w[i as int] } else { w[p - 1] };
                let vq = if q < j { w[q] } else if q == j { w[i as int] } else { w[q - 1] };
                assert(nv.take(i + 1)[p] == vp);
                assert(nv.take(i + 1)[q] == vq);
                if q < j {
                    assert(leq(w[p], w[q]));
                } else if q == j {
                    assert(leq(vp, w[i as int]));
                } else if p == j {
                    // vp is the key; vq is w[q-1] with j <= q-1 < i
                    if j < i {
                        assert(leq(w[i as int], w[j as int]));
                        if q - 1 > j {
                            assert(w.take(i as int)[j as int] == w[j as int]);
                            assert(w.take(i as int)[q - 1] == w[q - 1]);
                            assert(leq(w.take(i as int)[j as int], w.take(i as int)[q - 1]));
                            assert(leq(w[j as int], w[q - 1]));
                        }
                    }
                } else if p < j {
                    assert(leq(w[p], w[i as int]));
                    if j < i {
                        assert(leq(w[i as int], w[j as int]));
                        if q - 1 > j {
                            assert(w.take(i as int)[j as int] == w[j as int]);
                            assert(w.take(i as int)[q - 1] == w[q - 1]);
                            assert(leq(w.take(i as int)[j as int], w.take(i as int)[q - 1]));
                        }
                        assert(leq(w[i as int], w[q - 1]));
                    }
                    assert(leq(w[p], w[q - 1]));
                } else {
                    assert(w.take(i as int)[p - 1] == w[p - 1]);
                    assert(w.take(i as int)[q - 1] == w[q - 1]);
                    assert(leq(w.take(i as int)[p - 1], w.take(i as int)[q - 1]));
                    assert(leq(w[p - 1], w[q - 1]));
                }
            }
            assert(sorted_by(nv.take(i + 1), lex_leq()));
        }
        i = i + 1;
    }
    proof {
        assert(views(v@).take(n as int) =~= views(v@));
    }
}

/// Entries made of the given paths, all with the same staged flag.
pub open spec fn mk_entries(ps: Seq<Seq<char>>, st: bool) -> Seq<EntryV> {
    ps.map_values(|p: Seq<char>| EntryV { path: p, staged: st })
}

/// The shape of a parsed status listing `r` for the stream `s`: some prefix
/// of length `k` holds all the staged entries and the rest the unstaged
/// ones, each part sorted by path and holding, as a multiset, exactly the
/// paths the stream's lines contribute.
pub open spec fn status_split(r: Seq<EntryV>, ls: Seq<Seq<char>>, k: int) -> bool {
    &&& 0 <= k <= r.len()
    &&& (forall|i: int| 0 <= i < k ==> (#[trigger] r[i]).staged)
    &&& (forall|i: int| k <= i < r.len() ==> !(#[trigger] r[i]).staged)
    &&& sorted_by(paths_of(r.take(k)), lex_leq())
    &&& paths_of(r.take(k)).to_multiset() == staged_paths(ls).to_multiset()
    &&& sorted_by(paths_of(r.skip(k)), lex_leq())
    &&& paths_of(r.skip(k)).to_multiset() == unstaged_paths(ls).to_multiset()
}

/// What the status parser promises: the listing splits as above at some
/// point. Since the lexicographic order is total, this pins the listing
/// down completely.
pub open spec fn is_status_list(r: Seq<EntryV>, s: Seq<char>) -> bool {
    exists|k: int| status_split(r, lines_view(s), k)
}

/// A handle on a repository: remembers the repository root directory that
/// every command runs in.
pub struct Git {
    workdir: String,
}

impl View for Git {
    type V = Seq<char>;

    closed spec fn view(&self) -> Seq<char> {
        self.workdir@
    }
}

impl Git {
    /// Builds the handle from the output of the toplevel-directory query,
    /// trimming the trailing line end.
    pub fn open(toplevel: &str) -> (g: Git)
        ensures
            g@ == trim_view(toplevel@),
    {
        Git { workdir: trim_str(toplevel) }
    }

    /// The repository root every command runs in.
    pub fn workdir(&self) -> (r: &String)
        ensures
            r@ == self@,
    {
        &self.workdir
    }

    /// The branch label to present, from the outputs of the symbolic and
    /// short head queries: the symbolic name, unless the repository is in
    /// detached-head state (the symbolic query answers the literal `HEAD`),
    /// in which case the label is `DETACHED@` followed by the short id.
    pub fn branch(&self, abbrev_head: &str, short_head: &str) -> (r: String)
        ensures
            trim_view(abbrev_head@) == "HEAD"@ ==> r@ == "DETACHED@"@ + trim_view(short_head@),
            trim_view(abbrev_head@) != "HEAD"@ ==> r@ == trim_view(abbrev_head@),
    {
        let name = trim_str(abbrev_head);
        let head: String = "HEAD".to_owned();
        if name == head {
            let mut label: String = "DETACHED@".to_owned();
            let short = trim_str(short_head);
            label.append(short.as_str());
            label
        } else {
            name
        }
    }

    /// Parses the status stream into the entry list: staged entries first,
    /// then unstaged ones, each part sorted by path.
    pub fn status(&self, out: &str) -> (r: Vec<Entry>)
        ensures
            is_status_list(entries_view(r@), out@),
    {
        let lines = lines_of(out);
        let ghost lv = views(lines@);
        let mut staged: Vec<String> = Vec::new();
        let mut unstaged: Vec<String> = Vec::new();
        let mut li: usize = 0;
        proof {
            assert(lv.take(0) =~= Seq::<Seq<char>>::empty());
        }
        while li < lines.len()
            invariant
                0 <= li <= lines@.len(),
                lv == views(lines@),
                views(staged@) == staged_paths(lv.take(li as int)),
                views(unstaged@) == unstaged_paths(lv.take(li as int)),
            decreases lines@.len() - li,
        {
            let eff = parse_record(lines[li].as_str());
            proof {
                assert(lv.take(li + 1).drop_last() =~= lv.take(li as int));
                assert(lv.take(li + 1).last() == lines@[li as int]@);
            }
            match eff {
                RecordEffect::Skip => {
                    proof {
                        assert(views(staged@) + opt_path_seq(staged_path_of(lv[li as int])) =~= views(
                            staged@,
                        ));
                        assert(views(unstaged@) + opt_path_seq(unstaged_path_of(lv[li as int]))
                            =~= views(unstaged@));
                    }
                },
                RecordEffect::Staged(p) => {
                    proof {
                        lemma_views_push(staged@, p);
                        assert(views(staged@).push(p@) =~= views(staged@) + opt_path_seq(
                            staged_path_of(lv[li as int]),
                        ));
                        assert(views(unstaged@) + opt_path_seq(unstaged_path_of(lv[li as int]))
                            =~= views(unstaged@));
                    }
                    staged.push(p);
                },
                RecordEffect::Unstaged(p) => {
                    proof {
                        lemma_views_push(unstaged@, p);
                        assert(views(unstaged@).push(p@) =~= views(unstaged@) + opt_path_seq(
                            unstaged_path_of(lv[li as int]),
                        ));
                        assert(views(staged@) + opt_path_seq(staged_path_of(lv[li as int])) =~= views(
                            staged@,
                        ));
                    }
                    unstaged.push(p);
                },
            }
            li = li + 1;
        }
        proof {
            assert(lv.take(lines@.len() as int) =~= lv);
        }
        sort_paths(&mut staged);
        sort_paths(&mut unstaged);
        let ghost ss = views(staged@);
        let ghost us = views(unstaged@);
        let mut r: Vec<Entry> = Vec::new();
        let mut a: usize = 0;
        proof {
            assert(entries_view(r@) =~= mk_entries(ss.take(0), true));
        }
        while a < staged.len()
            invariant
                0 <= a <= staged@.len(),
                ss == views(staged@),
                entries_view(r@) == mk_entries(ss.take(a as int), true),
            decreases staged@.len() - a,
        {
            let e = Entry { path: staged[a].clone(), staged: true };
            proof {
                assert(entries_view(r@.push(e)) =~= entries_view(r@).push(e@));
                assert(mk_entries(ss.take(a + 1), true) =~= mk_entries(ss.take(a as int), true).push(
                    e@,
                ));
            }
            r.push(e);
            a = a + 1;
        }
        let k = r.len();
        let mut b: usize = 0;
        proof {
            assert(ss.take(staged@.len() as int) =~= ss);
            assert(mk_entries(us.take(0), false) =~= Seq::<EntryV>::empty());
            assert(entries_view(r@) =~= mk_entries(ss, true) + mk_entries(us.take(0), false));
        }
        while b < unstaged.len()
            invariant
                0 <= b <= unstaged@.len(),
                ss == views(staged@),
                us == views(unstaged@),
                k == ss.len(),
                entries_view(r@) == mk_entries(ss, true) + mk_entries(us.take(b as int), false),
            decreases unstaged@.len() - b,
        {
            let e = Entry { path: unstaged[b].clone(), staged: false };
            proof {
                assert(entries_view(r@.push(e)) =~= entries_view(r@).push(e@));
                assert(mk_entries(ss, true) + mk_entries(us.take(b + 1), false) =~= (mk_entries(
                    ss,
                    true,
                ) + mk_entries(us.take(b as int), false)).push(e@));
            }
            r.push(e);
            b = b + 1;
        }
        proof {
            assert(us.take(unstaged@.len() as int) =~= us);
            let rv = entries_view(r@);
            assert(rv.take(k as int) =~= mk_entries(ss, true));
            assert(rv.skip(k as int) =~= mk_entries(us, false));
            assert(paths_of(mk_entries(ss, true)) =~= ss);
            assert(paths_of(mk_entries(us, false)) =~= us);
            assert(status_split(rv, lines_view(out@), k as int));
        }
        r
    }

    /// The argument list that stages exactly the given paths, or nothing to
    /// run when the path set is empty.
    pub fn stage_paths(&self, paths: &Vec<String>) -> (r: Option<Vec<String>>)
        ensures
            match r {
                Some(args) => paths@.len() > 0 && views(args@) == seq!["add"@, "--"@] + views(
                    paths@,
                ),
                None => paths@.len() == 0,
            },
    {
        if paths.len() == 0 {
            return None;
        }
        let mut args: Vec<String> = Vec::new();
        args.push("add".to_owned());
        args.push("--".to_owned());
        append_all(&mut args, paths);
        Some(args)
    }

    /// The argument list that unstages exactly the given paths (restoring
    /// them from the index), or nothing to run when the path set is empty.
    pub fn unstage_paths(&self, paths: &Vec<String>) -> (r: Option<Vec<String>>)
        ensures
            match r {
                Some(args) => paths@.len() > 0 && views(args@) == seq![
                    "restore"@,
                    "--staged"@,
                    "--"@,
                ] + views(paths@),
                None => paths@.len() == 0,
            },
    {
        if paths.len() == 0 {
            return None;
        }
        let mut args: Vec<String> = Vec::new();
        args.push("restore".to_owned());
        args.push("--staged".to_owned());
        args.push("--".to_owned());
        append_all(&mut args, paths);
        Some(args)
    }
}

/// One row of a numeric diff-stat: a path with its added and removed line
/// counts. Binary files report as zero lines each way.
pub struct LineStat {
    pub path: String,
    pub added: u64,
    pub removed: u64,
}

pub open spec fn stat_views(rs: Seq<LineStat>) -> Seq<(Seq<char>, u64, u64)> {
    rs.map_values(|r: LineStat| (r.path@, r.added, r.removed))
}

/// The mapping an ordered list of stat rows denotes; a later row for the
/// same path wins.
pub open spec fn rows_map(rs: Seq<(Seq<char>, u64, u64)>) -> Map<Seq<char>, (u64, u64)>
    decreases rs.len(),
{
    if rs.len() == 0 {
        Map::empty()
    } else {
        rows_map(rs.drop_last()).insert(rs.last().0, (rs.last().1, rs.last().2))
    }
}

/// What one line of a numeric diff-stat contributes: the two count fields
/// and the path, which is everything after the second tab. Lines that do
/// not resolve a non-empty path are dropped.
pub open spec fn numstat_row(l: Seq<char>) -> Option<(Seq<char>, u64, u64)> {
    let t1 = find_from(l, 0, '\t');
    if t1 >= l.len() {
        None
    } else {
        let t2 = find_from(l, t1 + 1, '\t');
        if t2 >= l.len() {
            None
        } else if l.skip(t2 + 1).len() == 0 {
            None
        } else {
            Some(
                (
                    l.skip(t2 + 1),
                    count_field_val(l.take(t1)),
                    count_field_val(l.subrange(t1 + 1, t2)),
                ),
            )
        }
    }
}

/// The per-path line counts a whole numeric diff-stat stream denotes.
pub open spec fn numstat_map(ls: Seq<Seq<char>>) -> Map<Seq<char>, (u64, u64)>
    decreases ls.len(),
{
    if ls.len() == 0 {
        Map::empty()
    } else {
        let m = numstat_map(ls.drop_last());
        match numstat_row(ls.last()) {
            Some(row) => m.insert(row.0, (row.1, row.2)),
            None => m,
        }
    }
}

/// Per-path added/removed line counts, parsed from a numeric diff-stat
/// stream. Viewed as the mapping from path to counts.
pub struct LineStats {
    rows: Vec<LineStat>,
}

impl View for LineStats {
    type V = Map<Seq<char>, (u64, u64)>;

    closed spec fn view(&self) -> Map<Seq<char>, (u64, u64)> {
        rows_map(stat_views(self.rows@))
    }
}

impl LineStats {
    /// Parses a numeric diff-stat stream.
    pub fn parse(out: &str) -> (r: LineStats)
        ensures
            r@ == numstat_map(lines_view(out@)),
    {
        let lines = lines_of(out);
        let ghost lv = views(lines@);
        let mut rows: Vec<LineStat> = Vec::new();
        let mut li: usize = 0;
        proof {
            assert(lv.take(0) =~= Seq::<Seq<char>>::empty());
        }
        while li < lines.len()
            invariant
                0 <= li <= lines@.len(),
                lv == views(lines@),
                rows_map(stat_views(rows@)) == numstat_map(lv.take(li as int)),
            decreases lines@.len() - li,
        {
            let ghost l = lv[li as int];
            proof {
                assert(lv.take(li + 1).drop_last() =~= lv.take(li as int));
                assert(lv.take(li + 1).last() == l);
            }
            let line = &lines[li];
            let len = line.as_str().unicode_len();
            let t1 = find_char(line.as_str(), 0, '\t');
            proof {
                lemma_find_from_props(l, 0, '\t');
            }
            if t1 < len {
                let t2 = find_char(line.as_str(), t1 + 1, '\t');
                proof {
                    lemma_find_from_props(l, t1 + 1, '\t');
                }
                if t2 < len {
                    proof {
                        assert(l.subrange(t2 + 1, len as int) =~= l.skip(t2 + 1));
                        assert(l.subrange(0, t1 as int) =~= l.take(t1 as int));
                    }
                    let p = line.as_str().substring_char(t2 + 1, len).to_owned();
                    if p.as_str().unicode_len() > 0 {
                        let added = parse_count(line.as_str().substring_char(0, t1));
                        let removed = parse_count(line.as_str().substring_char(t1 + 1, t2));
                        let row = LineStat { path: p, added, removed };
                        proof {
                            assert(stat_views(rows@.push(row)) =~= stat_views(rows@).push(
                                (row.path@, row.added, row.removed),
                            ));
                            assert(stat_views(rows@.push(row)).drop_last() =~= stat_views(rows@));
                        }
                        rows.push(row);
                    }
                }
            }
            li = li + 1;
        }
        proof {
            assert(lv.take(lines@.len() as int) =~= lv);
        }
        LineStats { rows }
    }

    /// The counts recorded for a path, or zero both ways when the stream
    /// had no row for it.
    pub fn get(&self, path: &String) -> (r: (u64, u64))
        ensures
            self@.contains_key(path@) ==> r == self@[path@],
            !self@.contains_key(path@) ==> r == (0u64, 0u64),
    {
        let mut k = self.rows.len();
        proof {
            assert(stat_views(self.rows@).take(k as int) =~= stat_views(self.rows@));
        }
        while k > 0
            invariant
                0 <= k <= self.rows@.len(),
                self@.contains_key(path@) == rows_map(stat_views(self.rows@).take(k as int)).contains_key(
                    path@,
                ),
                self@.contains_key(path@) ==> self@[path@] == rows_map(
                    stat_views(self.rows@).take(k as int),
                )[path@],
            decreases k,
        {
            proof {
                assert(stat_views(self.rows@).take(k as int).drop_last() =~= stat_views(
                    self.rows@,
                ).take(k - 1));
                assert(stat_views(self.rows@).take(k as int).last() == (
                    self.rows@[k - 1].path@,
                    self.rows@[k - 1].added,
                    self.rows@[k - 1].removed,
                ));
            }
            if self.rows[k - 1].path == *path {
                return (self.rows[k - 1].added, self.rows[k - 1].removed);
            }
            k = k - 1;
        }
        proof {
            assert(stat_views(self.rows@).take(0) =~= Seq::<(Seq<char>, u64, u64)>::empty());
        }
        (0, 0)
    }
}

impl Git {
    /// Parses the staged line-count stream (the index diff against the
    /// last commit).
    pub fn staged_line_counts(&self, numstat_out: &str) -> (r: LineStats)
        ensures
            r@ == numstat_map(lines_view(numstat_out@)),
    {
        LineStats::parse(numstat_out)
    }

    /// Parses the unstaged line-count stream (the worktree diff against
    /// the index).
    pub fn unstaged_line_counts(&self, numstat_out: &str) -> (r: LineStats)
        ensures
            r@ == numstat_map(lines_view(numstat_out@)),
    {
        LineStats::parse(numstat_out)
    }
}

proof fn lemma_staged_paths_has(ls: Seq<Seq<char>>, i: int)
    requires
        0 <= i < ls.len(),
        staged_path_of(ls[i]) is Some,
    ensures
        staged_paths(ls).contains(staged_path_of(ls[i]).unwrap()),
    decreases ls.len(),
{
    let p = staged_path_of(ls[i]).unwrap();
    if i == ls.len() - 1 {
        assert(staged_paths(ls)[staged_paths(ls.drop_last()).len() as int] == p);
    } else {
        lemma_staged_paths_has(ls.drop_last(), i);
        let pre = staged_paths(ls.drop_last());
        let j = choose|j: int| 0 <= j < pre.len() && pre[j] == p;
        assert(staged_paths(ls)[j] == p);
    }
}

proof fn lemma_unstaged_paths_has(ls: Seq<Seq<char>>, i: int)
    requires
        0 <= i < ls.len(),
        unstaged_path_of(ls[i]) is Some,
    ensures
        unstaged_paths(ls).contains(unstaged_path_of(ls[i]).unwrap()),
    decreases ls.len(),
{
    let p = unstaged_path_of(ls[i]).unwrap();
    if i == ls.len() - 1 {
        assert(unstaged_paths(ls)[unstaged_paths(ls.drop_last()).len() as int] == p);
    } else {
        lemma_unstaged_paths_has(ls.drop_last(), i);
        let pre = unstaged_paths(ls.drop_last());
        let j = choose|j: int| 0 <= j < pre.len() && pre[j] == p;
        assert(unstaged_paths(ls)[j] == p);
    }
}

proof fn lemma_contributed_nonempty(ls: Seq<Seq<char>>)
    ensures
        forall|i: int| 0 <= i < staged_paths(ls).len() ==> (#[trigger] staged_paths(ls)[i]).len()
            > 0,
        forall|i: int| 0 <= i < unstaged_paths(ls).len() ==> (#[trigger] unstaged_paths(
            ls,
        )[i]).len() > 0,
    decreases ls.len(),
{
    if ls.len() > 0 {
        lemma_contributed_nonempty(ls.drop_last());
        let spre = staged_paths(ls.drop_last());
        let upre = unstaged_paths(ls.drop_last());
        assert forall|i: int| 0 <= i < staged_paths(ls).len() implies (#[trigger] staged_paths(
            ls,
        )[i]).len() > 0 by {
            if i < spre.len() {
                assert(staged_paths(ls)[i] == spre[i]);
            } else {
                assert(staged_paths(ls)[i] == staged_path_of(ls.last()).unwrap());
            }
        }
        assert forall|i: int| 0 <= i < unstaged_paths(ls).len() implies (#[trigger] unstaged_paths(
            ls,
        )[i]).len() > 0 by {
            if i < upre.len() {
                assert(unstaged_paths(ls)[i] == upre[i]);
            } else {
                assert(unstaged_paths(ls)[i] == unstaged_path_of(ls.last()).unwrap());
            }
        }
    }
}

/// A value standing at two indices makes its multiset count at least two.
proof fn lemma_dup_count(s: Seq<Seq<char>>, i: int, j: int)
    requires
        0 <= i < j < s.len(),
        s[i] == s[j],
    ensures
        s.to_multiset().count(s[i]) >= 2,
{
    broadcast use vstd::seq_lib::group_to_multiset_ensures;
    broadcast use vstd::multiset::group_multiset_axioms;

    s.remove_ensures(j);
    assert(s.remove(j).to_multiset() =~= s.to_multiset().remove(s[j]));
    assert(s.remove(j)[i] == s[i]);
    assert(s.remove(j).contains(s[i]));
    assert(s.remove(j).to_multiset().count(s[i]) > 0);
}

/// Every entry of a parsed status listing has a non-empty path: lines
/// that do not resolve a path contribute nothing.
pub proof fn lemma_status_paths_nonempty(r: Seq<EntryV>, s: Seq<char>)
    requires
        is_status_list(r, s),
    ensures
        forall|i: int| 0 <= i < r.len() ==> (#[trigger] r[i]).path.len() > 0,
{
    broadcast use vstd::seq_lib::group_to_multiset_ensures;

    let ls = lines_view(s);
    let k = choose|k: int| status_split(r, ls, k);
    lemma_contributed_nonempty(ls);
    assert forall|i: int| 0 <= i < r.len() implies (#[trigger] r[i]).path.len() > 0 by {
        if i < k {
            let ps = paths_of(r.take(k));
            assert(ps[i] == r[i].path);
            assert(ps.contains(r[i].path));
            assert(ps.to_multiset().count(r[i].path) > 0);
            assert(staged_paths(ls).contains(r[i].path));
        } else {
            let ps = paths_of(r.skip(k));
            assert(ps[i - k] == r[i].path);
            assert(ps.contains(r[i].path));
            assert(ps.to_multiset().count(r[i].path) > 0);
            assert(unstaged_paths(ls).contains(r[i].path));
        }
    }
}

/// The staged and unstaged contributions of a status stream, one after
/// the other.
pub open spec fn contributed_paths(s: Seq<char>) -> Seq<Seq<char>> {
    staged_paths(lines_view(s)) + unstaged_paths(lines_view(s))
}

/// No path appears twice in a parsed status listing, as long as no two
/// lines of the stream contribute the same path. (One line never
/// contributes twice: a record already staged is suppressed from the
/// unstaged part.)
pub proof fn lemma_status_paths_unique(r: Seq<EntryV>, s: Seq<char>)
    requires
        is_status_list(r, s),
        contributed_paths(s).no_duplicates(),
    ensures
        forall|i: int, j: int|
            0 <= i < j < r.len() ==> (#[trigger] r[i]).path != (#[trigger] r[j]).path,
{
    broadcast use vstd::seq_lib::group_to_multiset_ensures;
    broadcast use vstd::multiset::group_multiset_axioms;

    let ls = lines_view(s);
    let k = choose|k: int| status_split(r, ls, k);
    let sp = staged_paths(ls);
    let up = unstaged_paths(ls);
    let all = contributed_paths(s);
    all.lemma_multiset_has_no_duplicates();
    vstd::seq_lib::lemma_multiset_commutative(sp, up);
    assert forall|i: int, j: int|
        0 <= i < j < r.len() implies (#[trigger] r[i]).path != (#[trigger] r[j]).path by {
        let sps = paths_of(r.take(k));
        let ups = paths_of(r.skip(k));
        if r[i].path == r[j].path {
            let p = r[i].path;
            if j < k {
                assert(sps[i] == p && sps[j] == p);
                lemma_dup_count(sps, i, j);
                assert(all.to_multiset().count(p) >= sp.to_multiset().count(p));
                assert(false);
            } else if i >= k {
                assert(ups[i - k] == p && ups[j - k] == p);
                lemma_dup_count(ups, i - k, j - k);
                assert(all.to_multiset().count(p) >= up.to_multiset().count(p));
                assert(false);
            } else {
                assert(sps[i] == p);
                assert(sps.contains(p));
                assert(ups[j - k] == p);
                assert(ups.contains(p));
                assert(sp.to_multiset().count(p) > 0);
                assert(up.to_multiset().count(p) > 0);
                assert(all.to_multiset().count(p) >= 2);
                assert(false);
            }
        }
    }
}

/// A status line whose index column is changed contributes exactly one
/// staged entry and no unstaged one, whatever its worktree column says.
pub proof fn lemma_index_changed_appears_staged(r: Seq<EntryV>, s: Seq<char>, i: int)
    requires
        is_status_list(r, s),
        0 <= i < lines_view(s).len(),
        has_xy(record_kind_of(lines_view(s)[i])),
        x_of(lines_view(s)[i]) != '.',
        tail_path_of(lines_view(s)[i]).len() > 0,
    ensures
        unstaged_path_of(lines_view(s)[i]) is None,
        exists|e: int|
            0 <= e < r.len() && (#[trigger] r[e]).staged && r[e].path == tail_path_of(
                lines_view(s)[i],
            ),
{
    broadcast use vstd::seq_lib::group_to_multiset_ensures;

    let ls = lines_view(s);
    let k = choose|k: int| status_split(r, ls, k);
    let p = tail_path_of(ls[i]);
    lemma_staged_paths_has(ls, i);
    assert(staged_paths(ls).to_multiset().count(p) > 0);
    let sps = paths_of(r.take(k));
    assert(sps.contains(p));
    let e = choose|e: int| 0 <= e < sps.len() && sps[e] == p;
    assert(r[e].staged && r[e].path == p);
}

/// The other half of the staged rule: the path of a line whose index
/// column is changed never shows up as an unstaged entry, as long as no
/// other line contributes the same path.
pub proof fn lemma_index_changed_never_unstaged(r: Seq<EntryV>, s: Seq<char>, i: int)
    requires
        is_status_list(r, s),
        contributed_paths(s).no_duplicates(),
        0 <= i < lines_view(s).len(),
        has_xy(record_kind_of(lines_view(s)[i])),
        x_of(lines_view(s)[i]) != '.',
        tail_path_of(lines_view(s)[i]).len() > 0,
    ensures
        forall|e: int|
            0 <= e < r.len() && (#[trigger] r[e]).path == tail_path_of(lines_view(s)[i])
                ==> r[e].staged,
{
    let p = tail_path_of(lines_view(s)[i]);
    lemma_index_changed_appears_staged(r, s, i);
    lemma_status_paths_unique(r, s);
    let e0 = choose|e0: int| 0 <= e0 < r.len() && (#[trigger] r[e0]).staged && r[e0].path == p;
    assert forall|e: int|
        0 <= e < r.len() && (#[trigger] r[e]).path == p implies r[e].staged by {
        if e != e0 {
            if e < e0 {
                assert(r[e].path != r[e0].path);
            } else {
                assert(r[e0].path != r[e].path);
            }
        }
    }
}

/// A status line whose index column is unmodified but whose worktree
/// column is changed contributes an unstaged entry.
pub proof fn lemma_worktree_changed_appears_unstaged(r: Seq<EntryV>, s: Seq<char>, i: int)
    requires
        is_status_list(r, s),
        0 <= i < lines_view(s).len(),
        has_xy(record_kind_of(lines_view(s)[i])),
        x_of(lines_view(s)[i]) == '.',
        y_of(lines_view(s)[i]) != '.',
        tail_path_of(lines_view(s)[i]).len() > 0,
    ensures
        staged_path_of(lines_view(s)[i]) is None,
        exists|e: int|
            0 <= e < r.len() && !(#[trigger] r[e]).staged && r[e].path == tail_path_of(
                lines_view(s)[i],
            ),
{
    broadcast use vstd::seq_lib::group_to_multiset_ensures;

    let ls = lines_view(s);
    let k = choose|k: int| status_split(r, ls, k);
    let p = tail_path_of(ls[i]);
    lemma_unstaged_paths_has(ls, i);
    assert(unstaged_paths(ls).to_multiset().count(p) > 0);
    let ups = paths_of(r.skip(k));
    assert(ups.contains(p));
    let e = choose|e: int| 0 <= e < ups.len() && ups[e] == p;
    assert(r[e + k].staged == false && r[e + k].path == p);
}

/// An untracked-file record contributes exactly one unstaged entry with
/// the record's path: one appears, and (as long as no other line
/// contributes the same path) no second entry carries it.
pub proof fn lemma_untracked_appears_once_unstaged(r: Seq<EntryV>, s: Seq<char>, i: int)
    requires
        is_status_list(r, s),
        contributed_paths(s).no_duplicates(),
        0 <= i < lines_view(s).len(),
        record_kind_of(lines_view(s)[i]) == RecordKind::Untracked,
        untracked_path_of(lines_view(s)[i]).len() > 0,
    ensures
        staged_path_of(lines_view(s)[i]) is None,
        exists|e: int|
            0 <= e < r.len() && !(#[trigger] r[e]).staged && r[e].path == untracked_path_of(
                lines_view(s)[i],
            ),
        forall|e1: int, e2: int|
            0 <= e1 < r.len() && 0 <= e2 < r.len() && (#[trigger] r[e1]).path == untracked_path_of(
                lines_view(s)[i],
            ) && (#[trigger] r[e2]).path == untracked_path_of(lines_view(s)[i]) ==> e1 == e2,
{
    broadcast use vstd::seq_lib::group_to_multiset_ensures;

    let ls = lines_view(s);
    let k = choose|k: int| status_split(r, ls, k);
    let p = untracked_path_of(ls[i]);
    lemma_unstaged_paths_has(ls, i);
    assert(unstaged_paths(ls).to_multiset().count(p) > 0);
    let ups = paths_of(r.skip(k));
    assert(ups.contains(p));
    let e = choose|e: int| 0 <= e < ups.len() && ups[e] == p;
    assert(r[e + k].staged == false && r[e + k].path == p);
    lemma_status_paths_unique(r, s);
}

/// The presentation order of a parsed status listing: every staged entry
/// comes before every unstaged one, and within each part the paths ascend.
pub proof fn lemma_status_output_ordering(r: Seq<EntryV>, s: Seq<char>)
    requires
        is_status_list(r, s),
    ensures
        forall|i: int, j: int|
            0 <= i < j < r.len() && (#[trigger] r[j]).staged ==> (#[trigger] r[i]).staged,
        forall|i: int, j: int|
            0 <= i < j < r.len() && (#[trigger] r[i]).staged == (#[trigger] r[j]).staged ==> lex_le(
                r[i].path,
                r[j].path,
            ),
{
    let ls = lines_view(s);
    let k = choose|k: int| status_split(r, ls, k);
    let sps = paths_of(r.take(k));
    let ups = paths_of(r.skip(k));
    assert forall|i: int, j: int|
        0 <= i < j < r.len() && (#[trigger] r[i]).staged == (#[trigger] r[j]).staged implies lex_le(
        r[i].path,
        r[j].path,
    ) by {
        if j < k {
            assert(sps[i] == r[i].path && sps[j] == r[j].path);
            assert(lex_leq()(sps[i], sps[j]));
        } else if i >= k {
            assert(ups[i - k] == r[i].path && ups[j - k] == r[j].path);
            assert(lex_leq()(ups[i - k], ups[j - k]));
        } else {
            assert(r[i].staged && !r[j].staged);
        }
    }
}

/// Appends copies of all of `src` to `dst`.
fn append_all(dst: &mut Vec<String>, src: &Vec<String>)
    ensures
        views(final(dst)@) == views(old(dst)@) + views(src@),
{
    let mut i: usize = 0;
    proof {
        assert(views(dst@) + views(src@).take(0) =~= views(dst@));
    }
    while i < src.len()
        invariant
            0 <= i <= src@.len(),
            views(dst@) == views(old(dst)@) + views(src@).take(i as int),
        decreases src@.len() - i,
    {
        let s = src[i].clone();
        proof {
            lemma_views_push(dst@, s);
            assert(views(dst@).push(s@) =~= views(old(dst)@) + views(src@).take(i + 1));
        }
        dst.push(s);
        i = i + 1;
    }
    proof {
        assert(views(src@).take(src@.len() as int) =~= views(src@));
    }
}

} // verus!
