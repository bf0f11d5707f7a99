//! Plain-text reports of duplicate groups and scans.

use vstd::prelude::*;
use crate::groups::{group_view, path_texts, DuplicateGroup, DuplicateGroups};
use crate::progress::ScanProgress;
use crate::text::{decimal, push_count, push_text};

verus! {

/// The number of paths over all groups.
pub open spec fn total_paths(v: Seq<(Seq<char>, Seq<Seq<char>>)>) -> nat
    decreases v.len(),
{
    if v.len() == 0 {
        0
    } else {
        total_paths(v.drop_last()) + v.last().1.len()
    }
}

/// The number of copies beyond the first in each group.
pub open spec fn extra_copies(v: Seq<(Seq<char>, Seq<Seq<char>>)>) -> nat
    decreases v.len(),
{
    if v.len() == 0 {
        0
    } else {
        extra_copies(v.drop_last()) + (if v.last().1.len() > 0 {
            (v.last().1.len() - 1) as nat
        } else {
            0
        })
    }
}

/// Sums over a prefix are at most the sums over the whole.
pub proof fn lemma_sums_prefix(v: Seq<(Seq<char>, Seq<Seq<char>>)>, k: int)
    requires
        0 <= k <= v.len(),
    ensures
        total_paths(v.take(k)) <= total_paths(v),
        extra_copies(v.take(k)) <= extra_copies(v),
        extra_copies(v) <= total_paths(v),
    decreases v.len(),
{
    if v.len() > 0 {
        if k == v.len() {
            assert(v.take(k) =~= v);
            lemma_sums_prefix(v.drop_last(), v.len() - 1);
        } else {
            assert(v.take(k) =~= v.drop_last().take(k));
            lemma_sums_prefix(v.drop_last(), k);
        }
    }
}

/// The lines listing a group's paths.
pub open spec fn path_lines(paths: Seq<Seq<char>>) -> Seq<char>
    decreases paths.len(),
{
    if paths.len() == 0 {
        Seq::empty()
    } else {
        path_lines(paths.drop_last()) + "\n  "@ + paths.last()
    }
}

/// One numbered section per group.
pub open spec fn group_sections(v: Seq<(Seq<char>, Seq<Seq<char>>)>) -> Seq<char>
    decreases v.len(),
{
    if v.len() == 0 {
        Seq::empty()
    } else {
        group_sections(v.drop_last()) + "\n\nGroup "@ + decimal(v.len()) + ":"@ + path_lines(v.last().1)
    }
}

/// The duplicate report for `v`.
pub open spec fn duplicate_report(v: Seq<(Seq<char>, Seq<Seq<char>>)>) -> Seq<char> {
    if v.len() == 0 {
        "No exact duplicate images were found."@
    } else {
        "Found "@ + decimal(v.len()) + " duplicate group(s) ("@ + decimal(extra_copies(v))
            + " extra copy/copies)."@ + group_sections(v)
    }
}

/// Every group holds at least one path.
pub open spec fn groups_nonempty(v: Seq<(Seq<char>, Seq<Seq<char>>)>) -> bool {
    forall|k: int| 0 <= k < v.len() ==> (#[trigger] v[k]).1.len() > 0
}

fn push_path_lines(s: &mut String, paths: &Vec<String>)
    ensures
        final(s)@ == old(s)@ + path_lines(path_texts(paths@)),
{
    let ghost pv = path_texts(paths@);
    let ghost start = s@;
    let mut j: usize = 0;
    assert(pv.take(0) =~= Seq::<Seq<char>>::empty());
    while j < paths.len()
        invariant
            pv == path_texts(paths@),
            j <= paths.len(),
            s@ == start + path_lines(pv.take(j as int)),
        decreases paths.len() - j,
    {
        push_text(s, "\n  ");
        push_text(s, paths[j].as_str());
        proof {
            assert(pv.take(j + 1).drop_last() =~= pv.take(j as int));
            assert(pv.take(j + 1).last() == paths@[j as int]@);
        }
        j += 1;
    }
    assert(pv.take(j as int) =~= pv);
}

/// Makes duplicate results readable in the GUI and command-line output.
pub fn format_duplicate_report(duplicates: &DuplicateGroups) -> (report: String)
    requires
        groups_nonempty(duplicates@),
        total_paths(duplicates@) <= usize::MAX,
    ensures
        report@ == duplicate_report(duplicates@),
{
    let gs = duplicates.groups();
    let ghost v = duplicates@;
    if gs.len() == 0 {
        return String::from_str("No exact duplicate images were found.");
    }
    let mut extra: usize = 0;
    let mut k: usize = 0;
    proof {
        lemma_sums_prefix(v, 0);
    }
    assert(v.take(0) =~= Seq::<(Seq<char>, Seq<Seq<char>>)>::empty());
    while k < gs.len()
        invariant
            gs@.map_values(|g: DuplicateGroup| group_view(g)) == v,
            groups_nonempty(v),
            total_paths(v) <= usize::MAX,
            k <= gs.len(),
            extra == extra_copies(v.take(k as int)),
        decreases gs.len() - k,
    {
        assert(v[k as int] == group_view(gs@[k as int]));
        assert(v[k as int].1.len() > 0);
        proof {
            assert(v.take(k + 1).drop_last() =~= v.take(k as int));
            lemma_sums_prefix(v, k + 1);
        }
        extra = extra + (gs[k].paths.len() - 1);
        k += 1;
    }
    assert(v.take(k as int) =~= v);
    let mut s = String::from_str("Found ");
    push_count(&mut s, gs.len());
    push_text(&mut s, " duplicate group(s) (");
    push_count(&mut s, extra);
    push_text(&mut s, " extra copy/copies).");
    let ghost head = s@;
    let mut k: usize = 0;
    while k < gs.len()
        invariant
            gs@.map_values(|g: DuplicateGroup| group_view(g)) == v,
            k <= gs.len(),
            s@ == head + group_sections(v.take(k as int)),
        decreases gs.len() - k,
    {
        assert(v[k as int] == group_view(gs@[k as int]));
        push_text(&mut s, "\n\nGroup ");
        push_count(&mut s, k + 1);
        push_text(&mut s, ":");
        push_path_lines(&mut s, &gs[k].paths);
        proof {
            assert(v.take(k + 1).drop_last() =~= v.take(k as int));
            assert(v.take(k + 1).last() == v[k as int]);
        }
        k += 1;
    }
    assert(v.take(k as int) =~= v);
    s
}

/// The location lines of a scan report: `- ` and the path, one per line.
pub open spec fn location_lines(roots: Seq<Seq<char>>) -> Seq<char>
    decreases roots.len(),
{
    if roots.len() == 0 {
        Seq::empty()
    } else if roots.len() == 1 {
        "- "@ + roots[0]
    } else {
        location_lines(roots.drop_last()) + "\n- "@ + roots.last()
    }
}

/// The plain-text scan report.
pub open spec fn scan_report(roots: Seq<Seq<char>>, p: ScanProgress, v: Seq<(Seq<char>, Seq<Seq<char>>)>) -> Seq<char> {
    let files = total_paths(v);
    let extra: nat = if files >= v.len() {
        (files - v.len()) as nat
    } else {
        0
    };
    "Exact media scan report\n\nLocations:\n"@ + location_lines(roots) + "\n\nFolders visited: "@
        + decimal(p.directories_visited as nat) + "\nFiles visited: "@ + decimal(p.files_visited as nat)
        + "\nKnown media files: "@ + decimal(p.media_files_found as nat)
        + "\nFiles hashed this scan: "@ + decimal(p.files_hashed as nat) + "\nSaved hashes reused: "@
        + decimal(p.hashes_reused as nat) + "\nDuplicate groups: "@ + decimal(v.len())
        + "\nDuplicate files: "@ + decimal(files) + "\nExtra copies: "@ + decimal(extra) + "\n"@
}

/// Produces a plain-text summary suitable for copying or saving alongside a scan.
pub fn format_scan_report(roots: &Vec<String>, progress: &ScanProgress, groups: &DuplicateGroups) -> (report: String)
    requires
        total_paths(groups@) <= usize::MAX,
    ensures
        report@ == scan_report(path_texts(roots@), *progress, groups@),
{
    let gs = groups.groups();
    let ghost v = groups@;
    let mut files: usize = 0;
    let mut k: usize = 0;
    assert(v.take(0) =~= Seq::<(Seq<char>, Seq<Seq<char>>)>::empty());
    while k < gs.len()
        invariant
            gs@.map_values(|g: DuplicateGroup| group_view(g)) == v,
            total_paths(v) <= usize::MAX,
            k <= gs.len(),
            files == total_paths(v.take(k as int)),
        decreases gs.len() - k,
    {
        assert(v[k as int] == group_view(gs@[k as int]));
        proof {
            assert(v.take(k + 1).drop_last() =~= v.take(k as int));
            lemma_sums_prefix(v, k + 1);
        }
        files = files + gs[k].paths.len();
        k += 1;
    }
    assert(v.take(k as int) =~= v);
    let ghost rv = path_texts(roots@);
    let mut s = String::from_str("Exact media scan report\n\nLocations:\n");
    let ghost head = s@;
    let mut r: usize = 0;
    assert(rv.take(0) =~= Seq::<Seq<char>>::empty());
    while r < roots.len()
        invariant
            rv == path_texts(roots@),
            r <= roots.len(),
            s@ == head + location_lines(rv.take(r as int)),
        decreases roots.len() - r,
    {
        if r == 0 {
            push_text(&mut s, "- ");
        } else {
            push_text(&mut s, "\n- ");
        }
        push_text(&mut s, roots[r].as_str());
        proof {
            assert(rv.take(r + 1).drop_last() =~= rv.take(r as int));
            assert(rv.take(r + 1).last() == roots@[r as int]@);
            if r == 0 {
                assert(rv.take(1)[0] == roots@[0]@);
            }
        }
        r += 1;
    }
    assert(rv.take(r as int) =~= rv);
    push_text(&mut s, "\n\nFolders visited: ");
    push_count(&mut s, progress.directories_visited);
    push_text(&mut s, "\nFiles visited: ");
    push_count(&mut s, progress.files_visited);
    push_text(&mut s, "\nKnown media files: ");
    push_count(&mut s, progress.media_files_found);
    push_text(&mut s, "\nFiles hashed this scan: ");
    push_count(&mut s, progress.files_hashed);
    push_text(&mut s, "\nSaved hashes reused: ");
    push_count(&mut s, progress.hashes_reused);
    push_text(&mut s, "\nDuplicate groups: ");
    push_count(&mut s, gs.len());
    push_text(&mut s, "\nDuplicate files: ");
    push_count(&mut s, files);
    push_text(&mut s, "\nExtra copies: ");
    push_count(&mut s, files.saturating_sub(gs.len()));
    push_text(&mut s, "\n");
    s
}


/// With every group holding a path, the copies beyond the first of each group
/// number all paths less one per group.
pub proof fn lemma_extra_copies_count(v: Seq<(Seq<char>, Seq<Seq<char>>)>)
    requires
        groups_nonempty(v),
    ensures
        extra_copies(v) + v.len() == total_paths(v),
    decreases v.len(),
{
    if v.len() > 0 {
        let w = v.drop_last();
        assert forall|k: int| 0 <= k < w.len() implies (#[trigger] w[k]).1.len() > 0 by {
            assert(w[k] == v[k]);
        }
        lemma_extra_copies_count(w);
        assert(v[v.len() - 1].1.len() > 0);
    }
}

/// The duplicate report opens by counting the groups and the extra copies: all
/// paths less one kept per group.
pub proof fn lemma_report_header(v: Seq<(Seq<char>, Seq<Seq<char>>)>)
    requires
        v.len() > 0,
        groups_nonempty(v),
    ensures
        ({
            let header = "Found "@ + decimal(v.len()) + " duplicate group(s) ("@ + decimal(
                (total_paths(v) - v.len()) as nat,
            ) + " extra copy/copies)."@;
            &&& header.len() <= duplicate_report(v).len()
            &&& duplicate_report(v).take(header.len() as int) == header
        }),
{
    lemma_extra_copies_count(v);
    let header = "Found "@ + decimal(v.len()) + " duplicate group(s) ("@ + decimal(
        (total_paths(v) - v.len()) as nat,
    ) + " extra copy/copies)."@;
    assert(duplicate_report(v) == header + group_sections(v));
    assert((header + group_sections(v)).take(header.len() as int) =~= header);
}


/// The scan report closes with the group count, the number of files in groups and
/// the extra copies, the same count as the duplicate report: all files in groups
/// less one kept per group.
pub proof fn lemma_scan_report_totals(roots: Seq<Seq<char>>, p: ScanProgress, v: Seq<(Seq<char>, Seq<Seq<char>>)>)
    requires
        groups_nonempty(v),
    ensures
        ({
            let tail = "\nDuplicate groups: "@ + decimal(v.len()) + "\nDuplicate files: "@ + decimal(total_paths(v))
                + "\nExtra copies: "@ + decimal((total_paths(v) - v.len()) as nat) + "\n"@;
            &&& tail.len() <= scan_report(roots, p, v).len()
            &&& scan_report(roots, p, v).skip(scan_report(roots, p, v).len() - tail.len()) == tail
        }),
{
    lemma_extra_copies_count(v);
    let tail = "\nDuplicate groups: "@ + decimal(v.len()) + "\nDuplicate files: "@ + decimal(total_paths(v))
        + "\nExtra copies: "@ + decimal((total_paths(v) - v.len()) as nat) + "\n"@;
    let head = "Exact media scan report\n\nLocations:\n"@ + location_lines(roots) + "\n\nFolders visited: "@
        + decimal(p.directories_visited as nat) + "\nFiles visited: "@ + decimal(p.files_visited as nat)
        + "\nKnown media files: "@ + decimal(p.media_files_found as nat)
        + "\nFiles hashed this scan: "@ + decimal(p.files_hashed as nat) + "\nSaved hashes reused: "@
        + decimal(p.hashes_reused as nat);
    assert(scan_report(roots, p, v) =~= head + tail);
    assert((head + tail).skip(head.len() as int) =~= tail);
}

/// Where a text occurs inside a longer one.
pub open spec fn occurs_in(part: Seq<char>, whole: Seq<char>) -> bool {
    exists|i: int| 0 <= i && i + part.len() <= whole.len() && #[trigger] whole.subrange(i, i + part.len()) == part
}

proof fn lemma_occurs_extend(part: Seq<char>, a: Seq<char>, b: Seq<char>)
    requires
        occurs_in(part, a),
    ensures
        occurs_in(part, a + b),
        occurs_in(part, b + a),
{
    let i = choose|i: int| 0 <= i && i + part.len() <= a.len() && #[trigger] a.subrange(i, i + part.len()) == part;
    assert((a + b).subrange(i, i + part.len()) =~= part);
    assert((b + a).subrange(b.len() + i, b.len() + i + part.len()) =~= part);
}

proof fn lemma_occurs_whole(part: Seq<char>)
    ensures
        occurs_in(part, part),
{
    let i: int = 0;
    assert(part.subrange(i, i + part.len()) =~= part);
}

proof fn lemma_path_lines_list(paths: Seq<Seq<char>>, j: int)
    requires
        0 <= j < paths.len(),
    ensures
        occurs_in("\n  "@ + paths[j], path_lines(paths)),
    decreases paths.len(),
{
    let line = "\n  "@ + paths[j];
    let w = paths.drop_last();
    if j == paths.len() - 1 {
        lemma_occurs_whole(line);
        lemma_occurs_extend(line, line, path_lines(w));
        assert(path_lines(paths) == path_lines(w) + line);
    } else {
        lemma_path_lines_list(w, j);
        assert(w[j] == paths[j]);
        lemma_occurs_extend(line, path_lines(w), "\n  "@ + paths.last());
        assert(path_lines(paths) =~= path_lines(w) + ("\n  "@ + paths.last()));
    }
}

proof fn lemma_sections_list(v: Seq<(Seq<char>, Seq<Seq<char>>)>, a: int, j: int)
    requires
        0 <= a < v.len(),
        0 <= j < v[a].1.len(),
    ensures
        occurs_in("\n  "@ + v[a].1[j], group_sections(v)),
    decreases v.len(),
{
    let line = "\n  "@ + v[a].1[j];
    let w = v.drop_last();
    let head = "\n\nGroup "@ + decimal(v.len()) + ":"@;
    assert(group_sections(v) =~= group_sections(w) + (head + path_lines(v.last().1)));
    if a == v.len() - 1 {
        lemma_path_lines_list(v.last().1, j);
        lemma_occurs_extend(line, path_lines(v.last().1), head);
        lemma_occurs_extend(line, head + path_lines(v.last().1), group_sections(w));
    } else {
        assert(w[a] == v[a]);
        lemma_sections_list(w, a, j);
        lemma_occurs_extend(line, group_sections(w), head + path_lines(v.last().1));
    }
}

/// The duplicate report lists every path of every group on a line of its own,
/// indented by two spaces.
pub proof fn lemma_report_lists_every_path(v: Seq<(Seq<char>, Seq<Seq<char>>)>, a: int, j: int)
    requires
        0 <= a < v.len(),
        0 <= j < v[a].1.len(),
    ensures
        occurs_in("\n  "@ + v[a].1[j], duplicate_report(v)),
{
    lemma_sections_list(v, a, j);
    let header = "Found "@ + decimal(v.len()) + " duplicate group(s) ("@ + decimal(extra_copies(v))
        + " extra copy/copies)."@;
    assert(duplicate_report(v) == header + group_sections(v));
    lemma_occurs_extend("\n  "@ + v[a].1[j], group_sections(v), header);
}

} // verus!
