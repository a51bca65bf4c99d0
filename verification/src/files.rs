//! The file aggregator: count, per repository path, how many in-window
//! commits touch it, and collect the distinct author names of those commits
//! in first-seen order; rank the records by change count, descending.

use vstd::prelude::*;
use crate::commit::{in_window, views, CommitData, CommitView};
use crate::seqsum::{
    lemma_sum_by_le, lemma_sum_by_permutation, lemma_sum_by_pos, lemma_sum_by_push,
    lemma_sum_by_single, lemma_sum_by_take_le, lemma_sum_by_zero, lemma_permutation_pointwise,
    sum_by,
};
use crate::window::is_within_days;

verus! {

/// Accumulated change activity of one repository path.
#[derive(Debug, Clone)]
pub struct FileStats {
    /// Repository-relative path.
    pub path: String,
    /// Number of times the path appears in the first-parent diff of an
    /// in-window commit.
    pub changes: usize,
    /// Distinct display names of the authors of those commits, in the order
    /// each name was first seen.
    pub contributors: Vec<String>,
}

/// The mathematical shadow of a `FileStats`.
pub struct FileView {
    pub path: Seq<char>,
    pub changes: nat,
    pub contributors: Seq<Seq<char>>,
}

impl View for FileStats {
    type V = FileView;

    open spec fn view(&self) -> FileView {
        FileView {
            path: self.path@,
            changes: self.changes as nat,
            contributors: self.contributors.deep_view(),
        }
    }
}

/// The views of a sequence of file records.
pub open spec fn fviews(s: Seq<FileStats>) -> Seq<FileView> {
    s.map_values(|r: FileStats| r@)
}

/// How often path `p` occurs in a diff's path list.
pub open spec fn occ(paths: Seq<Seq<char>>, p: Seq<char>) -> nat
    decreases paths.len(),
{
    if paths.len() == 0 {
        0
    } else {
        occ(paths.drop_last(), p) + (if paths.last() == p {
            1nat
        } else {
            0nat
        })
    }
}

pub proof fn lemma_occ_push(paths: Seq<Seq<char>>, p: Seq<char>, q: Seq<char>)
    ensures
        occ(paths.push(q), p) == occ(paths, p) + (if q == p {
            1nat
        } else {
            0nat
        }),
{
    assert(paths.push(q).drop_last() =~= paths);
    assert(paths.push(q).last() == q);
}

pub proof fn lemma_occ_le_len(paths: Seq<Seq<char>>, p: Seq<char>)
    ensures
        occ(paths, p) <= paths.len(),
    decreases paths.len(),
{
    if paths.len() > 0 {
        lemma_occ_le_len(paths.drop_last(), p);
    }
}

/// A path occurs in the list exactly when its occurrence count is positive.
pub proof fn lemma_occ_pos(paths: Seq<Seq<char>>, p: Seq<char>)
    ensures
        occ(paths, p) > 0 <==> paths.contains(p),
    decreases paths.len(),
{
    if paths.len() > 0 {
        lemma_occ_pos(paths.drop_last(), p);
        assert(paths.last() == paths[paths.len() - 1]);
        assert(forall|u: int|
            0 <= u < paths.drop_last().len() ==> #[trigger] paths.drop_last()[u] == paths[u]);
        if paths.contains(p) && paths.last() != p {
            let u = choose|u: int| 0 <= u < paths.len() && paths[u] == p;
            assert(paths.drop_last()[u] == p);
            assert(paths.drop_last().contains(p));
        }
        if paths.drop_last().contains(p) {
            let u = choose|u: int| 0 <= u < paths.drop_last().len() && paths.drop_last()[u] == p;
            assert(paths[u] == p);
        }
    }
}

/// How often path `p` is touched across the in-window commits of `cs`.
pub open spec fn path_changes(cs: Seq<CommitView>, days: int, now: int, p: Seq<char>) -> nat {
    sum_by(cs, |c: CommitView| if in_window(c, days, now) { occ(c.paths, p) } else { 0nat })
}

/// Every path entry of every commit, window or not: an upper bound for
/// every per-path change count.
pub open spec fn total_paths(cs: Seq<CommitView>) -> nat {
    sum_by(cs, |c: CommitView| c.paths.len())
}

/// An in-window commit whose diff touches path `p`.
pub open spec fn touches(c: CommitView, days: int, now: int, p: Seq<char>) -> bool {
    in_window(c, days, now) && c.paths.contains(p)
}

/// One commit's effect on the contributor list of path `p`: an in-window
/// commit touching `p` appends its author name unless already present.
pub open spec fn contrib_step(
    c: CommitView,
    days: int,
    now: int,
    p: Seq<char>,
    acc: Seq<Seq<char>>,
) -> Seq<Seq<char>> {
    if touches(c, days, now, p) && !acc.contains(c.name) {
        acc.push(c.name)
    } else {
        acc
    }
}

/// Fold `contrib_step` over the commits, front to back, starting from `acc`.
pub open spec fn contribs_from(
    cs: Seq<CommitView>,
    days: int,
    now: int,
    p: Seq<char>,
    acc: Seq<Seq<char>>,
) -> Seq<Seq<char>>
    decreases cs.len(),
{
    if cs.len() == 0 {
        acc
    } else {
        contribs_from(cs.drop_first(), days, now, p, contrib_step(cs[0], days, now, p, acc))
    }
}

/// The contributor list of path `p`: distinct author names of the in-window
/// commits touching `p`, in first-seen order.
pub open spec fn contributors_for(
    cs: Seq<CommitView>,
    days: int,
    now: int,
    p: Seq<char>,
) -> Seq<Seq<char>> {
    contribs_from(cs, days, now, p, Seq::empty())
}

pub proof fn lemma_contribs_push(
    cs: Seq<CommitView>,
    days: int,
    now: int,
    p: Seq<char>,
    acc: Seq<Seq<char>>,
    c: CommitView,
)
    ensures
        contribs_from(cs.push(c), days, now, p, acc) == contrib_step(
            c,
            days,
            now,
            p,
            contribs_from(cs, days, now, p, acc),
        ),
    decreases cs.len(),
{
    let acc2 = contrib_step(cs.push(c)[0], days, now, p, acc);
    assert(contribs_from(cs.push(c), days, now, p, acc) == contribs_from(
        cs.push(c).drop_first(),
        days,
        now,
        p,
        acc2,
    ));
    if cs.len() == 0 {
        assert(cs.push(c)[0] == c);
        assert(cs.push(c).drop_first() =~= Seq::<CommitView>::empty());
        assert(contribs_from(Seq::<CommitView>::empty(), days, now, p, acc2) == acc2);
        assert(contribs_from(cs, days, now, p, acc) == acc);
    } else {
        assert(cs.push(c)[0] == cs[0]);
        assert(cs.push(c).drop_first() =~= cs.drop_first().push(c));
        lemma_contribs_push(cs.drop_first(), days, now, p, acc2, c);
        assert(contribs_from(cs, days, now, p, acc) == contribs_from(
            cs.drop_first(),
            days,
            now,
            p,
            acc2,
        ));
    }
}

/// When no commit of `cs` is an in-window touch of `p`, the fold returns
/// its accumulator unchanged.
pub proof fn lemma_contribs_no_touch(
    cs: Seq<CommitView>,
    days: int,
    now: int,
    p: Seq<char>,
    acc: Seq<Seq<char>>,
)
    requires
        forall|t: int| 0 <= t < cs.len() ==> !touches(#[trigger] cs[t], days, now, p),
    ensures
        contribs_from(cs, days, now, p, acc) == acc,
    decreases cs.len(),
{
    if cs.len() > 0 {
        assert(!touches(cs[0], days, now, p));
        assert(forall|t: int|
            0 <= t < cs.drop_first().len() ==> #[trigger] cs.drop_first()[t] == cs[t + 1]);
        lemma_contribs_no_touch(cs.drop_first(), days, now, p, acc);
    }
}

/// One step of the fold keeps a name exactly when the accumulator held it
/// or the commit is an in-window touch of `p` carrying it.
proof fn lemma_step_membership(
    c: CommitView,
    days: int,
    now: int,
    p: Seq<char>,
    acc: Seq<Seq<char>>,
    nm: Seq<char>,
)
    ensures
        contrib_step(c, days, now, p, acc).contains(nm) <==> (acc.contains(nm) || (touches(
            c,
            days,
            now,
            p,
        ) && c.name == nm)),
{
    let acc2 = contrib_step(c, days, now, p, acc);
    if touches(c, days, now, p) && !acc.contains(c.name) {
        assert(acc2 == acc.push(c.name));
        assert(acc2[acc.len() as int] == c.name);
        assert(forall|a: int| 0 <= a < acc.len() ==> #[trigger] acc2[a] == acc[a]);
        if acc2.contains(nm) && !acc.contains(nm) {
            let ai = choose|ai: int| 0 <= ai < acc2.len() && acc2[ai] == nm;
            if ai < acc.len() {
                assert(acc.contains(nm));
            } else {
                assert(nm == c.name);
            }
        }
        if nm == c.name {
            assert(acc2.contains(nm));
        }
        if acc.contains(nm) {
            let ai = choose|ai: int| 0 <= ai < acc.len() && acc[ai] == nm;
            assert(acc2[ai] == nm);
            assert(acc2.contains(nm));
        }
    } else {
        assert(acc2 == acc);
        if touches(c, days, now, p) && c.name == nm {
            assert(acc.contains(c.name));
        }
    }
}

/// A name is in the contributor list of `p` exactly when it is in the
/// accumulator already or some in-window commit touching `p` carries it.
pub proof fn lemma_contribs_membership(
    cs: Seq<CommitView>,
    days: int,
    now: int,
    p: Seq<char>,
    acc: Seq<Seq<char>>,
    nm: Seq<char>,
)
    ensures
        contribs_from(cs, days, now, p, acc).contains(nm) <==> (acc.contains(nm) || exists|t: int|
            0 <= t < cs.len() && touches(#[trigger] cs[t], days, now, p) && cs[t].name == nm),
    decreases cs.len(),
{
    if cs.len() == 0 {
    } else {
        let c0 = cs[0];
        let acc2 = contrib_step(c0, days, now, p, acc);
        assert(contribs_from(cs, days, now, p, acc) == contribs_from(
            cs.drop_first(),
            days,
            now,
            p,
            acc2,
        ));
        lemma_contribs_membership(cs.drop_first(), days, now, p, acc2, nm);
        lemma_step_membership(c0, days, now, p, acc, nm);
        assert(forall|t: int|
            0 <= t < cs.drop_first().len() ==> #[trigger] cs.drop_first()[t] == cs[t + 1]);
        // Splice the head commit onto the tail's witness, in both directions.
        if contribs_from(cs, days, now, p, acc).contains(nm) && !acc.contains(nm) {
            if acc2.contains(nm) {
                assert(touches(cs[0], days, now, p) && cs[0].name == nm);
            } else {
                let t = choose|t: int|
                    0 <= t < cs.drop_first().len() && touches(
                        #[trigger] cs.drop_first()[t],
                        days,
                        now,
                        p,
                    ) && cs.drop_first()[t].name == nm;
                assert(touches(cs[t + 1], days, now, p) && cs[t + 1].name == nm);
            }
        }
        if exists|t: int|
            0 <= t < cs.len() && touches(#[trigger] cs[t], days, now, p) && cs[t].name == nm {
            let t = choose|t: int|
                0 <= t < cs.len() && touches(#[trigger] cs[t], days, now, p) && cs[t].name == nm;
            if t == 0 {
                assert(acc2.contains(nm));
                assert(contribs_from(cs.drop_first(), days, now, p, acc2).contains(nm));
            } else {
                assert(cs.drop_first()[t - 1] == cs[t]);
                assert(touches(cs.drop_first()[t - 1], days, now, p) && cs.drop_first()[t - 1].name
                    == nm);
                assert(contribs_from(cs.drop_first(), days, now, p, acc2).contains(nm));
            }
        }
    }
}

/// The contributor list never holds a name twice.
pub proof fn lemma_contribs_nodup(
    cs: Seq<CommitView>,
    days: int,
    now: int,
    p: Seq<char>,
    acc: Seq<Seq<char>>,
)
    requires
        forall|a: int, b: int| 0 <= a < b < acc.len() ==> acc[a] != acc[b],
    ensures
        forall|a: int, b: int|
            0 <= a < b < contribs_from(cs, days, now, p, acc).len() ==> contribs_from(
                cs,
                days,
                now,
                p,
                acc,
            )[a] != contribs_from(cs, days, now, p, acc)[b],
    decreases cs.len(),
{
    if cs.len() > 0 {
        let acc2 = contrib_step(cs[0], days, now, p, acc);
        assert(contribs_from(cs, days, now, p, acc) == contribs_from(
            cs.drop_first(),
            days,
            now,
            p,
            acc2,
        ));
        assert forall|a: int, b: int| 0 <= a < b < acc2.len() implies acc2[a] != acc2[b] by {
            if touches(cs[0], days, now, p) && !acc.contains(cs[0].name) {
                assert(acc2 == acc.push(cs[0].name));
                assert(forall|t: int| 0 <= t < acc.len() ==> #[trigger] acc2[t] == acc[t]);
                if b == acc.len() as int {
                    if acc2[a] == acc2[b] {
                        assert(acc[a] == cs[0].name);
                        assert(acc.contains(cs[0].name));
                    }
                }
            }
        }
        lemma_contribs_nodup(cs.drop_first(), days, now, p, acc2);
    }
}

/// A file record is correct for `cs`: its change count and contributor
/// list are exactly those of its path over the in-window commits.
pub open spec fn frec_ok(cs: Seq<CommitView>, days: int, now: int, fv: FileView) -> bool {
    &&& fv.changes == path_changes(cs, days, now, fv.path)
    &&& fv.changes > 0
    &&& fv.contributors == contributors_for(cs, days, now, fv.path)
}

/// Some record of `rs` stands for path `p`.
pub open spec fn path_represented(rs: Seq<FileStats>, p: Seq<char>) -> bool {
    exists|j: int| 0 <= j < rs.len() && (#[trigger] rs[j])@.path == p
}

/// The contributor list of path `p` after an in-window commit `c` has finished with
/// the path prefix `pfx` of its diff processed, starting from `base`.
pub open spec fn partial_contribs(
    c: CommitView,
    pfx: Seq<Seq<char>>,
    p: Seq<char>,
    base: Seq<Seq<char>>,
) -> Seq<Seq<char>> {
    if pfx.contains(p) && !base.contains(c.name) {
        base.push(c.name)
    } else {
        base
    }
}

/// A file record mid-commit: commit `i` is inside the window and the first
/// `j` entries of its path list have been folded in.
pub open spec fn frec_mid(cs: Seq<CommitView>, days: int, now: int, i: int, j: int, fv: FileView) -> bool {
    &&& fv.changes == path_changes(cs.take(i), days, now, fv.path) + occ(
        cs[i].paths.take(j),
        fv.path,
    )
    &&& fv.changes > 0
    &&& fv.contributors == partial_contribs(
        cs[i],
        cs[i].paths.take(j),
        fv.path,
        contributors_for(cs.take(i), days, now, fv.path),
    )
}
/// The change count accumulated so far never exceeds the total number of
/// path entries over the whole history.
pub proof fn lemma_file_bounds(cs: Seq<CommitView>, days: int, now: int, p: Seq<char>, i: int, j: int)
    requires
        0 <= i < cs.len(),
        0 <= j <= cs[i].paths.len(),
    ensures
        path_changes(cs.take(i), days, now, p) + occ(cs[i].paths.take(j), p) <= total_paths(cs),
{
    assert forall|t: int|
        0 <= t < cs.take(i).len() implies (if in_window(#[trigger] cs.take(i)[t], days, now) {
        occ(cs.take(i)[t].paths, p)
    } else {
        0nat
    }) <= cs.take(i)[t].paths.len() by {
        lemma_occ_le_len(cs.take(i)[t].paths, p);
    }
    lemma_sum_by_le(
        cs.take(i),
        |c: CommitView| if in_window(c, days, now) { occ(c.paths, p) } else { 0nat },
        |c: CommitView| c.paths.len(),
    );
    lemma_occ_le_len(cs[i].paths.take(j), p);
    assert(occ(cs[i].paths.take(j), p) <= j);
    assert(cs.take(i + 1) =~= cs.take(i).push(cs[i]));
    lemma_sum_by_push(cs.take(i), |c: CommitView| c.paths.len(), cs[i]);
    lemma_sum_by_take_le(cs, |c: CommitView| c.paths.len(), i + 1);
}

/// Appending one commit adds its own occurrence count of `p` to the change
/// count of `p`, and nothing when it is outside the window.
pub proof fn lemma_path_changes_push(
    cs: Seq<CommitView>,
    days: int,
    now: int,
    p: Seq<char>,
    c: CommitView,
)
    ensures
        path_changes(cs.push(c), days, now, p) == path_changes(cs, days, now, p) + (
        if in_window(c, days, now) {
            occ(c.paths, p)
        } else {
            0nat
        }),
{
    lemma_sum_by_push(
        cs,
        |c: CommitView| if in_window(c, days, now) { occ(c.paths, p) } else { 0nat },
        c,
    );
}

/// A path with a positive change count is touched by some in-window commit.
pub proof fn lemma_path_changes_pos(cs: Seq<CommitView>, days: int, now: int, p: Seq<char>)
    requires
        path_changes(cs, days, now, p) > 0,
    ensures
        exists|t: int| 0 <= t < cs.len() && touches(#[trigger] cs[t], days, now, p),
{
    lemma_sum_by_pos(
        cs,
        |c: CommitView| if in_window(c, days, now) { occ(c.paths, p) } else { 0nat },
    );
    let t = choose|t: int|
        0 <= t < cs.len() && (|c: CommitView| if in_window(c, days, now) {
            occ(c.paths, p)
        } else {
            0nat
        })(#[trigger] cs[t]) > 0;
    lemma_occ_pos(cs[t].paths, p);
    assert(touches(cs[t], days, now, p));
}

/// A path no in-window commit touches has no changes counted.
pub proof fn lemma_path_changes_zero(cs: Seq<CommitView>, days: int, now: int, p: Seq<char>)
    requires
        forall|t: int| 0 <= t < cs.len() ==> !touches(#[trigger] cs[t], days, now, p),
    ensures
        path_changes(cs, days, now, p) == 0,
{
    assert forall|t: int|
        0 <= t < cs.len() implies (if in_window(#[trigger] cs[t], days, now) {
        occ(cs[t].paths, p)
    } else {
        0nat
    }) == 0 by {
        if in_window(cs[t], days, now) {
            lemma_occ_pos(cs[t].paths, p);
        }
    }
    lemma_sum_by_zero(
        cs,
        |c: CommitView| if in_window(c, days, now) { occ(c.paths, p) } else { 0nat },
    );
}

/// Accumulate the in-window commits into one record per touched path.
fn accumulate_files(commits: &Vec<CommitData>, days: i64, now: i64) -> (acc: Vec<FileStats>)
    requires
        0 <= days,
        days * 86400 <= i64::MAX,
        i64::MIN <= now - days * 86400,
        total_paths(views(commits@)) <= usize::MAX,
    ensures
        forall|j: int|
            0 <= j < acc@.len() ==> frec_ok(
                views(commits@),
                days as int,
                now as int,
                #[trigger] acc@[j]@,
            ),
        forall|j1: int, j2: int|
            #![trigger acc@[j1], acc@[j2]]
            0 <= j1 < j2 < acc@.len() ==> acc@[j1]@.path != acc@[j2]@.path,
        forall|t: int, q: int|
            #![trigger views(commits@)[t].paths[q]]
            0 <= t < views(commits@).len() && in_window(
                views(commits@)[t],
                days as int,
                now as int,
            ) && 0 <= q < views(commits@)[t].paths.len() ==> path_represented(
                acc@,
                views(commits@)[t].paths[q],
            ),
{
    let ghost cs = views(commits@);
    let ghost d = days as int;
    let ghost n = now as int;
    let mut acc: Vec<FileStats> = Vec::new();
    let mut i: usize = 0;
    while i < commits.len()
        invariant
            0 <= i <= commits.len(),
            cs == views(commits@),
            d == days as int,
            n == now as int,
            0 <= days,
            days * 86400 <= i64::MAX,
            i64::MIN <= now - days * 86400,
            total_paths(cs) <= usize::MAX,
            forall|j: int|
                0 <= j < acc@.len() ==> frec_ok(cs.take(i as int), d, n, #[trigger] acc@[j]@),
            forall|j1: int, j2: int|
                #![trigger acc@[j1], acc@[j2]]
                0 <= j1 < j2 < acc@.len() ==> acc@[j1]@.path != acc@[j2]@.path,
            forall|t: int, q: int|
                #![trigger cs[t].paths[q]]
                0 <= t < i && in_window(cs[t], d, n) && 0 <= q < cs[t].paths.len()
                    ==> path_represented(acc@, cs[t].paths[q]),
        decreases commits.len() - i,
    {
        let c = &commits[i];
        let ghost cv = cs[i as int];
        proof {
            assert(cv == commits@[i as int]@);
        }
        if is_within_days(c.time, days, now) {
            let mut j: usize = 0;
            proof {
                assert(cv.paths.take(0) =~= Seq::<Seq<char>>::empty());
                assert forall|jj: int|
                    0 <= jj < acc@.len() implies frec_mid(cs, d, n, i as int, 0, #[trigger] acc@[jj]@) by {
                    let fv = acc@[jj]@;
                    assert(occ(cv.paths.take(0), fv.path) == 0);
                    assert(!cv.paths.take(0).contains(fv.path));
                }
            }
            while j < c.paths.len()
                invariant
                    0 <= i < commits.len(),
                    0 <= j <= c.paths.len(),
                    cs == views(commits@),
                    d == days as int,
                    n == now as int,
                    total_paths(cs) <= usize::MAX,
                    c == &commits@[i as int],
                    cv == cs[i as int],
                    in_window(cv, d, n),
                    cv.paths.len() == c.paths@.len(),
                    forall|jj: int|
                        0 <= jj < acc@.len() ==> frec_mid(cs, d, n, i as int, j as int, #[trigger] acc@[jj]@),
                    forall|j1: int, j2: int|
                        #![trigger acc@[j1], acc@[j2]]
                        0 <= j1 < j2 < acc@.len() ==> acc@[j1]@.path != acc@[j2]@.path,
                    forall|t: int, q: int|
                        #![trigger cs[t].paths[q]]
                        0 <= t < i && in_window(cs[t], d, n) && 0 <= q < cs[t].paths.len()
                            ==> path_represented(acc@, cs[t].paths[q]),
                    forall|q: int| 0 <= q < j ==> path_represented(acc@, cv.paths[q]),
                decreases c.paths@.len() - j,
            {
                let p = &c.paths[j];
                let ghost pv = cv.paths[j as int];
                proof {
                    assert(pv == c.paths@[j as int]@);
                    assert(cv.paths.take(j as int + 1) =~= cv.paths.take(j as int).push(pv));
                    lemma_occ_push(cv.paths.take(j as int), pv, pv);
                }
                // Linear search for the record with this path.
                let mut f: usize = 0;
                let mut found: bool = false;
                while f < acc.len() && !found
                    invariant
                        f <= acc@.len(),
                        p@ == pv,
                        !found ==> forall|t: int|
                            0 <= t < f ==> (#[trigger] acc@[t])@.path != pv,
                        found ==> f < acc@.len() && acc@[f as int]@.path == pv,
                    decreases (acc@.len() - f) * 2 + (if found { 0int } else { 1int }),
                {
                    if acc[f].path == *p {
                        found = true;
                    } else {
                        f += 1;
                    }
                }
                let ghost old_acc = acc@;
                if found {
                    proof {
                        lemma_file_bounds(cs, d, n, pv, i as int, j as int + 1);
                    }
                    let mut rec = acc.remove(f);
                    let ghost old_rec = rec@;
                    proof {
                        assert(frec_mid(cs, d, n, i as int, j as int, old_rec));
                        assert(old_rec.path == pv);
                    }
                    rec.changes = rec.changes + 1;
                    // Append the author name if it is not present yet.
                    let mut t: usize = 0;
                    let mut present: bool = false;
                    while t < rec.contributors.len() && !present
                        invariant
                            t <= rec.contributors@.len(),
                            rec.contributors.deep_view() == old_rec.contributors,
                            c == &commits@[i as int],
                            cv == cs[i as int],
                            c.name@ == cv.name,
                            !present ==> forall|u: int|
                                0 <= u < t ==> #[trigger] rec.contributors.deep_view()[u]
                                    != cv.name,
                            present ==> old_rec.contributors.contains(cv.name),
                        decreases (rec.contributors@.len() - t) * 2 + (if present { 0int } else { 1int }),
                    {
                        proof {
                            assert(rec.contributors.deep_view()[t as int]
                                == rec.contributors@[t as int]@);
                        }
                        if rec.contributors[t] == c.name {
                            proof {
                                assert(rec.contributors.deep_view()[t as int] == cv.name);
                                assert(old_rec.contributors[t as int] == cv.name);
                                assert(old_rec.contributors.contains(cv.name));
                            }
                            present = true;
                        } else {
                            t += 1;
                        }
                    }
                    proof {
                        if !present {
                            assert(forall|u: int|
                                0 <= u < old_rec.contributors.len()
                                    ==> #[trigger] old_rec.contributors[u] != cv.name);
                            assert(!old_rec.contributors.contains(cv.name));
                        }
                    }
                    if !present {
                        rec.contributors.push(c.name.clone());
                        proof {
                            assert(rec.contributors.deep_view() =~= old_rec.contributors.push(
                                cv.name,
                            ));
                        }
                    }
                    acc.push(rec);
                    proof {
                        let base = contributors_for(cs.take(i as int), d, n, pv);
                        let newv = acc@[acc@.len() - 1]@;
                        assert(newv.path == pv);
                        assert(cv.paths.take(j as int + 1).contains(pv)) by {
                            assert(cv.paths.take(j as int + 1)[j as int] == pv);
                        }
                        assert(old_rec.contributors == partial_contribs(
                            cv,
                            cv.paths.take(j as int),
                            pv,
                            base,
                        ));
                        if base.contains(cv.name) {
                            assert(old_rec.contributors == base);
                            assert(old_rec.contributors.contains(cv.name));
                        }
                        if !base.contains(cv.name) && cv.paths.take(j as int).contains(pv) {
                            assert(old_rec.contributors == base.push(cv.name));
                            assert(old_rec.contributors[base.len() as int] == cv.name);
                            assert(old_rec.contributors.contains(cv.name));
                        }
                        // The updated record is correct one path further in.
                        assert(frec_mid(cs, d, n, i as int, j as int + 1, newv)) by {
                            if present {
                                if !base.contains(cv.name) {
                                    if !cv.paths.take(j as int).contains(pv) {
                                        assert(old_rec.contributors == base);
                                        assert(false);
                                    }
                                    assert(newv.contributors == base.push(cv.name));
                                } else {
                                    assert(newv.contributors == base);
                                }
                            } else {
                                assert(!old_rec.contributors.contains(cv.name));
                                assert(!base.contains(cv.name));
                                assert(!cv.paths.take(j as int).contains(pv));
                                assert(old_rec.contributors == base);
                                assert(newv.contributors == base.push(cv.name));
                            }
                        }
                        // Records other than the updated one are untouched:
                        // this path entry is not theirs.
                        assert forall|jj: int|
                            0 <= jj < acc@.len() implies frec_mid(cs, d, n, i as int, j as int + 1, #[trigger] acc@[jj]@) by {
                            if jj < acc@.len() - 1 {
                                let prev = if jj < f as int {
                                    old_acc[jj]
                                } else {
                                    old_acc[jj + 1]
                                };
                                assert(acc@[jj] == prev);
                                let fv = prev@;
                                assert(frec_mid(cs, d, n, i as int, j as int, fv));
                                assert(fv.path != pv);
                                lemma_occ_push(cv.paths.take(j as int), fv.path, pv);
                                assert(cv.paths.take(j as int + 1).contains(fv.path)
                                    == cv.paths.take(j as int).contains(fv.path)) by {
                                    if cv.paths.take(j as int + 1).contains(fv.path) {
                                        let u = choose|u: int|
                                            0 <= u < cv.paths.take(j as int + 1).len()
                                                && #[trigger] cv.paths.take(j as int + 1)[u]
                                                == fv.path;
                                        if u < j as int {
                                            assert(cv.paths.take(j as int)[u] == fv.path);
                                        }
                                    } else {
                                        if cv.paths.take(j as int).contains(fv.path) {
                                            let u = choose|u: int|
                                                0 <= u < cv.paths.take(j as int).len()
                                                    && #[trigger] cv.paths.take(j as int)[u]
                                                    == fv.path;
                                            assert(cv.paths.take(j as int + 1)[u] == fv.path);
                                        }
                                    }
                                }
                            }
                        }
                        // Distinct paths and path representation carry over
                        // across the remove-and-push reshuffle.
                        assert forall|j1: int, j2: int|
                            #![trigger acc@[j1], acc@[j2]]
                            0 <= j1 < j2 < acc@.len() implies acc@[j1]@.path != acc@[j2]@.path by {
                            if j2 == acc@.len() - 1 {
                                assert(acc@[j1] == (if j1 < f as int {
                                    old_acc[j1]
                                } else {
                                    old_acc[j1 + 1]
                                }));
                                assert(acc@[j2]@.path == old_acc[f as int]@.path);
                            } else {
                                assert(acc@[j1] == (if j1 < f as int {
                                    old_acc[j1]
                                } else {
                                    old_acc[j1 + 1]
                                }));
                                assert(acc@[j2] == (if j2 < f as int {
                                    old_acc[j2]
                                } else {
                                    old_acc[j2 + 1]
                                }));
                            }
                        }
                        assert forall|pq: Seq<char>| path_represented(old_acc, pq) implies
                            path_represented(acc@, pq) by {
                            let jj = choose|jj: int|
                                0 <= jj < old_acc.len() && (#[trigger] old_acc[jj])@.path == pq;
                            if jj == f as int {
                                assert(acc@[acc@.len() - 1]@.path == pq);
                            } else if jj < f as int {
                                assert(acc@[jj]@.path == pq);
                            } else {
                                assert(acc@[jj - 1]@.path == pq);
                            }
                        }
                        assert(path_represented(acc@, pv)) by {
                            assert(acc@[acc@.len() - 1]@.path == pv);
                        }
                    }
                } else {
                    proof {
                        // The path is new: nothing was counted for it yet.
                        assert forall|t: int|
                            0 <= t < cs.take(i as int).len() implies !touches(
                            #[trigger] cs.take(i as int)[t],
                            d,
                            n,
                            pv,
                        ) by {
                            if touches(cs.take(i as int)[t], d, n, pv) {
                                assert(cs.take(i as int)[t] == cs[t]);
                                let q = choose|q: int|
                                    0 <= q < cs[t].paths.len() && #[trigger] cs[t].paths[q] == pv;
                                assert(path_represented(old_acc, cs[t].paths[q]));
                                let jj = choose|jj: int|
                                    0 <= jj < old_acc.len() && (#[trigger] old_acc[jj])@.path
                                        == pv;
                                assert(false);
                            }
                        }
                        lemma_path_changes_zero(cs.take(i as int), d, n, pv);
                        // Occurrence count zero over the processed prefix.
                        assert(occ(cv.paths.take(j as int), pv) == 0) by {
                            lemma_occ_pos(cv.paths.take(j as int), pv);
                            if cv.paths.take(j as int).contains(pv) {
                                let u = choose|u: int|
                                    0 <= u < cv.paths.take(j as int).len()
                                        && #[trigger] cv.paths.take(j as int)[u] == pv;
                                assert(cv.paths[u] == pv);
                                assert(path_represented(old_acc, cv.paths[u]));
                                let jj = choose|jj: int|
                                    0 <= jj < old_acc.len() && (#[trigger] old_acc[jj])@.path
                                        == pv;
                                assert(false);
                            }
                        }
                        lemma_contribs_no_touch(cs.take(i as int), d, n, pv, Seq::empty());
                    }
                    let mut names: Vec<String> = Vec::new();
                    names.push(c.name.clone());
                    let rec = FileStats { path: p.clone(), changes: 1, contributors: names };
                    acc.push(rec);
                    proof {
                        let newv = acc@[acc@.len() - 1]@;
                        assert(newv.path == pv);
                        assert(newv.contributors =~= Seq::<Seq<char>>::empty().push(cv.name));
                        assert(frec_mid(cs, d, n, i as int, j as int + 1, newv)) by {
                            assert(cv.paths.take(j as int + 1)[j as int] == pv);
                            assert(cv.paths.take(j as int + 1).contains(pv));
                            assert(!Seq::<Seq<char>>::empty().contains(cv.name));
                        }
                        assert forall|jj: int|
                            0 <= jj < acc@.len() implies frec_mid(cs, d, n, i as int, j as int + 1, #[trigger] acc@[jj]@) by {
                            if jj < acc@.len() - 1 {
                                assert(acc@[jj] == old_acc[jj]);
                                let fv = acc@[jj]@;
                                assert(frec_mid(cs, d, n, i as int, j as int, fv));
                                assert(fv.path != pv);
                                lemma_occ_push(cv.paths.take(j as int), fv.path, pv);
                                assert(cv.paths.take(j as int + 1).contains(fv.path)
                                    == cv.paths.take(j as int).contains(fv.path)) by {
                                    if cv.paths.take(j as int + 1).contains(fv.path) {
                                        let u = choose|u: int|
                                            0 <= u < cv.paths.take(j as int + 1).len()
                                                && #[trigger] cv.paths.take(j as int + 1)[u]
                                                == fv.path;
                                        if u < j as int {
                                            assert(cv.paths.take(j as int)[u] == fv.path);
                                        }
                                    } else {
                                        if cv.paths.take(j as int).contains(fv.path) {
                                            let u = choose|u: int|
                                                0 <= u < cv.paths.take(j as int).len()
                                                    && #[trigger] cv.paths.take(j as int)[u]
                                                    == fv.path;
                                            assert(cv.paths.take(j as int + 1)[u] == fv.path);
                                        }
                                    }
                                }
                            }
                        }
                        assert forall|j1: int, j2: int|
                            #![trigger acc@[j1], acc@[j2]]
                            0 <= j1 < j2 < acc@.len() implies acc@[j1]@.path != acc@[j2]@.path by {
                            if j2 < acc@.len() - 1 {
                                assert(acc@[j1] == old_acc[j1]);
                                assert(acc@[j2] == old_acc[j2]);
                            } else {
                                assert(acc@[j1] == old_acc[j1]);
                                assert(acc@[j2]@.path == pv);
                                assert(old_acc[j1]@.path != pv);
                            }
                        }
                        assert forall|pq: Seq<char>| path_represented(old_acc, pq) implies
                            path_represented(acc@, pq) by {
                            let jj = choose|jj: int|
                                0 <= jj < old_acc.len() && (#[trigger] old_acc[jj])@.path == pq;
                            assert(acc@[jj]@.path == pq);
                        }
                        assert(path_represented(acc@, pv)) by {
                            assert(acc@[acc@.len() - 1]@.path == pv);
                        }
                    }
                }
                j += 1;
            }
            proof {
                // End of this commit: the partial state is exactly the state
                // after the whole commit.
                assert(cv.paths.take(j as int) =~= cv.paths);
                assert(cs.take(i as int + 1) =~= cs.take(i as int).push(cv));
                assert forall|jj: int|
                    0 <= jj < acc@.len() implies frec_ok(cs.take(i as int + 1), d, n, #[trigger] acc@[jj]@) by {
                    let fv = acc@[jj]@;
                    assert(frec_mid(cs, d, n, i as int, j as int, fv));
                    lemma_path_changes_push(cs.take(i as int), d, n, fv.path, cv);
                    lemma_contribs_push(cs.take(i as int), d, n, fv.path, Seq::empty(), cv);
                }
            }
        } else {
            proof {
                assert(cs.take(i as int + 1) =~= cs.take(i as int).push(cv));
                assert(!in_window(cv, d, n));
                assert forall|jj: int|
                    0 <= jj < acc@.len() implies frec_ok(cs.take(i as int + 1), d, n, #[trigger] acc@[jj]@) by {
                    let fv = acc@[jj]@;
                    assert(frec_ok(cs.take(i as int), d, n, fv));
                    lemma_path_changes_push(cs.take(i as int), d, n, fv.path, cv);
                    lemma_contribs_push(cs.take(i as int), d, n, fv.path, Seq::empty(), cv);
                }
            }
        }
        i += 1;
    }
    proof {
        assert(cs.take(commits@.len() as int) =~= cs);
    }
    acc
}

/// How many records of `rs` stand for path `p`.
pub open spec fn path_count(rs: Seq<FileView>, p: Seq<char>) -> nat {
    sum_by(rs, |fv: FileView| if fv.path == p { 1nat } else { 0nat })
}

/// Sort records by change count, descending. The relative order of records
/// with equal counts is unspecified, as the ranking of the aggregate is.
fn sort_by_changes_desc(input: Vec<FileStats>) -> (r: Vec<FileStats>)
    ensures
        fviews(r@).to_multiset() == fviews(input@).to_multiset(),
        forall|i: int, j: int|
            #![trigger r@[i], r@[j]]
            0 <= i <= j < r@.len() ==> r@[i]@.changes >= r@[j]@.changes,
{
    broadcast use vstd::seq_lib::group_to_multiset_ensures;
    broadcast use vstd::multiset::group_multiset_axioms;

    let ghost orig = input@;
    let mut rest = input;
    let mut out: Vec<FileStats> = Vec::new();
    while rest.len() > 0
        invariant
            fviews(orig).to_multiset() == fviews(out@).to_multiset().add(
                fviews(rest@).to_multiset(),
            ),
            forall|i: int, j: int|
                #![trigger out@[i], out@[j]]
                0 <= i <= j < out@.len() ==> out@[i]@.changes >= out@[j]@.changes,
            forall|i: int, j: int|
                #![trigger out@[i], rest@[j]]
                0 <= i < out@.len() && 0 <= j < rest@.len() ==> out@[i]@.changes
                    >= rest@[j]@.changes,
        decreases rest@.len(),
    {
        broadcast use vstd::seq_lib::group_to_multiset_ensures;
        broadcast use vstd::multiset::group_multiset_axioms;

        // Find the index of a record with the largest change count.
        let mut mi: usize = 0;
        let mut t: usize = 1;
        while t < rest.len()
            invariant
                0 < rest@.len(),
                mi < rest@.len(),
                t <= rest@.len(),
                forall|u: int|
                    0 <= u < t && u < rest@.len() ==> rest@[mi as int]@.changes
                        >= (#[trigger] rest@[u])@.changes,
            decreases rest@.len() - t,
        {
            if rest[t].changes > rest[mi].changes {
                mi = t;
            }
            t += 1;
        }
        let ghost old_rest = rest@;
        let ghost old_out = out@;
        let x = rest.remove(mi);
        out.push(x);
        proof {
            assert(fviews(old_rest.remove(mi as int)) =~= fviews(old_rest).remove(mi as int));
            assert(fviews(old_out.push(x)) =~= fviews(old_out).push(x@));
            assert(fviews(old_rest)[mi as int] == x@);
            assert(fviews(old_rest).contains(x@));
            assert(fviews(rest@).to_multiset() == fviews(old_rest).to_multiset().remove(x@));
            assert(fviews(out@).to_multiset() == fviews(old_out).to_multiset().insert(x@));
            assert(fviews(out@).to_multiset().add(fviews(rest@).to_multiset())
                =~= fviews(old_out).to_multiset().add(fviews(old_rest).to_multiset()));
            // The removed record had the largest count among the rest.
            assert(forall|j: int|
                0 <= j < rest@.len() ==> x@.changes >= (#[trigger] rest@[j])@.changes) by {
                assert(forall|j: int|
                    0 <= j < rest@.len() ==> #[trigger] rest@[j] == (if j < mi as int {
                        old_rest[j]
                    } else {
                        old_rest[j + 1]
                    }));
            }
        }
    }
    out
}

/// Aggregate the in-window commits into one record per touched path,
/// ranked by change count, descending.
///
/// Every record's change count and first-seen contributor list are exactly
/// those of its path over the given commits; every path touched inside the
/// window is represented by exactly one record, and no other record occurs.
pub fn analyze_file_changes(commits: &Vec<CommitData>, days: i64, now: i64) -> (r: Vec<FileStats>)
    requires
        0 <= days,
        days * 86400 <= i64::MAX,
        i64::MIN <= now - days * 86400,
        total_paths(views(commits@)) <= usize::MAX,
    ensures
        forall|j: int|
            0 <= j < r@.len() ==> frec_ok(
                views(commits@),
                days as int,
                now as int,
                #[trigger] r@[j]@,
            ),
        forall|p: Seq<char>|
            #[trigger] path_count(fviews(r@), p) == (if path_changes(
                views(commits@),
                days as int,
                now as int,
                p,
            ) > 0 {
                1nat
            } else {
                0nat
            }),
        forall|i: int, j: int|
            #![trigger r@[i], r@[j]]
            0 <= i <= j < r@.len() ==> r@[i]@.changes >= r@[j]@.changes,
{
    let ghost cs = views(commits@);
    let ghost d = days as int;
    let ghost n = now as int;
    let acc = accumulate_files(commits, days, now);
    let ghost accv = acc@;
    let r = sort_by_changes_desc(acc);
    proof {
        broadcast use vstd::seq_lib::group_to_multiset_ensures;

        // Per-record correctness carries over to any permutation.
        let pr = |fv: FileView| frec_ok(cs, d, n, fv);
        assert forall|i: int| 0 <= i < fviews(accv).len() implies #[trigger] pr(fviews(accv)[i]) by {
            assert(fviews(accv)[i] == accv[i]@);
            assert(frec_ok(cs, d, n, accv[i]@));
        }
        lemma_permutation_pointwise(fviews(accv), fviews(r@), pr);
        assert forall|j: int| 0 <= j < r@.len() implies frec_ok(cs, d, n, #[trigger] r@[j]@) by {
            assert(pr(fviews(r@)[j]));
            assert(fviews(r@)[j] == r@[j]@);
        }
        // Exactly one record per touched path, none otherwise.
        assert forall|p: Seq<char>| #[trigger] path_count(fviews(r@), p) == (if path_changes(
            cs,
            d,
            n,
            p,
        ) > 0 {
            1nat
        } else {
            0nat
        }) by {
            lemma_sum_by_permutation(
                fviews(r@),
                fviews(accv),
                |fv: FileView| if fv.path == p { 1nat } else { 0nat },
            );
            if path_changes(cs, d, n, p) > 0 {
                lemma_path_changes_pos(cs, d, n, p);
                let t = choose|t: int| 0 <= t < cs.len() && touches(#[trigger] cs[t], d, n, p);
                let q = choose|q: int| 0 <= q < cs[t].paths.len() && #[trigger] cs[t].paths[q] == p;
                assert(path_represented(accv, cs[t].paths[q]));
                let j = choose|j: int| 0 <= j < accv.len() && (#[trigger] accv[j])@.path == p;
                assert(forall|j2: int|
                    0 <= j2 < accv.len() && j2 != j ==> (#[trigger] accv[j2])@.path != p);
                lemma_sum_by_single(
                    fviews(accv),
                    |fv: FileView| if fv.path == p { 1nat } else { 0nat },
                    j,
                );
            } else {
                assert(forall|j: int|
                    0 <= j < accv.len() ==> (#[trigger] accv[j])@.path != p) by {
                    assert(forall|j: int|
                        0 <= j < accv.len() ==> frec_ok(cs, d, n, (#[trigger] accv[j])@));
                }
                lemma_sum_by_zero(
                    fviews(accv),
                    |fv: FileView| if fv.path == p { 1nat } else { 0nat },
                );
            }
        }
    }
    r
}

/// Commutativity of the per-path change count: however the commits of one
/// pass are ordered, each path's count comes out the same.
pub proof fn lemma_file_changes_permutation(
    s1: Seq<CommitView>,
    s2: Seq<CommitView>,
    days: int,
    now: int,
    p: Seq<char>,
)
    requires
        s1.to_multiset() == s2.to_multiset(),
    ensures
        path_changes(s1, days, now, p) == path_changes(s2, days, now, p),
{
    lemma_sum_by_permutation(
        s1,
        s2,
        |c: CommitView| if in_window(c, days, now) { occ(c.paths, p) } else { 0nat },
    );
}

/// Commutativity of the contributor list of a path, up to order: however
/// the commits of one pass are ordered, the same set of names is collected.
/// Only the first-seen order of the list may differ.
pub proof fn lemma_file_contributors_permutation(
    s1: Seq<CommitView>,
    s2: Seq<CommitView>,
    days: int,
    now: int,
    p: Seq<char>,
    nm: Seq<char>,
)
    requires
        s1.to_multiset() == s2.to_multiset(),
    ensures
        contributors_for(s1, days, now, p).contains(nm) <==> contributors_for(
            s2,
            days,
            now,
            p,
        ).contains(nm),
{
    broadcast use vstd::seq_lib::group_to_multiset_ensures;

    lemma_contribs_membership(s1, days, now, p, Seq::empty(), nm);
    lemma_contribs_membership(s2, days, now, p, Seq::empty(), nm);
    if exists|t: int| 0 <= t < s1.len() && touches(#[trigger] s1[t], days, now, p) && s1[t].name
        == nm {
        let t = choose|t: int|
            0 <= t < s1.len() && touches(#[trigger] s1[t], days, now, p) && s1[t].name == nm;
        assert(s1.contains(s1[t]));
        assert(s2.to_multiset().count(s1[t]) > 0);
        assert(s2.contains(s1[t]));
        let u = choose|u: int| 0 <= u < s2.len() && s2[u] == s1[t];
        assert(touches(s2[u], days, now, p) && s2[u].name == nm);
    }
    if exists|t: int| 0 <= t < s2.len() && touches(#[trigger] s2[t], days, now, p) && s2[t].name
        == nm {
        let t = choose|t: int|
            0 <= t < s2.len() && touches(#[trigger] s2[t], days, now, p) && s2[t].name == nm;
        assert(s2.contains(s2[t]));
        assert(s1.to_multiset().count(s2[t]) > 0);
        assert(s1.contains(s2[t]));
        let u = choose|u: int| 0 <= u < s1.len() && s1[u] == s2[t];
        assert(touches(s1[u], days, now, p) && s1[u].name == nm);
    }
}

/// The contributor list of a path never names an author twice.
pub proof fn lemma_contributors_distinct(cs: Seq<CommitView>, days: int, now: int, p: Seq<char>)
    ensures
        forall|a: int, b: int|
            0 <= a < b < contributors_for(cs, days, now, p).len() ==> contributors_for(
                cs,
                days,
                now,
                p,
            )[a] != contributors_for(cs, days, now, p)[b],
{
    lemma_contribs_nodup(cs, days, now, p, Seq::empty());
}

} // verus!
