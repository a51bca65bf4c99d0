//! The contributor aggregator: group the commits inside the time window by
//! author identity key, accumulate commit, line and file counts per key, and
//! rank the records by commit count, descending.

use vstd::prelude::*;
use crate::commit::{commit_key, in_window, key_of, make_key, views, CommitData, CommitView};
use crate::seqsum::{sum_by, lemma_sum_by_push, lemma_sum_by_le, lemma_sum_by_take_le, lemma_sum_by_zero, lemma_sum_by_bounded_one, lemma_sum_by_permutation, lemma_sum_by_pos, lemma_sum_by_single, lemma_permutation_pointwise};
use crate::window::is_within_days;

verus! {

/// Accumulated activity of one contributor identity.
#[derive(Debug, Clone)]
pub struct ContributorStats {
    /// Display name, taken from the first counted commit with this key.
    pub name: String,
    /// Email, taken from the first counted commit with this key.
    pub email: String,
    /// Number of commits with this identity key inside the window.
    pub commits: usize,
    /// Cumulative insertions over those commits.
    pub additions: usize,
    /// Cumulative deletions over those commits.
    pub deletions: usize,
    /// Cumulative files-changed count over those commits (a sum across
    /// commits, not a count of distinct files).
    pub files_changed: usize,
}

/// The mathematical shadow of a `ContributorStats`.
pub struct ContributorView {
    pub name: Seq<char>,
    pub email: Seq<char>,
    pub commits: nat,
    pub additions: nat,
    pub deletions: nat,
    pub files_changed: nat,
}

impl View for ContributorStats {
    type V = ContributorView;

    open spec fn view(&self) -> ContributorView {
        ContributorView {
            name: self.name@,
            email: self.email@,
            commits: self.commits as nat,
            additions: self.additions as nat,
            deletions: self.deletions as nat,
            files_changed: self.files_changed as nat,
        }
    }
}

/// The identity key a record stands for.
pub open spec fn rec_key(rv: ContributorView) -> Seq<char> {
    key_of(rv.name, rv.email)
}

/// Whether a commit is counted under key `k`: inside the window and keyed `k`.
pub open spec fn commit_matches(c: CommitView, days: int, now: int, k: Seq<char>) -> bool {
    in_window(c, days, now) && commit_key(c) == k
}

/// How many commits of `cs` are counted under key `k`.
pub open spec fn commits_for(cs: Seq<CommitView>, days: int, now: int, k: Seq<char>) -> nat {
    sum_by(cs, |c: CommitView| if commit_matches(c, days, now, k) { 1nat } else { 0nat })
}

/// Total insertions of the commits counted under key `k`.
pub open spec fn additions_for(cs: Seq<CommitView>, days: int, now: int, k: Seq<char>) -> nat {
    sum_by(cs, |c: CommitView| if commit_matches(c, days, now, k) { c.insertions } else { 0nat })
}

/// Total deletions of the commits counted under key `k`.
pub open spec fn deletions_for(cs: Seq<CommitView>, days: int, now: int, k: Seq<char>) -> nat {
    sum_by(cs, |c: CommitView| if commit_matches(c, days, now, k) { c.deletions } else { 0nat })
}

/// Total files-changed count of the commits counted under key `k`.
pub open spec fn files_for(cs: Seq<CommitView>, days: int, now: int, k: Seq<char>) -> nat {
    sum_by(cs, |c: CommitView| if commit_matches(c, days, now, k) { c.files_changed } else { 0nat })
}

/// Insertions summed over all commits, window or not: an upper bound for
/// every per-key total.
pub open spec fn total_insertions(cs: Seq<CommitView>) -> nat {
    sum_by(cs, |c: CommitView| c.insertions)
}

pub open spec fn total_deletions(cs: Seq<CommitView>) -> nat {
    sum_by(cs, |c: CommitView| c.deletions)
}

pub open spec fn total_files(cs: Seq<CommitView>) -> nat {
    sum_by(cs, |c: CommitView| c.files_changed)
}

/// `name` and `email` are those of the first commit of `cs` counted under
/// key `k`.
pub open spec fn is_first_author(
    cs: Seq<CommitView>,
    days: int,
    now: int,
    k: Seq<char>,
    name: Seq<char>,
    email: Seq<char>,
) -> bool {
    exists|ix: int|
        0 <= ix < cs.len() && #[trigger] commit_matches(cs[ix], days, now, k) && cs[ix].name == name
            && cs[ix].email == email && (forall|jx: int|
            0 <= jx < ix ==> !commit_matches(#[trigger] cs[jx], days, now, k))
}

/// A record is correct for `cs`: its counts are exactly the per-key totals,
/// its key occurs, and its name and email come from the first counted
/// commit with its key.
pub open spec fn rec_ok(cs: Seq<CommitView>, days: int, now: int, rv: ContributorView) -> bool {
    let k = rec_key(rv);
    &&& rv.commits == commits_for(cs, days, now, k)
    &&& rv.commits > 0
    &&& rv.additions == additions_for(cs, days, now, k)
    &&& rv.deletions == deletions_for(cs, days, now, k)
    &&& rv.files_changed == files_for(cs, days, now, k)
    &&& is_first_author(cs, days, now, k, rv.name, rv.email)
}

/// Some record of `rs` stands for key `k`.
pub open spec fn key_represented(rs: Seq<ContributorStats>, k: Seq<char>) -> bool {
    exists|j: int| 0 <= j < rs.len() && rec_key(#[trigger] rs[j]@) == k
}

/// Appending one commit changes each per-key total by that commit's own
/// contribution, and only under its own key.
pub proof fn lemma_agg_push(cs: Seq<CommitView>, days: int, now: int, k: Seq<char>, c: CommitView)
    ensures
        commits_for(cs.push(c), days, now, k) == commits_for(cs, days, now, k) + (
        if commit_matches(c, days, now, k) {
            1nat
        } else {
            0nat
        }),
        additions_for(cs.push(c), days, now, k) == additions_for(cs, days, now, k) + (
        if commit_matches(c, days, now, k) {
            c.insertions
        } else {
            0nat
        }),
        deletions_for(cs.push(c), days, now, k) == deletions_for(cs, days, now, k) + (
        if commit_matches(c, days, now, k) {
            c.deletions
        } else {
            0nat
        }),
        files_for(cs.push(c), days, now, k) == files_for(cs, days, now, k) + (
        if commit_matches(c, days, now, k) {
            c.files_changed
        } else {
            0nat
        }),
{
    lemma_sum_by_push(
        cs,
        |c: CommitView| if commit_matches(c, days, now, k) { 1nat } else { 0nat },
        c,
    );
    lemma_sum_by_push(
        cs,
        |c: CommitView| if commit_matches(c, days, now, k) { c.insertions } else { 0nat },
        c,
    );
    lemma_sum_by_push(
        cs,
        |c: CommitView| if commit_matches(c, days, now, k) { c.deletions } else { 0nat },
        c,
    );
    lemma_sum_by_push(
        cs,
        |c: CommitView| if commit_matches(c, days, now, k) { c.files_changed } else { 0nat },
        c,
    );
}

/// Per-key totals over a prefix stay below the totals over the whole
/// history, and the per-key commit count stays below the prefix length.
pub proof fn lemma_agg_bounds(cs: Seq<CommitView>, days: int, now: int, k: Seq<char>, i: int)
    requires
        0 <= i <= cs.len(),
    ensures
        additions_for(cs.take(i), days, now, k) <= total_insertions(cs),
        deletions_for(cs.take(i), days, now, k) <= total_deletions(cs),
        files_for(cs.take(i), days, now, k) <= total_files(cs),
        commits_for(cs.take(i), days, now, k) <= i,
{
    let t = cs.take(i);
    lemma_sum_by_le(
        t,
        |c: CommitView| if commit_matches(c, days, now, k) { c.insertions } else { 0nat },
        |c: CommitView| c.insertions,
    );
    lemma_sum_by_take_le(cs, |c: CommitView| c.insertions, i);
    lemma_sum_by_le(
        t,
        |c: CommitView| if commit_matches(c, days, now, k) { c.deletions } else { 0nat },
        |c: CommitView| c.deletions,
    );
    lemma_sum_by_take_le(cs, |c: CommitView| c.deletions, i);
    lemma_sum_by_le(
        t,
        |c: CommitView| if commit_matches(c, days, now, k) { c.files_changed } else { 0nat },
        |c: CommitView| c.files_changed,
    );
    lemma_sum_by_take_le(cs, |c: CommitView| c.files_changed, i);
    lemma_sum_by_bounded_one(
        t,
        |c: CommitView| if commit_matches(c, days, now, k) { 1nat } else { 0nat },
    );
}

/// A first-counted author stays the first when later commits are appended.
pub proof fn lemma_first_author_extend(
    cs: Seq<CommitView>,
    days: int,
    now: int,
    k: Seq<char>,
    name: Seq<char>,
    email: Seq<char>,
    c: CommitView,
)
    requires
        is_first_author(cs, days, now, k, name, email),
    ensures
        is_first_author(cs.push(c), days, now, k, name, email),
{
    let ix = choose|ix: int|
        0 <= ix < cs.len() && #[trigger] commit_matches(cs[ix], days, now, k) && cs[ix].name == name
            && cs[ix].email == email && (forall|jx: int|
            0 <= jx < ix ==> !commit_matches(#[trigger] cs[jx], days, now, k));
    assert(cs.push(c)[ix] == cs[ix]);
    assert(forall|jx: int| 0 <= jx < ix ==> cs.push(c)[jx] == cs[jx]);
    assert(commit_matches(cs.push(c)[ix], days, now, k));
}

/// Accumulate the in-window commits into one record per identity key.
fn accumulate(commits: &Vec<CommitData>, days: i64, now: i64) -> (acc: Vec<ContributorStats>)
    requires
        0 <= days,
        days * 86400 <= i64::MAX,
        i64::MIN <= now - days * 86400,
        total_insertions(views(commits@)) <= usize::MAX,
        total_deletions(views(commits@)) <= usize::MAX,
        total_files(views(commits@)) <= usize::MAX,
    ensures
        forall|j: int|
            0 <= j < acc@.len() ==> rec_ok(
                views(commits@),
                days as int,
                now as int,
                #[trigger] acc@[j]@,
            ),
        forall|j1: int, j2: int|
            #![trigger acc@[j1], acc@[j2]]
            0 <= j1 < j2 < acc@.len() ==> rec_key(acc@[j1]@) != rec_key(acc@[j2]@),
        forall|t: int|
            0 <= t < views(commits@).len() && in_window(
                #[trigger] views(commits@)[t],
                days as int,
                now as int,
            ) ==> key_represented(acc@, commit_key(views(commits@)[t])),
{
    let ghost cs = views(commits@);
    let ghost d = days as int;
    let ghost n = now as int;
    let mut acc: Vec<ContributorStats> = Vec::new();
    let mut i: usize = 0;
    while i < commits.len()
        invariant
            0 <= i <= commits.len(),
            cs == views(commits@),
            d == days as int,
            n == now as int,
            0 <= days,
            days * 86400 <= i64::MAX,
            i64::MIN <= now - days * 86400,
            total_insertions(cs) <= usize::MAX,
            total_deletions(cs) <= usize::MAX,
            total_files(cs) <= usize::MAX,
            forall|j: int|
                0 <= j < acc@.len() ==> rec_ok(cs.take(i as int), d, n, #[trigger] acc@[j]@),
            forall|j1: int, j2: int|
                #![trigger acc@[j1], acc@[j2]]
                0 <= j1 < j2 < acc@.len() ==> rec_key(acc@[j1]@) != rec_key(acc@[j2]@),
            forall|t: int|
                0 <= t < i && in_window(#[trigger] cs[t], d, n) ==> key_represented(
                    acc@,
                    commit_key(cs[t]),
                ),
        decreases commits.len() - i,
    {
        let c = &commits[i];
        let ghost cv = cs[i as int];
        proof {
            assert(cv == commits@[i as int]@);
        }
        if is_within_days(c.time, days, now) {
            let key = make_key(&c.name, &c.email);
            proof {
                assert(commit_key(cv) == key@);
            }
            // Linear search for the record with this key.
            let mut j: usize = 0;
            let mut found: bool = false;
            while j < acc.len() && !found
                invariant
                    j <= acc@.len(),
                    !found ==> forall|t: int|
                        0 <= t < j ==> rec_key(#[trigger] acc@[t]@) != key@,
                    found ==> j < acc@.len() && rec_key(acc@[j as int]@) == key@,
                decreases (acc@.len() - j) * 2 + (if found { 0int } else { 1int }),
            {
                let rk = make_key(&acc[j].name, &acc[j].email);
                if rk == key {
                    found = true;
                } else {
                    j += 1;
                }
            }
            let ghost old_acc = acc@;
            let ghost prefix = cs.take(i as int);
            let ghost stepped = cs.take(i as int + 1);
            proof {
                assert(stepped =~= prefix.push(cv));
            }
            if found {
                let ghost k = key@;
                proof {
                    assert(rec_key(old_acc[j as int]@) == k);
                    assert(rec_ok(prefix, d, n, old_acc[j as int]@));
                    lemma_agg_push(prefix, d, n, k, cv);
                    lemma_agg_bounds(cs, d, n, k, i as int + 1);
                    lemma_sum_by_bounded_one(
                        stepped,
                        |c: CommitView| if commit_matches(c, d, n, k) { 1nat } else { 0nat },
                    );
                }
                let commits_new = acc[j].commits + 1;
                let additions_new = acc[j].additions + c.insertions;
                let deletions_new = acc[j].deletions + c.deletions;
                let files_new = acc[j].files_changed + c.files_changed;
                let name_new = acc[j].name.clone();
                let email_new = acc[j].email.clone();
                acc[j] = ContributorStats {
                    name: name_new,
                    email: email_new,
                    commits: commits_new,
                    additions: additions_new,
                    deletions: deletions_new,
                    files_changed: files_new,
                };
                proof {
                    let k2 = k;
                    assert(acc@ == old_acc.update(j as int, acc@[j as int]));
                    // Updated record is correct for the extended prefix.
                    assert(rec_ok(stepped, d, n, acc@[j as int]@)) by {
                        lemma_agg_push(prefix, d, n, k2, cv);
                        lemma_first_author_extend(
                            prefix,
                            d,
                            n,
                            k2,
                            old_acc[j as int]@.name,
                            old_acc[j as int]@.email,
                            cv,
                        );
                    }
                    // Untouched records keep their totals: the new commit is
                    // not counted under their keys.
                    assert forall|jj: int|
                        0 <= jj < acc@.len() implies rec_ok(stepped, d, n, #[trigger] acc@[jj]@) by {
                        if jj != j as int {
                            let kj = rec_key(acc@[jj]@);
                            assert(acc@[jj] == old_acc[jj]);
                            assert(rec_ok(prefix, d, n, acc@[jj]@));
                            assert(kj != k2);
                            assert(!commit_matches(cv, d, n, kj));
                            lemma_agg_push(prefix, d, n, kj, cv);
                            lemma_first_author_extend(
                                prefix,
                                d,
                                n,
                                kj,
                                acc@[jj]@.name,
                                acc@[jj]@.email,
                                cv,
                            );
                        }
                    }
                    // Every in-window commit of the extended prefix has a record.
                    assert forall|t: int|
                        0 <= t < i as int + 1 && in_window(#[trigger] cs[t], d, n) implies
                        key_represented(acc@, commit_key(cs[t])) by {
                        if t < i as int {
                            let jj = choose|jj: int|
                                0 <= jj < old_acc.len() && rec_key(#[trigger] old_acc[jj]@)
                                    == commit_key(cs[t]);
                            assert(rec_key(acc@[jj]@) == commit_key(cs[t]));
                        } else {
                            assert(rec_key(acc@[j as int]@) == commit_key(cs[t]));
                        }
                    }
                }
            } else {
                let ghost k = key@;
                proof {
                    // No record holds this key, so no earlier in-window
                    // commit does either, and every prefix total for it is 0.
                    assert forall|jx: int|
                        0 <= jx < i as int implies !commit_matches(#[trigger] cs[jx], d, n, k) by {
                        if in_window(cs[jx], d, n) && commit_key(cs[jx]) == k {
                            assert(key_represented(old_acc, k));
                            let jj = choose|jj: int|
                                0 <= jj < old_acc.len() && rec_key(#[trigger] old_acc[jj]@) == k;
                            assert(false);
                        }
                    }
                    assert(forall|jx: int|
                        0 <= jx < prefix.len() ==> !commit_matches(#[trigger] prefix[jx], d, n, k));
                    lemma_sum_by_zero(
                        prefix,
                        |c: CommitView| if commit_matches(c, d, n, k) { 1nat } else { 0nat },
                    );
                    lemma_sum_by_zero(
                        prefix,
                        |c: CommitView| if commit_matches(c, d, n, k) { c.insertions } else { 0nat },
                    );
                    lemma_sum_by_zero(
                        prefix,
                        |c: CommitView| if commit_matches(c, d, n, k) { c.deletions } else { 0nat },
                    );
                    lemma_sum_by_zero(
                        prefix,
                        |c: CommitView| if commit_matches(c, d, n, k) {
                            c.files_changed
                        } else {
                            0nat
                        },
                    );
                    lemma_agg_push(prefix, d, n, k, cv);
                    lemma_agg_bounds(cs, d, n, k, i as int + 1);
                }
                let rec = ContributorStats {
                    name: c.name.clone(),
                    email: c.email.clone(),
                    commits: 1,
                    additions: c.insertions,
                    deletions: c.deletions,
                    files_changed: c.files_changed,
                };
                acc.push(rec);
                proof {
                    assert(acc@ == old_acc.push(acc@[old_acc.len() as int]));
                    let new_rv = acc@[old_acc.len() as int]@;
                    assert(rec_key(new_rv) == k);
                    // The new record is the first counted author for its key.
                    assert(rec_ok(stepped, d, n, new_rv)) by {
                        assert(stepped[i as int] == cv);
                        assert(commit_matches(stepped[i as int], d, n, k));
                        assert(forall|jx: int|
                            0 <= jx < i as int ==> !commit_matches(
                                #[trigger] stepped[jx],
                                d,
                                n,
                                k,
                            ));
                        assert(is_first_author(stepped, d, n, k, new_rv.name, new_rv.email));
                    }
                    assert forall|jj: int|
                        0 <= jj < acc@.len() implies rec_ok(stepped, d, n, #[trigger] acc@[jj]@) by {
                        if jj < old_acc.len() {
                            let kj = rec_key(acc@[jj]@);
                            assert(acc@[jj] == old_acc[jj]);
                            assert(rec_ok(prefix, d, n, acc@[jj]@));
                            assert(kj != k);
                            lemma_agg_push(prefix, d, n, kj, cv);
                            lemma_first_author_extend(
                                prefix,
                                d,
                                n,
                                kj,
                                acc@[jj]@.name,
                                acc@[jj]@.email,
                                cv,
                            );
                        }
                    }
                    assert forall|t: int|
                        0 <= t < i as int + 1 && in_window(#[trigger] cs[t], d, n) implies
                        key_represented(acc@, commit_key(cs[t])) by {
                        if t < i as int {
                            let jj = choose|jj: int|
                                0 <= jj < old_acc.len() && rec_key(#[trigger] old_acc[jj]@)
                                    == commit_key(cs[t]);
                            assert(rec_key(acc@[jj]@) == commit_key(cs[t]));
                        } else {
                            assert(rec_key(acc@[old_acc.len() as int]@) == commit_key(cs[t]));
                        }
                    }
                }
            }
        } else {
            proof {
                assert(cs.take(i as int + 1) =~= cs.take(i as int).push(cv));
                assert(!in_window(cv, d, n));
                assert forall|jj: int|
                    0 <= jj < acc@.len() implies rec_ok(cs.take(i as int + 1), d, n, #[trigger] acc@[jj]@) by {
                    let kj = rec_key(acc@[jj]@);
                    assert(rec_ok(cs.take(i as int), d, n, acc@[jj]@));
                    lemma_agg_push(cs.take(i as int), d, n, kj, cv);
                    lemma_first_author_extend(
                        cs.take(i as int),
                        d,
                        n,
                        kj,
                        acc@[jj]@.name,
                        acc@[jj]@.email,
                        cv,
                    );
                }
            }
        }
        i += 1;
    }
    proof {
        assert(cs.take(commits@.len() as int) =~= cs);
    }
    acc
}

/// The views of a sequence of contributor records.
pub open spec fn cviews(s: Seq<ContributorStats>) -> Seq<ContributorView> {
    s.map_values(|r: ContributorStats| r@)
}

/// How many records of `rs` stand for key `k`.
pub open spec fn key_count(rs: Seq<ContributorView>, k: Seq<char>) -> nat {
    sum_by(rs, |rv: ContributorView| if rec_key(rv) == k { 1nat } else { 0nat })
}

/// Sort records by commit count, descending. The relative order of records
/// with equal counts is unspecified, as the ranking of the aggregate is.
fn sort_by_commits_desc(input: Vec<ContributorStats>) -> (r: Vec<ContributorStats>)
    ensures
        cviews(r@).to_multiset() == cviews(input@).to_multiset(),
        forall|i: int, j: int|
            #![trigger r@[i], r@[j]]
            0 <= i <= j < r@.len() ==> r@[i]@.commits >= r@[j]@.commits,
{
    broadcast use vstd::seq_lib::group_to_multiset_ensures;
    broadcast use vstd::multiset::group_multiset_axioms;

    let ghost orig = input@;
    let mut rest = input;
    let mut out: Vec<ContributorStats> = Vec::new();
    while rest.len() > 0
        invariant
            cviews(orig).to_multiset() == cviews(out@).to_multiset().add(
                cviews(rest@).to_multiset(),
            ),
            forall|i: int, j: int|
                #![trigger out@[i], out@[j]]
                0 <= i <= j < out@.len() ==> out@[i]@.commits >= out@[j]@.commits,
            forall|i: int, j: int|
                #![trigger out@[i], rest@[j]]
                0 <= i < out@.len() && 0 <= j < rest@.len() ==> out@[i]@.commits
                    >= rest@[j]@.commits,
        decreases rest@.len(),
    {
        broadcast use vstd::seq_lib::group_to_multiset_ensures;
        broadcast use vstd::multiset::group_multiset_axioms;

        // Find the index of a record with the largest commit count.
        let mut mi: usize = 0;
        let mut t: usize = 1;
        while t < rest.len()
            invariant
                0 < rest@.len(),
                mi < t <= rest@.len() || (t == 1 && mi == 0 && rest@.len() >= 1),
                mi < rest@.len(),
                forall|u: int|
                    0 <= u < t && u < rest@.len() ==> rest@[mi as int]@.commits
                        >= (#[trigger] rest@[u])@.commits,
            decreases rest@.len() - t,
        {
            if rest[t].commits > rest[mi].commits {
                mi = t;
            }
            t += 1;
        }
        let ghost old_rest = rest@;
        let ghost old_out = out@;
        let x = rest.remove(mi);
        out.push(x);
        proof {
            assert(cviews(old_rest.remove(mi as int)) =~= cviews(old_rest).remove(mi as int));
            assert(cviews(old_out.push(x)) =~= cviews(old_out).push(x@));
            assert(cviews(old_rest)[mi as int] == x@);
            assert(cviews(old_rest).contains(x@));
            assert(cviews(rest@).to_multiset() == cviews(old_rest).to_multiset().remove(x@));
            assert(cviews(out@).to_multiset() == cviews(old_out).to_multiset().insert(x@));
            assert(cviews(out@).to_multiset().add(cviews(rest@).to_multiset())
                =~= cviews(old_out).to_multiset().add(cviews(old_rest).to_multiset()));
            // The removed record had the largest count among the rest.
            assert(forall|j: int|
                0 <= j < rest@.len() ==> x@.commits >= (#[trigger] rest@[j])@.commits) by {
                assert(forall|j: int|
                    0 <= j < rest@.len() ==> #[trigger] rest@[j] == (if j < mi as int {
                        old_rest[j]
                    } else {
                        old_rest[j + 1]
                    }));
            }
        }
    }
    out
}

/// Aggregate the commits inside the window into one record per author
/// identity key, ranked by commit count, descending.
///
/// Every record's counts are exactly the per-key totals over the given
/// commits; every key counted inside the window is represented by exactly
/// one record, and no other record occurs. The bounds asked of the totals
/// only keep the accumulated sums within machine integers.
pub fn analyze_contributors(commits: &Vec<CommitData>, days: i64, now: i64) -> (r: Vec<
    ContributorStats,
>)
    requires
        0 <= days,
        days * 86400 <= i64::MAX,
        i64::MIN <= now - days * 86400,
        total_insertions(views(commits@)) <= usize::MAX,
        total_deletions(views(commits@)) <= usize::MAX,
        total_files(views(commits@)) <= usize::MAX,
    ensures
        forall|j: int|
            0 <= j < r@.len() ==> rec_ok(
                views(commits@),
                days as int,
                now as int,
                #[trigger] r@[j]@,
            ),
        forall|k: Seq<char>|
            #[trigger] key_count(cviews(r@), k) == (if commits_for(
                views(commits@),
                days as int,
                now as int,
                k,
            ) > 0 {
                1nat
            } else {
                0nat
            }),
        forall|i: int, j: int|
            #![trigger r@[i], r@[j]]
            0 <= i <= j < r@.len() ==> r@[i]@.commits >= r@[j]@.commits,
{
    let ghost cs = views(commits@);
    let ghost d = days as int;
    let ghost n = now as int;
    let acc = accumulate(commits, days, now);
    let ghost accv = acc@;
    let r = sort_by_commits_desc(acc);
    proof {
        broadcast use vstd::seq_lib::group_to_multiset_ensures;

        // Per-record correctness carries over to any permutation.
        let p = |rv: ContributorView| rec_ok(cs, d, n, rv);
        assert forall|i: int| 0 <= i < cviews(accv).len() implies #[trigger] p(cviews(accv)[i]) by {
            assert(cviews(accv)[i] == accv[i]@);
            assert(rec_ok(cs, d, n, accv[i]@));
        }
        lemma_permutation_pointwise(cviews(accv), cviews(r@), p);
        assert forall|j: int| 0 <= j < r@.len() implies rec_ok(cs, d, n, #[trigger] r@[j]@) by {
            assert(p(cviews(r@)[j]));
            assert(cviews(r@)[j] == r@[j]@);
        }
        // Exactly one record per counted key, none otherwise.
        assert forall|k: Seq<char>| #[trigger] key_count(cviews(r@), k) == (if commits_for(
            cs,
            d,
            n,
            k,
        ) > 0 {
            1nat
        } else {
            0nat
        }) by {
            lemma_sum_by_permutation(
                cviews(r@),
                cviews(accv),
                |rv: ContributorView| if rec_key(rv) == k { 1nat } else { 0nat },
            );
            if commits_for(cs, d, n, k) > 0 {
                lemma_sum_by_pos(
                    cs,
                    |c: CommitView| if commit_matches(c, d, n, k) { 1nat } else { 0nat },
                );
                let t = choose|t: int|
                    0 <= t < cs.len() && (if commit_matches(#[trigger] cs[t], d, n, k) {
                        1nat
                    } else {
                        0nat
                    }) > 0;
                assert(in_window(cs[t], d, n));
                assert(key_represented(accv, k));
                let j = choose|j: int| 0 <= j < accv.len() && rec_key(#[trigger] accv[j]@) == k;
                assert(forall|j2: int|
                    0 <= j2 < accv.len() && j2 != j ==> rec_key((#[trigger] accv[j2])@) != k);
                lemma_sum_by_single(
                    cviews(accv),
                    |rv: ContributorView| if rec_key(rv) == k { 1nat } else { 0nat },
                    j,
                );
            } else {
                assert(forall|j: int|
                    0 <= j < accv.len() ==> rec_key((#[trigger] accv[j])@) != k) by {
                    assert(forall|j: int|
                        0 <= j < accv.len() ==> rec_ok(cs, d, n, (#[trigger] accv[j])@));
                }
                lemma_sum_by_zero(
                    cviews(accv),
                    |rv: ContributorView| if rec_key(rv) == k { 1nat } else { 0nat },
                );
            }
        }
    }
    r
}

/// Commutativity of the contributor aggregate: however the commits of one
/// pass are ordered, every per-key total — commit count, insertions,
/// deletions and files changed — comes out the same.
pub proof fn lemma_contributor_totals_permutation(
    s1: Seq<CommitView>,
    s2: Seq<CommitView>,
    days: int,
    now: int,
    k: Seq<char>,
)
    requires
        s1.to_multiset() == s2.to_multiset(),
    ensures
        commits_for(s1, days, now, k) == commits_for(s2, days, now, k),
        additions_for(s1, days, now, k) == additions_for(s2, days, now, k),
        deletions_for(s1, days, now, k) == deletions_for(s2, days, now, k),
        files_for(s1, days, now, k) == files_for(s2, days, now, k),
{
    lemma_sum_by_permutation(
        s1,
        s2,
        |c: CommitView| if commit_matches(c, days, now, k) { 1nat } else { 0nat },
    );
    lemma_sum_by_permutation(
        s1,
        s2,
        |c: CommitView| if commit_matches(c, days, now, k) { c.insertions } else { 0nat },
    );
    lemma_sum_by_permutation(
        s1,
        s2,
        |c: CommitView| if commit_matches(c, days, now, k) { c.deletions } else { 0nat },
    );
    lemma_sum_by_permutation(
        s1,
        s2,
        |c: CommitView| if commit_matches(c, days, now, k) { c.files_changed } else { 0nat },
    );
}

} // verus!
