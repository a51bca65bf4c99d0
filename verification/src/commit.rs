//! The plain commit record the aggregators consume, and the identity key
//! that groups commits by author.
//!
//! A record carries what the history store reports for one commit: author
//! name and email, the author timestamp in seconds since the epoch, the
//! summary of the diff against the first parent (or against the empty tree
//! for a root commit), and the paths that diff touches.

use vstd::prelude::*;
use crate::window::spec_within_window;

verus! {

/// One commit, reduced to the plain values the aggregation passes read.
#[derive(Debug, Clone)]
pub struct CommitData {
    /// Author display name.
    pub name: String,
    /// Author email.
    pub email: String,
    /// Author timestamp, seconds since the Unix epoch.
    pub time: i64,
    /// Lines inserted relative to the first parent (whole tree for a root).
    pub insertions: usize,
    /// Lines deleted relative to the first parent.
    pub deletions: usize,
    /// Number of files changed relative to the first parent.
    pub files_changed: usize,
    /// Paths touched by the first-parent diff.
    pub paths: Vec<String>,
}

/// The mathematical shadow of a `CommitData`.
pub struct CommitView {
    pub name: Seq<char>,
    pub email: Seq<char>,
    pub time: int,
    pub insertions: nat,
    pub deletions: nat,
    pub files_changed: nat,
    pub paths: Seq<Seq<char>>,
}

impl View for CommitData {
    type V = CommitView;

    open spec fn view(&self) -> CommitView {
        CommitView {
            name: self.name@,
            email: self.email@,
            time: self.time as int,
            insertions: self.insertions as nat,
            deletions: self.deletions as nat,
            files_changed: self.files_changed as nat,
            paths: self.paths.deep_view(),
        }
    }
}

/// The views of a sequence of commits.
pub open spec fn views(s: Seq<CommitData>) -> Seq<CommitView> {
    s.map_values(|c: CommitData| c@)
}

/// The identity key of an author: the exact concatenation `name|email`.
/// Two commits collapse into one contributor record exactly when their
/// keys are equal.
pub open spec fn key_of(name: Seq<char>, email: Seq<char>) -> Seq<char> {
    name + seq!['|'] + email
}

/// The identity key of a commit's author.
pub open spec fn commit_key(c: CommitView) -> Seq<char> {
    key_of(c.name, c.email)
}

/// Whether a commit falls inside the window.
pub open spec fn in_window(c: CommitView, days: int, now: int) -> bool {
    spec_within_window(c.time, days, now)
}

/// Identical name and email give the same identity key; the same name with
/// a different email gives a different key, so such commits land in
/// distinct contributor records.
pub proof fn lemma_identity_key(n1: Seq<char>, e1: Seq<char>, n2: Seq<char>, e2: Seq<char>)
    ensures
        (n1 == n2 && e1 == e2) ==> key_of(n1, e1) == key_of(n2, e2),
        (n1 == n2 && e1 != e2) ==> key_of(n1, e1) != key_of(n2, e2),
{
    if n1 == n2 && e1 != e2 && key_of(n1, e1) == key_of(n2, e2) {
        assert(key_of(n1, e1).len() == n1.len() + 1 + e1.len());
        assert(key_of(n2, e2).len() == n2.len() + 1 + e2.len());
        assert(e1.len() == e2.len());
        assert forall|i: int| 0 <= i < e1.len() implies e1[i] == e2[i] by {
            assert(key_of(n1, e1)[n1.len() + 1 + i] == e1[i]);
            assert(key_of(n2, e2)[n2.len() + 1 + i] == e2[i]);
        }
        assert(e1 =~= e2);
    }
}

/// What a commit's diff is measured against.
#[derive(Clone, Copy, Debug, PartialEq, Eq, Structural)]
pub enum DiffBase {
    /// A root commit: its diff is taken against the empty tree, so its
    /// whole content counts as insertions and nothing as deletions.
    EmptyTree,
    /// Any other commit: its diff is taken against the first parent's tree.
    FirstParent,
}

/// The base a commit with this many parents is diffed against.
pub open spec fn spec_diff_base(parent_count: nat) -> DiffBase {
    if parent_count == 0 {
        DiffBase::EmptyTree
    } else {
        DiffBase::FirstParent
    }
}

/// Decide what to diff a commit against: the empty tree for a root commit,
/// the first parent's tree otherwise.
pub fn select_diff_base(parent_count: usize) -> (r: DiffBase)
    ensures
        r == spec_diff_base(parent_count as nat),
{
    if parent_count == 0 {
        DiffBase::EmptyTree
    } else {
        DiffBase::FirstParent
    }
}

/// A root commit is diffed against the empty tree: all of its content
/// counts as insertions, none as deletions.
pub proof fn lemma_root_diffs_against_empty_tree()
    ensures
        spec_diff_base(0) == DiffBase::EmptyTree,
{
}

/// A merge commit's statistics come from its first parent alone: the base
/// chosen does not depend on how many further parents there are.
pub proof fn lemma_merge_uses_first_parent_only(n1: nat, n2: nat)
    requires
        n1 >= 1,
        n2 >= 1,
    ensures
        spec_diff_base(n1) == spec_diff_base(n2),
        spec_diff_base(n1) == DiffBase::FirstParent,
{
}

/// Build the identity key of an author as a string.
pub fn make_key(name: &String, email: &String) -> (k: String)
    ensures
        k@ == key_of(name@, email@),
{
    let mut k = name.clone();
    k.append("|");
    k.append(email.as_str());
    proof {
        reveal_strlit("|");
        assert(k@ =~= key_of(name@, email@));
    }
    k
}

} // verus!
