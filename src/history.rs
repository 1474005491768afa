use vstd::prelude::*;
use crate::registry::{Author, BlogPost, BlogPosts, has_path};
use crate::time::Time;

verus! {

/// One commit as the history walk sees it: how many parents it has, its time
/// and author, and the new-side paths of the changes against its parent.
#[derive(Debug)]
pub struct Commit {
    pub parent_count: usize,
    pub time: Time,
    pub author: Author,
    pub changed: Vec<String>,
}

/// Whether commit `c` changes `path` in its first `k` changes.
pub open spec fn changes_within(c: Commit, path: Seq<char>, k: int) -> bool {
    exists|j: int| 0 <= j < k && (#[trigger] c.changed@[j])@ == path
}

/// Whether commit `c` counts as a touch of `path`: only a commit with exactly
/// one parent is diffed, so merges and the root commit touch nothing.
pub open spec fn touches(c: Commit, path: Seq<char>) -> bool {
    c.parent_count == 1 && changes_within(c, path, c.changed@.len() as int)
}

/// The record `p` after commit `c`.
pub open spec fn step(p: BlogPost, c: Commit) -> BlogPost {
    if touches(c, p.path@) {
        p.after_touch(c.time, c.author)
    } else {
        p
    }
}

/// The record `p` after the commits `cs`, oldest first.
pub open spec fn replay(p: BlogPost, cs: Seq<Commit>) -> BlogPost
    decreases cs.len(),
{
    if cs.len() == 0 {
        p
    } else {
        step(replay(p, cs.drop_last()), cs.last())
    }
}

impl BlogPosts {
    /// Applies one commit to every record that it touches.
    pub fn apply_commit(&mut self, c: &Commit)
        requires
            old(self).wf(),
        ensures
            final(self).wf(),
            final(self)@.len() == old(self)@.len(),
            forall|i: int|
                0 <= i < old(self)@.len() ==> #[trigger] final(self)@[i] == step(
                    old(self)@[i],
                    *c,
                ),
    {
        let ghost start = self@;
        if c.parent_count != 1 {
            assert forall|i: int| 0 <= i < start.len() implies #[trigger] self@[i] == step(
                start[i],
                *c,
            ) by {}
            return;
        }
        let mut k: usize = 0;
        while k < c.changed.len()
            invariant
                self.wf(),
                c.parent_count == 1,
                k <= c.changed@.len(),
                self@.len() == start.len(),
                forall|i: int|
                    0 <= i < start.len() ==> #[trigger] self@[i] == if changes_within(
                        *c,
                        start[i].path@,
                        k as int,
                    ) {
                        start[i].after_touch(c.time, c.author)
                    } else {
                        start[i]
                    },
            decreases c.changed@.len() - k,
        {
            let ghost before = self@;
            match self.find(&c.changed[k]) {
                Some(i) => {
                    self.touch(i, c.time, c.author.duplicate());
                },
                None => {},
            }
            assert forall|i: int| 0 <= i < start.len() implies #[trigger] self@[i] == if changes_within(
                *c,
                start[i].path@,
                k + 1,
            ) {
                start[i].after_touch(c.time, c.author)
            } else {
                start[i]
            } by {
                assert(before[i].path == start[i].path);
                if c.changed@[k as int]@ == start[i].path@ {
                    assert(changes_within(*c, start[i].path@, k + 1));
                    assert(has_path(before, c.changed@[k as int]@));
                } else {
                    assert(changes_within(*c, start[i].path@, k + 1) == changes_within(
                        *c,
                        start[i].path@,
                        k as int,
                    ));
                }
            }
            k = k + 1;
        }
    }

    /// Replays `commits`, oldest first, over the registry.
    pub fn walk(&mut self, commits: &Vec<Commit>)
        requires
            old(self).wf(),
        ensures
            final(self).wf(),
            final(self)@.len() == old(self)@.len(),
            forall|i: int|
                0 <= i < old(self)@.len() ==> #[trigger] final(self)@[i] == replay(
                    old(self)@[i],
                    commits@,
                ),
    {
        let ghost start = self@;
        let mut k: usize = 0;
        while k < commits.len()
            invariant
                self.wf(),
                k <= commits@.len(),
                self@.len() == start.len(),
                forall|i: int|
                    0 <= i < start.len() ==> #[trigger] self@[i] == replay(
                        start[i],
                        commits@.take(k as int),
                    ),
            decreases commits@.len() - k,
        {
            let ghost before = self@;
            self.apply_commit(&commits[k]);
            assert(commits@.take(k + 1).drop_last() =~= commits@.take(k as int));
            assert forall|i: int| 0 <= i < start.len() implies #[trigger] self@[i] == replay(
                start[i],
                commits@.take(k + 1),
            ) by {
                assert(self@[i] == step(before[i], commits@[k as int]));
            }
            k = k + 1;
        }
        assert(commits@.take(commits@.len() as int) =~= commits@);
    }
}

/// A replay never changes which path a record belongs to.
pub proof fn lemma_replay_keeps_path(p: BlogPost, cs: Seq<Commit>)
    ensures
        replay(p, cs).path == p.path,
    decreases cs.len(),
{
    if cs.len() > 0 {
        lemma_replay_keeps_path(p, cs.drop_last());
    }
}

/// Once a record's first touch is set, no later commit changes it: after
/// the first `i` commits and after the first `j >= i` commits it is the same.
pub proof fn lemma_first_touch_stable(p: BlogPost, cs: Seq<Commit>, i: int, j: int)
    requires
        0 <= i <= j <= cs.len(),
        replay(p, cs.take(i)).initial is Some,
    ensures
        replay(p, cs.take(j)).initial == replay(p, cs.take(i)).initial,
    decreases j - i,
{
    if j > i {
        lemma_first_touch_stable(p, cs, i, j - 1);
        assert(cs.take(j).drop_last() =~= cs.take(j - 1));
    }
}

/// An untouched record's first touch after the walk is the time of the
/// earliest commit that touches its path.
pub proof fn lemma_first_touch_time(p: BlogPost, cs: Seq<Commit>, k: int)
    requires
        p.initial is None,
        0 <= k < cs.len(),
        touches(cs[k], p.path@),
        forall|j: int| 0 <= j < k ==> !touches(#[trigger] cs[j], p.path@),
    ensures
        replay(p, cs).initial == Some(cs[k].time),
{
    lemma_replay_untouched_prefix(p, cs, k);
    assert(cs.take(k + 1).drop_last() =~= cs.take(k));
    lemma_replay_keeps_path(p, cs.take(k));
    assert(replay(p, cs.take(k + 1)).initial == Some(cs[k].time));
    lemma_first_touch_stable(p, cs, k + 1, cs.len() as int);
    assert(cs.take(cs.len() as int) =~= cs);
}

/// Before the first commit that touches a record's path, the record is as it
/// was.
proof fn lemma_replay_untouched_prefix(p: BlogPost, cs: Seq<Commit>, k: int)
    requires
        0 <= k <= cs.len(),
        forall|j: int| 0 <= j < k ==> !touches(#[trigger] cs[j], p.path@),
    ensures
        replay(p, cs.take(k)) == p,
    decreases k,
{
    if k > 0 {
        lemma_replay_untouched_prefix(p, cs, k - 1);
        assert(cs.take(k).drop_last() =~= cs.take(k - 1));
    }
}

/// After the walk, a record's latest touch is the time and author of the last
/// commit that touches its path.
pub proof fn lemma_last_touch(p: BlogPost, cs: Seq<Commit>, k: int)
    requires
        0 <= k < cs.len(),
        touches(cs[k], p.path@),
        forall|j: int| k < j < cs.len() ==> !touches(#[trigger] cs[j], p.path@),
    ensures
        replay(p, cs).latest matches Some(t) && t.time == cs[k].time && t.author == cs[k].author,
    decreases cs.len(),
{
    lemma_replay_keeps_path(p, cs.drop_last());
    if k < cs.len() - 1 {
        lemma_last_touch(p, cs.drop_last(), k);
    }
}

/// A merge commit leaves every record as it was.
pub proof fn lemma_merge_touches_nothing(p: BlogPost, c: Commit)
    requires
        c.parent_count > 1,
    ensures
        step(p, c) == p,
{
}

/// The root commit, which has no parent to diff against, leaves every record
/// as it was.
pub proof fn lemma_root_touches_nothing(p: BlogPost, c: Commit)
    requires
        c.parent_count == 0,
    ensures
        step(p, c) == p,
{
}

} // verus!
