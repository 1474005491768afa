use vstd::prelude::*;
use crate::registry::{BlogPost, BlogPosts};
use vstd::set_lib::{lemma_int_range, lemma_len_subset, set_int_range};

verus! {

/// The time of the latest touch of a touched record, in seconds.
pub open spec fn last_seconds(p: BlogPost) -> int
    recommends
        p.touched(),
{
    p.latest->Some_0.time.seconds as int
}

/// Whether record `i` ranks before record `j` by recency: touched later, or
/// touched at the same second and earlier in the registry.
pub open spec fn ranks_before(posts: Seq<BlogPost>, i: int, j: int) -> bool {
    last_seconds(posts[i]) > last_seconds(posts[j]) || (last_seconds(posts[i]) == last_seconds(
        posts[j],
    ) && i < j)
}

/// Whether position `i` holds a touched record of `posts`.
pub open spec fn is_touched_at(posts: Seq<BlogPost>, i: int) -> bool {
    0 <= i < posts.len() && posts[i].touched()
}

/// `r` lists the `n` most recently touched records of `posts` (fewer where
/// fewer are touched), most recent first; untouched records never appear.
pub open spec fn is_latest_selection(posts: Seq<BlogPost>, n: int, r: Seq<usize>) -> bool {
    &&& r.len() <= n
    &&& forall|k: int| 0 <= k < r.len() ==> is_touched_at(posts, #[trigger] r[k] as int)
    &&& forall|a: int, b: int|
        0 <= a < b < r.len() ==> ranks_before(posts, #[trigger] r[a] as int, #[trigger] r[b] as int)
    &&& forall|i: int|
        is_touched_at(posts, i) && !r.contains(i as usize) ==> r.len() == n && forall|k: int|
            0 <= k < r.len() ==> ranks_before(posts, #[trigger] r[k] as int, i)
}

/// The positions of the touched records of `posts`.
pub open spec fn touched_positions(posts: Seq<BlogPost>) -> Set<int> {
    Set::new(|i: int| is_touched_at(posts, i))
}

/// Why no feed can be selected.
#[derive(Clone, Copy, Debug, PartialEq, Eq, Structural)]
pub enum SelectError {
    /// There are documents, but no commit has touched any of them.
    NoHistory,
}

impl BlogPosts {
    /// Whether some record has been touched.
    pub fn any_touched(&self) -> (r: bool)
        ensures
            r == exists|i: int| is_touched_at(self@, i),
    {
        let mut i: usize = 0;
        while i < self.len()
            invariant
                i <= self@.len(),
                forall|j: int| 0 <= j < i ==> !is_touched_at(self@, j),
            decreases self@.len() - i,
        {
            if self.get(i).is_touched() {
                assert(is_touched_at(self@, i as int));
                return true;
            }
            i = i + 1;
        }
        false
    }

    /// The `n` latest records, as `get_n_latest` selects them; refused with
    /// `NoHistory` where the registry holds documents and none was touched,
    /// since their dates and authors are then unknown.
    pub fn select_latest(&self, n: usize) -> (r: Result<Vec<usize>, SelectError>)
        ensures
            r is Err <==> (self@.len() > 0 && !exists|i: int| is_touched_at(self@, i)),
            r matches Err(e) ==> e == SelectError::NoHistory,
            r matches Ok(v) ==> is_latest_selection(self@, n as int, v@),
    {
        if self.len() > 0 && !self.any_touched() {
            return Err(SelectError::NoHistory);
        }
        Ok(self.get_n_latest(n))
    }

    fn ranks_before(&self, i: usize, j: usize) -> (r: bool)
        requires
            i < self@.len(),
            j < self@.len(),
            self@[i as int].touched(),
            self@[j as int].touched(),
        ensures
            r == ranks_before(self@, i as int, j as int),
    {
        let ti = self.get(i).latest.as_ref().unwrap().time.seconds;
        let tj = self.get(j).latest.as_ref().unwrap().time.seconds;
        ti > tj || (ti == tj && i < j)
    }

    /// The positions of the `n` most recently touched records, most recent
    /// first; records that no commit touched are left out.
    pub fn get_n_latest(&self, n: usize) -> (r: Vec<usize>)
        ensures
            is_latest_selection(self@, n as int, r@),
    {
        let mut r: Vec<usize> = Vec::new();
        let mut exhausted = false;
        let len = self.len();
        while !exhausted && r.len() < n
            invariant
                len == self@.len(),
                r@.len() <= n,
                forall|k: int| 0 <= k < r@.len() ==> is_touched_at(self@, #[trigger] r@[k] as int),
                forall|a: int, b: int|
                    0 <= a < b < r@.len() ==> ranks_before(
                        self@,
                        #[trigger] r@[a] as int,
                        #[trigger] r@[b] as int,
                    ),
                forall|j: int|
                    #![trigger is_touched_at(self@, j)]
                    is_touched_at(self@, j) ==> (r@.contains(j as usize) <==> (r@.len() > 0 && (
                    j == r@.last() || ranks_before(self@, j, r@.last() as int)))),
                exhausted ==> forall|j: int| is_touched_at(self@, j) ==> r@.contains(j as usize),
            decreases n - r@.len(), if exhausted { 0int } else { 1int },
        {
            let mut best: Option<usize> = None;
            let mut i: usize = 0;
            while i < len
                invariant
                    len == self@.len(),
                    i <= len,
                    r@.len() < n,
                    forall|k: int| 0 <= k < r@.len() ==> is_touched_at(self@, #[trigger] r@[k] as int),
                    best matches Some(b) ==> b < i && is_touched_at(self@, b as int) && (r@.len()
                        == 0 || ranks_before(self@, r@.last() as int, b as int)),
                    forall|j: int|
                        #![trigger is_touched_at(self@, j)]
                        0 <= j < i && is_touched_at(self@, j) && (r@.len() == 0 || ranks_before(
                            self@,
                            r@.last() as int,
                            j,
                        )) ==> (best matches Some(b) && (j == b || ranks_before(self@, b as int, j))),
                decreases len - i,
            {
                if self.get(i).is_touched() {
                    let after_last = r.len() == 0 || self.ranks_before(r[r.len() - 1], i);
                    if after_last {
                        match best {
                            Some(b) => {
                                if self.ranks_before(i, b) {
                                    best = Some(i);
                                }
                            },
                            None => {
                                best = Some(i);
                            },
                        }
                    }
                }
                i = i + 1;
            }
            match best {
                Some(b) => {
                    let ghost old_r = r@;
                    r.push(b);
                    assert forall|a: int, c: int|
                        0 <= a < c < r@.len() implies ranks_before(
                        self@,
                        #[trigger] r@[a] as int,
                        #[trigger] r@[c] as int,
                    ) by {
                        if c == r@.len() - 1 && a < c - 1 {
                            assert(ranks_before(self@, old_r[a] as int, old_r.last() as int));
                        }
                    }
                    assert forall|j: int| is_touched_at(self@, j) implies (r@.contains(j as usize)
                        <==> (r@.len() > 0 && (j == r@.last() || ranks_before(
                        self@,
                        j,
                        r@.last() as int,
                    )))) by {
                        if r@.contains(j as usize) {
                            let k = choose|k: int| 0 <= k < r@.len() && r@[k] == j as usize;
                            if k < r@.len() - 1 {
                                assert(old_r.contains(j as usize)) by {
                                    assert(old_r[k] == j as usize);
                                }
                            }
                        }
                        if j != b as int && ranks_before(self@, j, b as int) {
                            if !old_r.contains(j as usize) {
                                assert(old_r.len() == 0 || ranks_before(
                                    self@,
                                    old_r.last() as int,
                                    j,
                                ));
                            }
                            assert(r@[old_r.len() as int] == b);
                            if old_r.contains(j as usize) {
                                let k = choose|k: int| 0 <= k < old_r.len() && old_r[k] == j as usize;
                                assert(r@[k] == j as usize);
                            }
                        }
                        if j == b as int {
                            assert(r@[old_r.len() as int] == b);
                        }
                        if old_r.contains(j as usize) {
                            let k = choose|k: int| 0 <= k < old_r.len() && old_r[k] == j as usize;
                            assert(r@[k] == j as usize);
                        }
                    }
                },
                None => {
                    exhausted = true;
                },
            }
        }
        r
    }
}

/// A selection of the `n` latest records is sorted from the most recent
/// touch down, holds at most `n` records, and at most as many as are touched.
pub proof fn lemma_selection_bounds(posts: Seq<BlogPost>, n: int, r: Seq<usize>)
    requires
        is_latest_selection(posts, n, r),
    ensures
        r.len() <= n,
        r.len() <= touched_positions(posts).len(),
        forall|a: int, b: int|
            0 <= a < b < r.len() ==> last_seconds(posts[#[trigger] r[a] as int]) >= last_seconds(
                posts[#[trigger] r[b] as int],
            ),
{
    let ri = r.map_values(|v: usize| v as int);
    assert(ri.no_duplicates()) by {
        assert forall|a: int, b: int| 0 <= a < ri.len() && 0 <= b < ri.len() && a != b implies ri[a]
            != ri[b] by {
            if a < b {
                assert(ranks_before(posts, r[a] as int, r[b] as int));
            } else {
                assert(ranks_before(posts, r[b] as int, r[a] as int));
            }
        }
    }
    ri.unique_seq_to_set();
    lemma_int_range(0, posts.len() as int);
    assert(touched_positions(posts).subset_of(set_int_range(0, posts.len() as int)));
    lemma_len_subset(touched_positions(posts), set_int_range(0, posts.len() as int));
    assert(ri.to_set().subset_of(touched_positions(posts))) by {
        assert forall|x: int| ri.to_set().contains(x) implies touched_positions(posts).contains(x) by {
            let k = choose|k: int| 0 <= k < ri.len() && ri[k] == x;
            assert(is_touched_at(posts, r[k] as int));
        }
    }
    lemma_len_subset(ri.to_set(), touched_positions(posts));
}

/// The selection is determined: two lists that both meet the description of
/// the `n` latest records of `posts` are the same list.
pub proof fn lemma_selection_unique(posts: Seq<BlogPost>, n: int, r1: Seq<usize>, r2: Seq<usize>)
    requires
        is_latest_selection(posts, n, r1),
        is_latest_selection(posts, n, r2),
    ensures
        r1 == r2,
{
    let m = if r1.len() < r2.len() { r1.len() } else { r2.len() };
    assert forall|k: int| 0 <= k < m implies r1[k] == r2[k] by {
        lemma_selection_prefix(posts, n, r1, r2, k);
    }
    if r1.len() < r2.len() {
        lemma_selection_longer(posts, n, r1, r2);
    } else if r2.len() < r1.len() {
        assert forall|k: int| 0 <= k < m implies r2[k] == r1[k] by {}
        lemma_selection_longer(posts, n, r2, r1);
    }
    assert(r1 =~= r2);
}

proof fn lemma_selection_prefix(
    posts: Seq<BlogPost>,
    n: int,
    r1: Seq<usize>,
    r2: Seq<usize>,
    k: int,
)
    requires
        is_latest_selection(posts, n, r1),
        is_latest_selection(posts, n, r2),
        0 <= k < r1.len(),
        k < r2.len(),
    ensures
        r1[k] == r2[k],
    decreases k,
{
    assert forall|j: int| 0 <= j < k implies r1[j] == r2[j] by {
        lemma_selection_prefix(posts, n, r1, r2, j);
    }
    let a = r1[k];
    let b = r2[k];
    if a != b {
        if ranks_before(posts, a as int, b as int) {
            lemma_not_placed_elsewhere(posts, n, r1, r2, k);
            assert(is_touched_at(posts, a as int));
            assert(ranks_before(posts, r2[k] as int, a as int));
        } else {
            assert(ranks_before(posts, b as int, a as int));
            assert forall|j: int| 0 <= j < k implies r2[j] == r1[j] by {}
            lemma_not_placed_elsewhere(posts, n, r2, r1, k);
            assert(is_touched_at(posts, b as int));
            assert(ranks_before(posts, r1[k] as int, b as int));
        }
    }
}

/// Where two selections agree before position `k` and the first one's
/// element at `k` ranks before the second one's, the second one does not
/// hold it.
proof fn lemma_not_placed_elsewhere(
    posts: Seq<BlogPost>,
    n: int,
    r1: Seq<usize>,
    r2: Seq<usize>,
    k: int,
)
    requires
        is_latest_selection(posts, n, r1),
        is_latest_selection(posts, n, r2),
        0 <= k < r1.len(),
        k < r2.len(),
        forall|j: int| 0 <= j < k ==> r1[j] == r2[j],
        ranks_before(posts, r1[k] as int, r2[k] as int),
    ensures
        !r2.contains(r1[k]),
{
    if r2.contains(r1[k]) {
        let m = choose|m: int| 0 <= m < r2.len() && r2[m] == r1[k];
        if m < k {
            assert(r1[m] == r1[k]);
            assert(ranks_before(posts, r1[m] as int, r1[k] as int));
        } else if m > k {
            assert(ranks_before(posts, r2[k] as int, r2[m] as int));
        }
    }
}

/// A selection that is a prefix of another one is as long as it.
proof fn lemma_selection_longer(posts: Seq<BlogPost>, n: int, r1: Seq<usize>, r2: Seq<usize>)
    requires
        is_latest_selection(posts, n, r1),
        is_latest_selection(posts, n, r2),
        r1.len() <= r2.len(),
        forall|j: int| 0 <= j < r1.len() ==> r1[j] == r2[j],
    ensures
        r1.len() == r2.len(),
{
    if r1.len() < r2.len() {
        let k = r1.len() as int;
        let x = r2[k];
        assert(is_touched_at(posts, x as int));
        if r1.contains(x) {
            let m = choose|m: int| 0 <= m < r1.len() && r1[m] == x;
            assert(r2[m] == x);
            assert(ranks_before(posts, r2[m] as int, r2[k] as int));
        }
    }
}

} // verus!
