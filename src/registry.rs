use vstd::prelude::*;
use vstd::string::StrSliceExecFns;
use crate::time::Time;

verus! {

/// The author of a commit; either part may be absent.
#[derive(Debug)]
pub struct Author {
    pub name: Option<String>,
    pub email: Option<String>,
}

impl Author {
    pub fn new(name: Option<String>, email: Option<String>) -> (r: Author)
        ensures
            r.name == name,
            r.email == email,
    {
        Author { name, email }
    }

    /// A copy of this author.
    pub fn duplicate(&self) -> (r: Author)
        ensures
            r == *self,
    {
        let name = match &self.name {
            Some(s) => Some(s.clone()),
            None => None,
        };
        let email = match &self.email {
            Some(s) => Some(s.clone()),
            None => None,
        };
        Author { name, email }
    }
}

/// The most recent touch of a document: when, and by whom.
#[derive(Debug)]
pub struct Touch {
    pub time: Time,
    pub author: Author,
}

/// What is known of one tracked document. `initial` is the time of its first
/// touch, `latest` its most recent touch; the two are set together, by the
/// first touch.
#[derive(Debug)]
pub struct BlogPost {
    pub path: String,
    pub initial: Option<Time>,
    pub latest: Option<Touch>,
}

impl BlogPost {
    /// Either both the first touch and the latest touch are known, or neither.
    pub open spec fn wf(&self) -> bool {
        self.initial is Some <==> self.latest is Some
    }

    /// Whether a commit has touched this document yet.
    pub open spec fn touched(&self) -> bool {
        self.latest is Some
    }

    /// This document after a touch at `time` by `author`: the first touch is
    /// kept once set, the latest touch is overwritten.
    pub open spec fn after_touch(self, time: Time, author: Author) -> BlogPost {
        BlogPost {
            path: self.path,
            initial: if self.initial is Some { self.initial } else { Some(time) },
            latest: Some(Touch { time, author }),
        }
    }

    pub fn is_touched(&self) -> (r: bool)
        ensures
            r == self.touched(),
    {
        self.latest.is_some()
    }
}

/// The registry of tracked documents, keyed by path, in path order.
pub struct BlogPosts {
    posts: Vec<BlogPost>,
}

impl View for BlogPosts {
    type V = Seq<BlogPost>;

    closed spec fn view(&self) -> Seq<BlogPost> {
        self.posts@
    }
}

/// Whether some record of `posts` has path `path`.
pub open spec fn has_path(posts: Seq<BlogPost>, path: Seq<char>) -> bool {
    exists|i: int| 0 <= i < posts.len() && (#[trigger] posts[i]).path@ == path
}

/// Lexicographic order of paths, character by character (the order of
/// their UTF-8 bytes).
pub open spec fn path_lt(a: Seq<char>, b: Seq<char>) -> bool
    decreases a.len(),
{
    if a.len() == 0 {
        b.len() > 0
    } else if b.len() == 0 {
        false
    } else if a[0] != b[0] {
        a[0] < b[0]
    } else {
        path_lt(a.drop_first(), b.drop_first())
    }
}

/// The order of paths is strict and total.
pub proof fn lemma_path_lt_total(a: Seq<char>, b: Seq<char>)
    ensures
        !(path_lt(a, b) && path_lt(b, a)),
        a != b ==> path_lt(a, b) || path_lt(b, a),
        !path_lt(a, a),
    decreases a.len(),
{
    if a.len() > 0 && b.len() > 0 {
        lemma_path_lt_total(a.drop_first(), b.drop_first());
        lemma_path_lt_total(a.drop_first(), a.drop_first());
        if a[0] == b[0] && a.drop_first() == b.drop_first() {
            assert(a =~= seq![a[0]] + a.drop_first());
            assert(b =~= seq![b[0]] + b.drop_first());
        }
    } else if a.len() > 0 {
        lemma_path_lt_total(a.drop_first(), a.drop_first());
    } else if b.len() == 0 {
        assert(a =~= b);
    }
}

/// The order of paths is transitive.
pub proof fn lemma_path_lt_trans(a: Seq<char>, b: Seq<char>, c: Seq<char>)
    requires
        path_lt(a, b),
        path_lt(b, c),
    ensures
        path_lt(a, c),
    decreases a.len(),
{
    if a.len() > 0 && b.len() > 0 && c.len() > 0 && a[0] == b[0] && b[0] == c[0] {
        lemma_path_lt_trans(a.drop_first(), b.drop_first(), c.drop_first());
    }
}

/// Whether `a` sorts before `b`.
pub fn path_less(a: &str, b: &str) -> (r: bool)
    ensures
        r == path_lt(a@, b@),
{
    let na = a.unicode_len();
    let nb = b.unicode_len();
    let mut i: usize = 0;
    assert(a@.skip(0) =~= a@);
    assert(b@.skip(0) =~= b@);
    while i < na && i < nb
        invariant
            na == a@.len(),
            nb == b@.len(),
            i <= na,
            i <= nb,
            path_lt(a@, b@) == path_lt(a@.skip(i as int), b@.skip(i as int)),
        decreases na - i,
    {
        let ca = a.get_char(i);
        let cb = b.get_char(i);
        if ca != cb {
            return ca < cb;
        }
        assert(a@.skip(i as int).drop_first() =~= a@.skip(i + 1));
        assert(b@.skip(i as int).drop_first() =~= b@.skip(i + 1));
        i = i + 1;
    }
    i < nb
}

/// Every record is well formed, and the records are sorted by path with no
/// two sharing one.
pub open spec fn registry_wf(posts: Seq<BlogPost>) -> bool {
    &&& forall|i: int| 0 <= i < posts.len() ==> (#[trigger] posts[i]).wf()
    &&& forall|i: int, j: int|
        0 <= i < j < posts.len() ==> path_lt((#[trigger] posts[i]).path@, (#[trigger] posts[j]).path@)
    &&& forall|i: int, j: int|
        0 <= i < posts.len() && 0 <= j < posts.len() && i != j ==> (#[trigger] posts[i]).path@
            != (#[trigger] posts[j]).path@
}

impl BlogPosts {
    pub open spec fn wf(&self) -> bool {
        registry_wf(self@)
    }

    pub fn new() -> (r: BlogPosts)
        ensures
            r.wf(),
            r@ == Seq::<BlogPost>::empty(),
    {
        BlogPosts { posts: Vec::new() }
    }

    pub fn len(&self) -> (r: usize)
        ensures
            r == self@.len(),
    {
        self.posts.len()
    }

    /// The record at position `i`.
    pub fn get(&self, i: usize) -> (r: &BlogPost)
        requires
            i < self@.len(),
        ensures
            *r == self@[i as int],
    {
        &self.posts[i]
    }

    /// The position of the record with path `path`, if there is one, found by
    /// binary search over the path order.
    pub fn find(&self, path: &String) -> (r: Option<usize>)
        requires
            self.wf(),
        ensures
            r is None <==> !has_path(self@, path@),
            r matches Some(i) ==> i < self@.len() && self@[i as int].path@ == path@,
    {
        let mut lo: usize = 0;
        let mut hi: usize = self.posts.len();
        while lo < hi
            invariant
                self.wf(),
                lo <= hi <= self@.len(),
                forall|j: int| 0 <= j < lo ==> path_lt((#[trigger] self@[j]).path@, path@),
                forall|j: int| hi <= j < self@.len() ==> path_lt(path@, (#[trigger] self@[j]).path@),
            decreases hi - lo,
        {
            let mid = lo + (hi - lo) / 2;
            let mid_path = self.posts[mid].path.as_str();
            if path_less(mid_path, path.as_str()) {
                assert forall|j: int| 0 <= j <= mid implies path_lt(
                    (#[trigger] self@[j]).path@,
                    path@,
                ) by {
                    if j < mid {
                        lemma_path_lt_trans(self@[j].path@, self@[mid as int].path@, path@);
                    }
                }
                lo = mid + 1;
            } else if path_less(path.as_str(), mid_path) {
                assert forall|j: int| mid <= j < self@.len() implies path_lt(
                    path@,
                    (#[trigger] self@[j]).path@,
                ) by {
                    if j > mid {
                        lemma_path_lt_trans(path@, self@[mid as int].path@, self@[j].path@);
                    }
                }
                hi = mid;
            } else {
                proof {
                    lemma_path_lt_total(self@[mid as int].path@, path@);
                }
                return Some(mid);
            }
        }
        assert forall|j: int| 0 <= j < self@.len() implies (#[trigger] self@[j]).path@ != path@ by {
            lemma_path_lt_total(self@[j].path@, path@);
        }
        None
    }

    /// Adds an untouched record for `path` at its place in path order. A path
    /// that is already present is refused (`false`) and the registry is left
    /// as it was.
    pub fn insert_uninit(&mut self, path: String) -> (r: bool)
        requires
            old(self).wf(),
        ensures
            final(self).wf(),
            r == !has_path(old(self)@, path@),
            r ==> exists|p: int|
                0 <= p <= old(self)@.len() && final(self)@ == old(self)@.insert(
                    p,
                    BlogPost { path: path, initial: None, latest: None },
                ),
            !r ==> final(self)@ == old(self)@,
    {
        let len = self.posts.len();
        let mut p: usize = 0;
        while p < len && path_less(self.posts[p].path.as_str(), path.as_str())
            invariant
                len == self@.len(),
                p <= len,
                forall|j: int| 0 <= j < p ==> path_lt((#[trigger] self@[j]).path@, path@),
            decreases len - p,
        {
            p = p + 1;
        }
        proof {
            if p < len {
                lemma_path_lt_total(self@[p as int].path@, path@);
                assert forall|j: int| p < j < len implies path_lt(
                    path@,
                    (#[trigger] self@[j]).path@,
                ) by {
                    if self@[p as int].path@ != path@ {
                        lemma_path_lt_trans(path@, self@[p as int].path@, self@[j].path@);
                    }
                }
            }
            assert forall|j: int| 0 <= j < len && j != p implies #[trigger] self@[j].path@
                != path@ by {
                lemma_path_lt_total(self@[j].path@, self@[j].path@);
            }
        }
        if p < len && self.posts[p].path == path {
            return false;
        }
        let ghost before = self@;
        let post = BlogPost { path, initial: None, latest: None };
        self.posts.insert(p, post);
        assert(self@ =~= before.insert(p as int, BlogPost { path: path, initial: None, latest: None }));
        assert forall|i: int, j: int| 0 <= i < j < self@.len() implies path_lt(
            (#[trigger] self@[i]).path@,
            (#[trigger] self@[j]).path@,
        ) by {
            if i < p && j > p {
                lemma_path_lt_trans(self@[i].path@, path@, self@[j].path@);
            }
        }
        assert forall|i: int, j: int|
            0 <= i < self@.len() && 0 <= j < self@.len() && i != j implies (#[trigger] self@[i]).path@
            != (#[trigger] self@[j]).path@ by {
            if i < j {
                lemma_path_lt_total(self@[i].path@, self@[j].path@);
            } else {
                lemma_path_lt_total(self@[j].path@, self@[i].path@);
            }
        }
        true
    }

    /// Records a touch of the record at position `i` at `time` by `author`.
    pub fn touch(&mut self, i: usize, time: Time, author: Author)
        requires
            old(self).wf(),
            i < old(self)@.len(),
        ensures
            final(self).wf(),
            final(self)@ == old(self)@.update(i as int, old(self)@[i as int].after_touch(time, author)),
    {
        let ghost before = self@;
        let post = &mut self.posts[i];
        if post.initial.is_none() {
            post.initial = Some(time);
        }
        post.latest = Some(Touch { time, author });
        assert(self@ =~= before.update(i as int, before[i as int].after_touch(time, author)));
        assert forall|a: int, b: int|
            0 <= a < self@.len() && 0 <= b < self@.len() && a != b implies (#[trigger] self@[a]).path@
            != (#[trigger] self@[b]).path@ by {
            assert(self@[a].path == before[a].path);
            assert(self@[b].path == before[b].path);
        }
        assert forall|a: int, b: int| 0 <= a < b < self@.len() implies path_lt(
            (#[trigger] self@[a]).path@,
            (#[trigger] self@[b]).path@,
        ) by {
            assert(self@[a].path == before[a].path);
            assert(self@[b].path == before[b].path);
        }
    }
}

} // verus!
