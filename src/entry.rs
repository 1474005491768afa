use vstd::prelude::*;
use vstd::string::{StrSliceExecFns, StringExecFns};
use crate::registry::BlogPost;
use crate::time::rfc3339_of;

verus! {

/// The position of the last `c` in `s`, or -1.
pub open spec fn last_index(s: Seq<char>, c: char) -> int
    decreases s.len(),
{
    if s.len() == 0 {
        -1
    } else if s.last() == c {
        s.len() - 1
    } else {
        last_index(s.drop_last(), c)
    }
}

/// The position of the first `c` in `s`, or -1.
pub open spec fn first_index(s: Seq<char>, c: char) -> int
    decreases s.len(),
{
    if s.len() == 0 {
        -1
    } else if first_index(s.drop_last(), c) >= 0 {
        first_index(s.drop_last(), c)
    } else if s.last() == c {
        s.len() - 1
    } else {
        -1
    }
}

/// The last component of a `/`-separated path.
pub open spec fn file_name(path: Seq<char>) -> Seq<char> {
    path.subrange(last_index(path, '/') + 1, path.len() as int)
}

/// A file name without its extension: the part before the last `.`, unless
/// that `.` opens the name.
pub open spec fn file_stem(name: Seq<char>) -> Seq<char> {
    if last_index(name, '.') > 0 {
        name.subrange(0, last_index(name, '.'))
    } else {
        name
    }
}

/// The title that a document path encodes: in a file name of the form
/// `NN.slug.ext`, the slug, that is the second `.`-separated field of the
/// file stem. `None` where the stem has no `.`.
pub open spec fn title_spec(path: Seq<char>) -> Option<Seq<char>> {
    let stem = file_stem(file_name(path));
    let d1 = first_index(stem, '.');
    if d1 < 0 {
        None
    } else {
        let rest = stem.subrange(d1 + 1, stem.len() as int);
        let d2 = first_index(rest, '.');
        Some(if d2 < 0 { rest } else { rest.subrange(0, d2) })
    }
}

proof fn lemma_last_index_bounds(s: Seq<char>, c: char)
    ensures
        -1 <= last_index(s, c) < s.len(),
        last_index(s, c) >= 0 ==> s[last_index(s, c)] == c,
    decreases s.len(),
{
    if s.len() > 0 {
        lemma_last_index_bounds(s.drop_last(), c);
    }
}

fn find_last(s: &str, c: char) -> (r: Option<usize>)
    ensures
        r matches Some(i) ==> i == last_index(s@, c),
        r is None ==> last_index(s@, c) == -1,
        r matches Some(i) ==> i < s@.len(),
{
    let n = s.unicode_len();
    let mut found: Option<usize> = None;
    let mut i: usize = 0;
    while i < n
        invariant
            n == s@.len(),
            i <= n,
            found matches Some(k) ==> k == last_index(s@.subrange(0, i as int), c) && k < i,
            found is None ==> last_index(s@.subrange(0, i as int), c) == -1,
        decreases n - i,
    {
        assert(s@.subrange(0, i + 1).drop_last() =~= s@.subrange(0, i as int));
        if s.get_char(i) == c {
            found = Some(i);
        }
        i = i + 1;
    }
    assert(s@.subrange(0, n as int) =~= s@);
    found
}

fn find_first(s: &str, c: char) -> (r: Option<usize>)
    ensures
        r matches Some(i) ==> i == first_index(s@, c),
        r is None ==> first_index(s@, c) == -1,
        r matches Some(i) ==> i < s@.len(),
{
    let n = s.unicode_len();
    let mut i: usize = 0;
    while i < n
        invariant
            n == s@.len(),
            i <= n,
            first_index(s@.subrange(0, i as int), c) == -1,
        decreases n - i,
    {
        assert(s@.subrange(0, i + 1).drop_last() =~= s@.subrange(0, i as int));
        if s.get_char(i) == c {
            proof {
                assert forall|j: int| i + 1 <= j <= n implies #[trigger] first_index(
                    s@.subrange(0, j),
                    c,
                ) == i by {
                    lemma_first_index_prefix(s@, c, i + 1, j);
                }
                assert(s@.subrange(0, n as int) =~= s@);
            }
            return Some(i);
        }
        i = i + 1;
    }
    assert(s@.subrange(0, n as int) =~= s@);
    None
}

/// Once a prefix holds `c`, longer prefixes have their first `c` at the same
/// place.
proof fn lemma_first_index_prefix(s: Seq<char>, c: char, i: int, j: int)
    requires
        0 < i <= j <= s.len(),
        first_index(s.subrange(0, i), c) >= 0,
    ensures
        first_index(s.subrange(0, j), c) == first_index(s.subrange(0, i), c),
    decreases j - i,
{
    if j > i {
        lemma_first_index_prefix(s, c, i, j - 1);
        assert(s.subrange(0, j).drop_last() =~= s.subrange(0, j - 1));
    }
}

/// The title that the path of a document encodes (see `title_spec`).
pub fn title_of(path: &str) -> (r: Option<String>)
    ensures
        r matches Some(t) ==> title_spec(path@) == Some(t@),
        r is None ==> title_spec(path@) is None,
{
    proof {
        lemma_last_index_bounds(path@, '/');
    }
    let len = path.unicode_len();
    let start = match find_last(path, '/') {
        Some(i) => i + 1,
        None => 0,
    };
    let name = path.substring_char(start, len);
    assert(name@ == file_name(path@));
    proof {
        lemma_last_index_bounds(name@, '.');
    }
    let stem = match find_last(name, '.') {
        Some(d) => if d > 0 {
            name.substring_char(0, d)
        } else {
            name
        },
        None => name,
    };
    assert(stem@ == file_stem(name@));
    let stem_len = stem.unicode_len();
    match find_first(stem, '.') {
        None => None,
        Some(d1) => {
            let rest = stem.substring_char(d1 + 1, stem_len);
            let rest_len = rest.unicode_len();
            let title = match find_first(rest, '.') {
                Some(d2) => rest.substring_char(0, d2),
                None => rest.substring_char(0, rest_len),
            };
            assert(rest@.subrange(0, rest_len as int) =~= rest@);
            Some(String::from_str(title))
        },
    }
}

/// The HTML that markdown text `md` renders to, with tables, footnotes,
/// strikethrough and task lists enabled.
pub uninterp spec fn html_of(md: Seq<char>) -> Seq<char>;

/// Relies on pulldown_cmark's `Parser::new_ext` and `html::push_html`: the
/// HTML depends on the text alone (the options are fixed here), and an empty
/// text renders to nothing.
#[verifier::external_body]
fn render_markdown(md: &str) -> (r: String)
    ensures
        r@ == html_of(md@),
        md@.len() == 0 ==> r@.len() == 0,
{
    let mut opts = pulldown_cmark::Options::empty();
    opts.insert(pulldown_cmark::Options::ENABLE_TABLES);
    opts.insert(pulldown_cmark::Options::ENABLE_FOOTNOTES);
    opts.insert(pulldown_cmark::Options::ENABLE_STRIKETHROUGH);
    opts.insert(pulldown_cmark::Options::ENABLE_TASKLISTS);
    let mut out = String::new();
    pulldown_cmark::html::push_html(&mut out, pulldown_cmark::Parser::new_ext(md, opts));
    out
}

/// Why a document cannot become a feed entry.
#[derive(Clone, Copy, Debug, PartialEq, Eq, Structural)]
pub enum EntryError {
    /// No commit has touched the document.
    Untouched,
    /// The author of its latest touch has no name.
    MissingAuthorName,
    /// The author of its latest touch has no email address.
    MissingAuthorEmail,
    /// Its file name encodes no title.
    BadTitle,
    /// One of its times cannot be written as RFC 3339 text.
    BadTime,
}

/// One entry of the feed.
#[derive(Debug)]
pub struct FeedEntry {
    pub id: String,
    pub title: String,
    pub updated: String,
    pub published: String,
    pub author_name: String,
    pub author_email: String,
    pub content: String,
    pub link: String,
}

/// The error, if any, that the record itself rules out an entry with; time
/// formatting aside.
pub open spec fn entry_error(post: BlogPost) -> Option<EntryError> {
    if !(post.initial is Some && post.latest is Some) {
        Some(EntryError::Untouched)
    } else if post.latest->Some_0.author.name is None {
        Some(EntryError::MissingAuthorName)
    } else if post.latest->Some_0.author.email is None {
        Some(EntryError::MissingAuthorEmail)
    } else if title_spec(post.path@) is None {
        Some(EntryError::BadTitle)
    } else {
        None
    }
}

/// `e` is the entry of `post`, with link `base + object_id`, the given times
/// and the given content.
pub open spec fn is_entry_of(
    e: FeedEntry,
    post: BlogPost,
    base: Seq<char>,
    object_id: Seq<char>,
    updated: Seq<char>,
    published: Seq<char>,
    content: Seq<char>,
) -> bool {
    &&& e.id@ == base + object_id
    &&& e.link@ == base + object_id
    &&& Some(e.title@) == title_spec(post.path@)
    &&& e.updated@ == updated
    &&& e.published@ == published
    &&& Some(e.author_name) == post.latest->Some_0.author.name
    &&& Some(e.author_email) == post.latest->Some_0.author.email
    &&& e.content@ == content
}

fn concat(a: &str, b: &str) -> (r: String)
    ensures
        r@ == a@ + b@,
{
    let mut s = String::from_str(a);
    s.append(b);
    s
}

/// Assembles the entry of `post` from its already formatted times and
/// rendered content. Record errors come first, in the order of
/// `entry_error`; then a missing time gives `BadTime`.
pub fn build_entry(
    post: &BlogPost,
    base: &str,
    object_id: &str,
    updated: Option<String>,
    published: Option<String>,
    content: String,
) -> (r: Result<FeedEntry, EntryError>)
    ensures
        entry_error(*post) matches Some(e) ==> r == Err::<FeedEntry, EntryError>(e),
        entry_error(*post) is None && (updated is None || published is None) ==> r == Err::<
            FeedEntry,
            EntryError,
        >(EntryError::BadTime),
        entry_error(*post) is None && updated is Some && published is Some ==> (r matches Ok(e)
            && is_entry_of(
            e,
            *post,
            base@,
            object_id@,
            updated->Some_0@,
            published->Some_0@,
            content@,
        )),
{
    if post.initial.is_none() {
        return Err(EntryError::Untouched);
    }
    let touch = match &post.latest {
        Some(t) => t,
        None => {
            return Err(EntryError::Untouched);
        },
    };
    let author_name = match &touch.author.name {
        Some(n) => n.clone(),
        None => {
            return Err(EntryError::MissingAuthorName);
        },
    };
    let author_email = match &touch.author.email {
        Some(m) => m.clone(),
        None => {
            return Err(EntryError::MissingAuthorEmail);
        },
    };
    let title = match title_of(post.path.as_str()) {
        Some(t) => t,
        None => {
            return Err(EntryError::BadTitle);
        },
    };
    let (updated, published) = match (updated, published) {
        (Some(u), Some(p)) => (u, p),
        _ => {
            return Err(EntryError::BadTime);
        },
    };
    let id = concat(base, object_id);
    let link = concat(base, object_id);
    Ok(FeedEntry { id, title, updated, published, author_name, author_email, content, link })
}

/// The feed entry of `post`: its times written as RFC 3339 text and its
/// markdown `body` rendered to HTML. Where the record allows an entry, the
/// only error left is `BadTime`, which comes where the formatter refuses a
/// time: always where an offset is out of range, never where both offsets and
/// both instants are in range.
pub fn make_entry(post: &BlogPost, base: &str, object_id: &str, body: &str) -> (r: Result<
    FeedEntry,
    EntryError,
>)
    ensures
        entry_error(*post) matches Some(e) ==> r == Err::<FeedEntry, EntryError>(e),
        entry_error(*post) is None ==> (r is Ok || r == Err::<FeedEntry, EntryError>(
            EntryError::BadTime,
        )),
        entry_error(*post) is None && !(post.latest->Some_0.time.offset_in_range()
            && post.initial->Some_0.offset_in_range()) ==> r == Err::<FeedEntry, EntryError>(
            EntryError::BadTime,
        ),
        entry_error(*post) is None && post.latest->Some_0.time.offset_in_range()
            && post.initial->Some_0.offset_in_range()
            && post.latest->Some_0.time.seconds_in_range()
            && post.initial->Some_0.seconds_in_range() ==> r is Ok,
        r matches Ok(e) ==> is_entry_of(
            e,
            *post,
            base@,
            object_id@,
            rfc3339_of(
                post.latest->Some_0.time.seconds as int,
                post.latest->Some_0.time.offset_minutes * 60,
            ),
            rfc3339_of(
                post.initial->Some_0.seconds as int,
                post.initial->Some_0.offset_minutes * 60,
            ),
            html_of(body@),
        ),
{
    let (updated, published) = match (&post.latest, &post.initial) {
        (Some(t), Some(i)) => (t.time.to_rfc3339(), i.to_rfc3339()),
        _ => (None, None),
    };
    let content = render_markdown(body);
    build_entry(post, base, object_id, updated, published, content)
}

} // verus!
