use gitfeet::entry::{build_entry, make_entry, title_of, EntryError};
use gitfeet::registry::{Author, BlogPost, Touch};
use gitfeet::time::Time;

const BASE: &str = "https://example.org/read/";

fn post(path: &str, name: Option<&str>, email: Option<&str>, offset: i32) -> BlogPost {
    BlogPost {
        path: path.to_string(),
        initial: Some(Time::new(0, 0)),
        latest: Some(Touch {
            time: Time::new(86400, offset),
            author: Author::new(name.map(|s| s.to_string()), email.map(|s| s.to_string())),
        }),
    }
}

#[test]
fn title_is_second_field_of_stem() {
    assert_eq!(title_of("content/01.hello.md").as_deref(), Some("hello"));
    assert_eq!(title_of("content/01.hello.world.md").as_deref(), Some("hello"));
    assert_eq!(title_of("a/b/07.x.y").as_deref(), Some("x"));
    assert_eq!(title_of("07.slug.md").as_deref(), Some("slug"));
    assert_eq!(title_of("content/hello.md"), None);
    assert_eq!(title_of("content/.hidden").as_deref(), Some("hidden"));
    assert_eq!(title_of("content/"), None);
    assert_eq!(title_of("content/01..md").as_deref(), Some(""));
}

#[test]
fn times_are_rfc3339() {
    assert_eq!(Time::new(0, 0).to_rfc3339().as_deref(), Some("1970-01-01T00:00:00+00:00"));
    assert_eq!(Time::new(0, 90).to_rfc3339().as_deref(), Some("1970-01-01T01:30:00+01:30"));
    assert_eq!(Time::new(1431648000, -60).to_rfc3339().as_deref(), Some("2015-05-14T23:00:00-01:00"));
    assert_eq!(Time::new(0, 1440).to_rfc3339(), None);
    assert_eq!(Time::new(0, -1440).to_rfc3339(), None);
    assert_eq!(Time::new(i64::MAX, 0).to_rfc3339(), None);
}

#[test]
fn entry_is_assembled() {
    let e = make_entry(&post("content/01.hello.md", Some("Ann"), Some("ann@x"), 60), BASE, "abc123", "*hi*").unwrap();
    assert_eq!(e.id, "https://example.org/read/abc123");
    assert_eq!(e.link, e.id);
    assert_eq!(e.title, "hello");
    assert_eq!(e.updated, "1970-01-02T01:00:00+01:00");
    assert_eq!(e.published, "1970-01-01T00:00:00+00:00");
    assert_eq!(e.author_name, "Ann");
    assert_eq!(e.author_email, "ann@x");
    assert_eq!(e.content, "<p><em>hi</em></p>\n");
}

#[test]
fn markdown_extensions_are_enabled() {
    let e = make_entry(&post("content/01.t.md", Some("a"), Some("b"), 0), BASE, "1", "~~gone~~").unwrap();
    assert_eq!(e.content, "<p><del>gone</del></p>\n");
    let e = make_entry(&post("content/01.t.md", Some("a"), Some("b"), 0), BASE, "1", "").unwrap();
    assert_eq!(e.content, "");
}

#[test]
fn entry_errors() {
    let untouched = BlogPost { path: "content/01.a.md".to_string(), initial: None, latest: None };
    assert_eq!(make_entry(&untouched, BASE, "1", "x").err(), Some(EntryError::Untouched));
    assert_eq!(
        make_entry(&post("content/01.a.md", None, Some("e"), 0), BASE, "1", "x").err(),
        Some(EntryError::MissingAuthorName)
    );
    assert_eq!(
        make_entry(&post("content/01.a.md", Some("n"), None, 0), BASE, "1", "x").err(),
        Some(EntryError::MissingAuthorEmail)
    );
    assert_eq!(
        make_entry(&post("content/plain.md", Some("n"), Some("e"), 0), BASE, "1", "x").err(),
        Some(EntryError::BadTitle)
    );
    assert_eq!(
        make_entry(&post("content/01.a.md", Some("n"), Some("e"), 5000), BASE, "1", "x").err(),
        Some(EntryError::BadTime)
    );
}

#[test]
fn build_entry_needs_both_times() {
    let p = post("content/01.a.md", Some("n"), Some("e"), 0);
    let r = build_entry(&p, BASE, "1", Some("u".to_string()), None, String::new());
    assert_eq!(r.err(), Some(EntryError::BadTime));
    let e = build_entry(&p, BASE, "9", Some("u".to_string()), Some("p".to_string()), "c".to_string()).unwrap();
    assert_eq!((e.updated.as_str(), e.published.as_str(), e.content.as_str(), e.id.as_str()), ("u", "p", "c", "https://example.org/read/9"));
}

#[test]
fn times_within_range_are_formatted() {
    assert_eq!(Time::new(0, 60).to_rfc3339().as_deref(), Some("1970-01-01T01:00:00+01:00"));
    assert!(Time::new(8_000_000_000_000, 1439).to_rfc3339().is_some());
    assert!(Time::new(-8_000_000_000_000, -1439).to_rfc3339().is_some());
}
