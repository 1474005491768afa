use gitfeet::history::Commit;
use gitfeet::registry::{Author, BlogPosts};
use gitfeet::time::Time;

fn author(name: &str) -> Author {
    Author::new(Some(name.to_string()), Some(format!("{}@example.org", name)))
}

fn commit(parents: usize, seconds: i64, who: &str, changed: &[&str]) -> Commit {
    Commit {
        parent_count: parents,
        time: Time::new(seconds, 0),
        author: author(who),
        changed: changed.iter().map(|s| s.to_string()).collect(),
    }
}

fn registry(paths: &[&str]) -> BlogPosts {
    let mut posts = BlogPosts::new();
    for p in paths {
        assert!(posts.insert_uninit(p.to_string()));
    }
    posts
}

fn position(posts: &BlogPosts, path: &str) -> usize {
    posts.find(&path.to_string()).unwrap()
}

#[test]
fn three_commit_history() {
    let hello = "content/01.hello.md";
    let world = "content/02.world.md";
    let mut posts = registry(&[hello, world]);
    let commits = vec![
        commit(0, 50, "root", &["README"]),
        commit(1, 100, "alice", &[hello]),
        commit(1, 200, "bob", &[hello]),
        commit(1, 300, "carol", &[world]),
    ];
    posts.walk(&commits);
    let h = posts.get(position(&posts, hello));
    assert_eq!(h.initial, Some(Time::new(100, 0)));
    let latest = h.latest.as_ref().unwrap();
    assert_eq!(latest.time, Time::new(200, 0));
    assert_eq!(latest.author.name.as_deref(), Some("bob"));
    let top = posts.get_n_latest(2);
    let paths: Vec<&str> = top.iter().map(|&i| posts.get(i).path.as_str()).collect();
    assert_eq!(paths, vec![world, hello]);
}

#[test]
fn untouched_path_is_not_selected() {
    let mut posts = registry(&["content/01.a.md", "content/02.b.md", "content/03.c.md"]);
    let commits = vec![
        commit(0, 10, "root", &["content/03.c.md"]),
        commit(1, 20, "alice", &["content/01.a.md"]),
        commit(2, 30, "merger", &["content/02.b.md"]),
    ];
    posts.walk(&commits);
    let top = posts.get_n_latest(10);
    assert_eq!(top, vec![position(&posts, "content/01.a.md")]);
    assert!(!posts.get(position(&posts, "content/02.b.md")).is_touched());
    assert!(!posts.get(position(&posts, "content/03.c.md")).is_touched());
}

#[test]
fn merge_commit_changes_nothing() {
    let p = "content/01.a.md";
    let mut posts = registry(&[p]);
    posts.apply_commit(&commit(1, 10, "alice", &[p]));
    posts.apply_commit(&commit(2, 99, "merger", &[p]));
    let rec = posts.get(0);
    assert_eq!(rec.initial, Some(Time::new(10, 0)));
    let latest = rec.latest.as_ref().unwrap();
    assert_eq!(latest.time, Time::new(10, 0));
    assert_eq!(latest.author.name.as_deref(), Some("alice"));
}

#[test]
fn root_commit_changes_nothing() {
    let p = "content/01.a.md";
    let mut posts = registry(&[p]);
    posts.apply_commit(&commit(0, 10, "root", &[p]));
    assert!(posts.get(0).initial.is_none());
    assert!(posts.get(0).latest.is_none());
}

#[test]
fn first_touch_is_kept() {
    let p = "content/01.a.md";
    let mut posts = registry(&[p]);
    let commits = vec![
        commit(1, 10, "alice", &[p]),
        commit(1, 20, "bob", &[p]),
        commit(1, 30, "carol", &["other", p]),
    ];
    for (k, c) in commits.iter().enumerate() {
        posts.apply_commit(c);
        assert_eq!(posts.get(0).initial, Some(Time::new(10, 0)), "after commit {}", k);
    }
}

#[test]
fn last_touch_is_last_qualifying_commit() {
    let p = "content/01.a.md";
    let mut posts = registry(&[p, "content/02.b.md"]);
    let commits = vec![
        commit(1, 10, "alice", &[p]),
        commit(1, 20, "bob", &[p]),
        commit(1, 30, "carol", &["content/02.b.md"]),
        commit(2, 40, "merger", &[p]),
    ];
    posts.walk(&commits);
    let latest = posts.get(0).latest.as_ref().unwrap();
    assert_eq!(latest.time, Time::new(20, 0));
    assert_eq!(latest.author.email.as_deref(), Some("bob@example.org"));
}

#[test]
fn path_listed_twice_in_one_commit() {
    let p = "content/01.a.md";
    let mut posts = registry(&[p]);
    posts.apply_commit(&commit(1, 10, "alice", &[p, p]));
    assert_eq!(posts.get(0).initial, Some(Time::new(10, 0)));
    assert_eq!(posts.get(0).latest.as_ref().unwrap().time, Time::new(10, 0));
}

#[test]
fn untracked_paths_are_ignored() {
    let mut posts = registry(&["content/01.a.md"]);
    posts.walk(&vec![commit(1, 10, "alice", &["src/main.rs", "content/01.a"])]);
    assert!(!posts.get(0).is_touched());
}

#[test]
fn empty_history_leaves_all_untouched() {
    let mut posts = registry(&["content/01.a.md", "content/02.b.md"]);
    posts.walk(&Vec::new());
    assert!(posts.get_n_latest(5).is_empty());
}
