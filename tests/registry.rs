use gitfeet::history::Commit;
use gitfeet::registry::{path_less, Author, BlogPosts};
use gitfeet::select::SelectError;
use gitfeet::time::Time;

fn touch(posts: &mut BlogPosts, path: &str, seconds: i64) {
    posts.apply_commit(&Commit {
        parent_count: 1,
        time: Time::new(seconds, 60),
        author: Author::new(Some("a".to_string()), None),
        changed: vec![path.to_string()],
    });
}

#[test]
fn duplicate_insert_is_refused() {
    let mut posts = BlogPosts::new();
    assert!(posts.insert_uninit("content/01.a.md".to_string()));
    assert!(!posts.insert_uninit("content/01.a.md".to_string()));
    assert_eq!(posts.len(), 1);
}

#[test]
fn records_are_kept_in_path_order() {
    let mut posts = BlogPosts::new();
    for p in ["content/03.c.md", "content/01.a.md", "content/02.b.md", "content/10.j.md"] {
        assert!(posts.insert_uninit(p.to_string()));
    }
    let paths: Vec<&str> = (0..posts.len()).map(|i| posts.get(i).path.as_str()).collect();
    assert_eq!(paths, vec!["content/01.a.md", "content/02.b.md", "content/03.c.md", "content/10.j.md"]);
    assert_eq!(posts.find(&"content/02.b.md".to_string()), Some(1));
    assert_eq!(posts.find(&"content/04.d.md".to_string()), None);
}

#[test]
fn path_order_is_lexicographic() {
    assert!(path_less("a", "b"));
    assert!(path_less("ab", "abc"));
    assert!(!path_less("abc", "ab"));
    assert!(!path_less("abc", "abc"));
    assert!(path_less("", "a"));
    assert!(path_less("Z", "a"));
    assert!(path_less("z", "\u{e9}"));
}

#[test]
fn selection_is_sorted_and_bounded() {
    let mut posts = BlogPosts::new();
    for p in ["a", "b", "c", "d", "e"] {
        posts.insert_uninit(p.to_string());
    }
    touch(&mut posts, "c", 10);
    touch(&mut posts, "a", 30);
    touch(&mut posts, "e", 20);
    touch(&mut posts, "b", 40);
    let top = posts.get_n_latest(3);
    let names: Vec<&str> = top.iter().map(|&i| posts.get(i).path.as_str()).collect();
    assert_eq!(names, vec!["b", "a", "e"]);
    let all = posts.get_n_latest(100);
    assert_eq!(all.len(), 4);
    assert!(posts.get_n_latest(0).is_empty());
}

#[test]
fn equal_times_follow_path_order() {
    let mut posts = BlogPosts::new();
    for p in ["c", "a", "b"] {
        posts.insert_uninit(p.to_string());
    }
    touch(&mut posts, "c", 5);
    touch(&mut posts, "b", 5);
    touch(&mut posts, "a", 5);
    let top = posts.get_n_latest(3);
    let names: Vec<&str> = top.iter().map(|&i| posts.get(i).path.as_str()).collect();
    assert_eq!(names, vec!["a", "b", "c"]);
}

#[test]
fn author_duplicate_is_equal() {
    let a = Author::new(Some("n".to_string()), None);
    let b = a.duplicate();
    assert_eq!(b.name.as_deref(), Some("n"));
    assert!(b.email.is_none());
}

#[test]
fn find_locates_every_record() {
    let mut posts = BlogPosts::new();
    let names: Vec<String> = (0..37).map(|k| format!("content/{:02}.post{}.md", (k * 7) % 37, k)).collect();
    for n in &names {
        assert!(posts.insert_uninit(n.clone()));
    }
    for n in &names {
        let i = posts.find(n).unwrap();
        assert_eq!(&posts.get(i).path, n);
    }
    assert_eq!(posts.find(&"content/99.none.md".to_string()), None);
    assert_eq!(posts.find(&"".to_string()), None);
}

#[test]
fn selection_is_repeatable() {
    let mut posts = BlogPosts::new();
    for p in ["x", "y", "z"] {
        posts.insert_uninit(p.to_string());
    }
    touch(&mut posts, "y", 3);
    touch(&mut posts, "z", 3);
    assert_eq!(posts.get_n_latest(2), posts.get_n_latest(2));
    assert_eq!(posts.get_n_latest(2), vec![1, 2]);
}

#[test]
fn selection_without_history_is_refused() {
    let mut posts = BlogPosts::new();
    assert_eq!(posts.select_latest(3), Ok(vec![]));
    posts.insert_uninit("a".to_string());
    posts.insert_uninit("b".to_string());
    assert!(!posts.any_touched());
    assert_eq!(posts.select_latest(3), Err(SelectError::NoHistory));
    assert_eq!(posts.select_latest(0), Err(SelectError::NoHistory));
    touch(&mut posts, "b", 7);
    assert!(posts.any_touched());
    assert_eq!(posts.select_latest(3), Ok(vec![1]));
    assert_eq!(posts.select_latest(0), Ok(vec![]));
}
