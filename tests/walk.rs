use cleanup::depth::DepthLevel;
use cleanup::message::{render, Language, Message};
use cleanup::walk::{Child, Kind, Walker};

#[derive(Clone, Copy, PartialEq, Debug)]
enum Ent {
    File(u64),
    Dir,
    Link,
}

struct Tree {
    entries: Vec<(String, Ent)>,
}

impl Tree {
    fn new(entries: &[(&str, Ent)]) -> Tree {
        Tree {
            entries: entries.iter().map(|(p, e)| (p.to_string(), *e)).collect(),
        }
    }

    fn children_of(&self, dir: &str) -> Vec<(String, Ent)> {
        let prefix = format!("{}/", dir);
        self.entries
            .iter()
            .filter(|(p, _)| p.starts_with(&prefix) && !p[prefix.len()..].contains('/'))
            .cloned()
            .collect()
    }

    fn list(&self, dir: &str) -> Vec<Child> {
        self.children_of(dir)
            .into_iter()
            .map(|(path, e)| {
                let kind = match e {
                    Ent::File(len) => Kind::File(len),
                    Ent::Dir => Kind::Dir(self.children_of(&path).len()),
                    Ent::Link => Kind::Other,
                };
                Child { path, kind }
            })
            .collect()
    }

    fn has(&self, path: &str) -> bool {
        self.entries.iter().any(|(p, _)| p == path)
    }

    fn remove(&mut self, path: &str) {
        self.entries.retain(|(p, _)| p != path);
    }
}

fn run(tree: &mut Tree, bound: DepthLevel, lang: Language) -> Vec<String> {
    let mut w = Walker::new(bound, ".".to_string(), tree.list("."));
    let mut out = Vec::new();
    while !w.finished() {
        if let Some(m) = w.step() {
            out.push(render(lang, &m));
            match &m {
                Message::DirEntry(p) => {
                    let listing = tree.list(p);
                    w.enter(listing);
                }
                Message::FileRemove(p) | Message::DirRemove(p) => tree.remove(p),
                Message::DirLeave(_) => {}
            }
        }
    }
    out
}

#[test]
fn empty_file_removed_unbounded() {
    let mut t = Tree::new(&[("./a", Ent::File(0)), ("./b", Ent::File(5))]);
    let out = run(&mut t, DepthLevel::Infinity, Language::en_US);
    assert!(t.has("./b"));
    assert!(!t.has("./a"));
    assert_eq!(out, vec!["cleanup: Deleting file './a'".to_string()]);
}

#[test]
fn empty_directory_removed() {
    let mut t = Tree::new(&[
        ("./d", Ent::Dir),
        ("./e", Ent::Dir),
        ("./e/keep", Ent::File(3)),
    ]);
    let out = run(&mut t, DepthLevel::Infinity, Language::en_US);
    assert!(!t.has("./d"));
    assert!(t.has("./e"));
    assert!(t.has("./e/keep"));
    assert_eq!(
        out,
        vec![
            "cleanup: Deleting directory './d'".to_string(),
            "cleanup: Entering directory './e'".to_string(),
            "cleanup: Leaving directory './e'".to_string(),
        ]
    );
}

fn nested() -> Tree {
    Tree::new(&[("./x", Ent::Dir), ("./x/y", Ent::Dir), ("./x/y/z", Ent::File(0))])
}

#[test]
fn bound_one_denies_descent() {
    let mut t = nested();
    let out = run(&mut t, DepthLevel::Bound(1), Language::en_US);
    assert!(out.is_empty());
    assert_eq!(t.entries.len(), 3);
}

#[test]
fn bound_two_permits_one_level() {
    let mut t = nested();
    let out = run(&mut t, DepthLevel::Bound(2), Language::en_US);
    assert!(t.has("./x/y/z"));
    assert_eq!(
        out,
        vec![
            "cleanup: Entering directory './x'".to_string(),
            "cleanup: Leaving directory './x'".to_string(),
        ]
    );
}

#[test]
fn bound_three_reaches_the_file() {
    let mut t = nested();
    let out = run(&mut t, DepthLevel::Bound(3), Language::en_US);
    assert!(!t.has("./x/y/z"));
    assert!(t.has("./x/y"));
    assert_eq!(out.len(), 5);
    assert_eq!(out[2], "cleanup: Deleting file './x/y/z'");
}

#[test]
fn bound_zero_scans_only_the_start() {
    let mut t = Tree::new(&[("./a", Ent::File(0)), ("./x", Ent::Dir), ("./x/b", Ent::File(0))]);
    let out = run(&mut t, DepthLevel::Bound(0), Language::en_US);
    assert!(!t.has("./a"));
    assert!(t.has("./x/b"));
    assert_eq!(out, vec!["cleanup: Deleting file './a'".to_string()]);
}

#[test]
fn german_messages() {
    let mut t = Tree::new(&[("./a", Ent::File(0))]);
    let lang = Language::from_lang("de_DE.UTF-8");
    let out = run(&mut t, DepthLevel::Infinity, lang);
    assert_eq!(out, vec!["cleanup: Datei './a' wird gelöscht".to_string()]);
}

#[test]
fn emptied_directory_kept() {
    let mut t = Tree::new(&[("./p", Ent::Dir), ("./p/q", Ent::File(0))]);
    let out = run(&mut t, DepthLevel::Infinity, Language::en_US);
    assert!(!t.has("./p/q"));
    assert!(t.has("./p"));
    assert_eq!(
        out,
        vec![
            "cleanup: Entering directory './p'".to_string(),
            "cleanup: Deleting file './p/q'".to_string(),
            "cleanup: Leaving directory './p'".to_string(),
        ]
    );
}

#[test]
fn other_entries_ignored() {
    let mut t = Tree::new(&[("./l", Ent::Link), ("./s", Ent::File(1))]);
    let out = run(&mut t, DepthLevel::Infinity, Language::en_US);
    assert!(out.is_empty());
    assert!(t.has("./l"));
    assert!(t.has("./s"));
}

fn deep_tree() -> Tree {
    Tree::new(&[
        ("./a", Ent::File(0)),
        ("./b", Ent::File(7)),
        ("./c", Ent::Dir),
        ("./c/d", Ent::File(0)),
        ("./c/e", Ent::Dir),
        ("./c/f", Ent::Dir),
        ("./c/f/g", Ent::File(2)),
        ("./c/f/h", Ent::Dir),
        ("./c/f/h/i", Ent::File(0)),
        ("./c/f/h/j", Ent::Dir),
    ])
}

#[test]
fn nonempty_files_remain() {
    let mut t = deep_tree();
    run(&mut t, DepthLevel::Infinity, Language::en_US);
    assert!(t.has("./b"));
    assert!(t.has("./c/f/g"));
}

#[test]
fn empty_files_removed_once() {
    let mut t = deep_tree();
    let out = run(&mut t, DepthLevel::Infinity, Language::en_US);
    for f in ["./a", "./c/d", "./c/f/h/i"] {
        assert!(!t.has(f));
        let line = format!("cleanup: Deleting file '{}'", f);
        assert_eq!(out.iter().filter(|l| **l == line).count(), 1);
    }
}

#[test]
fn empty_directories_removed_once() {
    let mut t = deep_tree();
    let out = run(&mut t, DepthLevel::Infinity, Language::en_US);
    for d in ["./c/e", "./c/f/h/j"] {
        assert!(!t.has(d));
        let line = format!("cleanup: Deleting directory '{}'", d);
        assert_eq!(out.iter().filter(|l| **l == line).count(), 1);
    }
    assert!(t.has("./c"));
    assert!(t.has("./c/f"));
    assert!(t.has("./c/f/h"));
}

#[test]
fn entries_and_leaves_pair_up() {
    let mut t = deep_tree();
    let out = run(&mut t, DepthLevel::Infinity, Language::en_US);
    let mut open: Vec<String> = Vec::new();
    for l in &out {
        if let Some(rest) = l.strip_prefix("cleanup: Entering directory ") {
            open.push(rest.to_string());
        } else if let Some(rest) = l.strip_prefix("cleanup: Leaving directory ") {
            assert_eq!(open.pop(), Some(rest.to_string()));
        }
    }
    assert!(open.is_empty());
    assert_eq!(out.iter().filter(|l| l.contains("Entering")).count(), 3);
}

#[test]
fn depth_bound_limits_mutations() {
    let mut t = deep_tree();
    let out = run(&mut t, DepthLevel::Bound(2), Language::en_US);
    assert!(!t.has("./a"));
    assert!(!t.has("./c/d"));
    assert!(!t.has("./c/e"));
    assert!(t.has("./c/f/h/i"));
    assert!(t.has("./c/f/h/j"));
    for l in out.iter().filter(|l| l.contains("Deleting")) {
        let path = l.split('\'').nth(1).unwrap();
        assert!(path.matches('/').count() <= 2);
    }
}

#[test]
fn mutations_independent_of_locale() {
    let mut en = deep_tree();
    let mut de = deep_tree();
    let a = run(&mut en, DepthLevel::Infinity, Language::en_US);
    let b = run(&mut de, DepthLevel::Infinity, Language::de_DE);
    assert_eq!(en.entries, de.entries);
    assert_eq!(a.len(), b.len());
}

#[test]
fn walker_waits_for_listing() {
    let listing = vec![Child { path: "./x".to_string(), kind: Kind::Dir(1) }];
    let mut w = Walker::new(DepthLevel::Infinity, ".".to_string(), listing);
    assert!(!w.awaiting_listing());
    match w.step() {
        Some(Message::DirEntry(p)) => assert_eq!(p, "./x"),
        other => panic!("unexpected {:?}", other),
    }
    assert!(w.awaiting_listing());
    w.enter(Vec::new());
    assert!(!w.awaiting_listing());
    match w.step() {
        Some(Message::DirLeave(p)) => assert_eq!(p, "./x"),
        other => panic!("unexpected {:?}", other),
    }
    assert!(w.step().is_none());
    assert!(w.finished());
    assert!(w.step().is_none());
}
