//! Filtering a tree by name, by kind and by age.

use disktree::classify::{Category, Reclaim};
use disktree::filter::{
    contains_ignoring_case, filter, filter_name, filter_query, Keep, Matches,
    Query,
};
use disktree::tree::{aggregate, Metric, Node, NodeKind};

const DAY: i64 = 86_400;

fn file(name: &str, bytes: u64) -> Node {
    Node::entry(name, NodeKind::File, bytes)
}

fn dir(name: &str, children: Vec<Node>) -> Node {
    let mut node = Node::directory(name);
    node.children = children;
    node
}

fn tree() -> Node {
    let mut root = dir(
        "root",
        vec![
            dir(
                "src",
                vec![
                    dir("App", vec![file("main.rs", 10)]),
                    file("notes", 5),
                ],
            ),
            dir(
                "apps",
                vec![file("x", 100), dir("apple", vec![file("y", 7)])],
            ),
            file("readme", 1),
        ],
    );
    aggregate(&mut root, Metric::Bytes);
    root
}

fn crumbs_of(root: &Node, names: &[&str]) -> Vec<usize> {
    let mut node = root;
    names
        .iter()
        .map(|name| {
            let index = node
                .children
                .iter()
                .position(|child| &*child.name == *name)
                .expect("present");
            node = &node.children[index];
            index
        })
        .collect()
}

#[test]
fn matches_are_kept_whole_and_their_ancestors_by_what_matched() {
    let root = tree();
    let found = filter(&root, &[], "APP").expect("a needle");
    assert_eq!(found.count, 2, "src/App and apps; apple is inside apps");
    assert_eq!(found.bytes, 10 + 107);
    assert_eq!(found.keep(&crumbs_of(&root, &["apps"])), Some(Keep::Whole));
    assert_eq!(
        found.keep(&crumbs_of(&root, &["apps", "x"])),
        Some(Keep::Whole),
        "inside a match"
    );
    assert_eq!(
        found.keep(&crumbs_of(&root, &["src"])),
        Some(Keep::Partial {
            bytes: 10,
            files: 1
        })
    );
    assert_eq!(found.keep(&crumbs_of(&root, &["src", "notes"])), None);
    assert_eq!(found.keep(&crumbs_of(&root, &["readme"])), None);
}

#[test]
fn a_search_below_the_root_leaves_the_rest_alone() {
    let root = tree();
    let src = crumbs_of(&root, &["src"]);
    let found = filter(root.resolve(&src).expect("src"), &src, "main")
        .expect("needle");
    assert_eq!(found.keep(&crumbs_of(&root, &["apps"])), Some(Keep::Whole));
    assert_eq!(found.keep(&crumbs_of(&root, &["src", "notes"])), None);
    assert_eq!(
        found.keep(&src),
        Some(Keep::Partial {
            bytes: 10,
            files: 1
        })
    );
}

#[test]
fn an_empty_needle_filters_nothing() {
    assert!(filter(&tree(), &[], "  ").is_none());
    let found = filter(&tree(), &[], "zzz").expect("needle");
    assert_eq!(found.count, 0);
    assert!(found.keep.is_empty());
}

#[test]
fn case_is_ignored_without_allocating() {
    assert!(contains_ignoring_case("Cargo.TOML", "toml"));
    assert!(!contains_ignoring_case("ab", "abc"));
    assert!(contains_ignoring_case("x", ""));
}

/// Colour a node and everything under it, as classify's inheritance
/// would.
fn paint(mut node: Node, category: Category) -> Node {
    colour(&mut node, category);
    node
}

fn colour(node: &mut Node, category: Category) {
    node.category = category;
    for child in &mut node.children {
        colour(child, category);
    }
}

/// A checkout with `node_modules` inside, a plain source folder, and a
/// photo.
fn kinds() -> Node {
    let repo = dir(
        "repo",
        vec![
            file("main.rs", 10),
            paint(
                dir("node_modules", vec![file("lib.js", 50)]),
                Category::Toolchain,
            ),
        ],
    );
    let mut root = dir(
        "root",
        vec![
            paint(repo, Category::Code),
            paint(dir("src", vec![file("a.rs", 20)]), Category::Code),
            paint(file("photo.jpg", 5), Category::Media),
        ],
    );
    // The override the inheritance allows: node_modules stays a
    // toolchain inside a code folder.
    let modules = crumbs_of(&root, &["repo", "node_modules"]);
    root.children[modules[0]].children[modules[1]] = paint(
        dir("node_modules", vec![file("lib.js", 50)]),
        Category::Toolchain,
    );
    aggregate(&mut root, Metric::Bytes);
    root
}

#[test]
fn a_category_keeps_its_files_and_leaves_out_what_overrides_it() {
    let root = kinds();
    let code =
        filter_query(&root, &[], Query::Category(Category::Code), "Code");
    assert_eq!(code.bytes, 30, "main.rs and a.rs, not lib.js");
    assert_eq!(code.count, 2, "main.rs, and src as one place");
    let repo = crumbs_of(&root, &["repo"]);
    assert_eq!(
        code.keep(&repo),
        Some(Keep::Partial {
            bytes: 10,
            files: 1
        }),
        "the checkout, without its node_modules"
    );
    assert_eq!(
        code.keep(&crumbs_of(&root, &["repo", "node_modules"])),
        None
    );
    assert_eq!(code.keep(&crumbs_of(&root, &["src"])), Some(Keep::Whole));
    assert_eq!(code.keep(&crumbs_of(&root, &["photo.jpg"])), None);
    assert_eq!(code.needle, "Code");
}

#[test]
fn reclaimable_space_is_kept_whole_where_it_starts() {
    let mut cache = dir("cache", vec![file("blob", 40), file("more", 2)]);
    cache.reclaim = Some(Reclaim::Regenerable);
    for child in &mut cache.children {
        child.reclaim = Some(Reclaim::Regenerable);
    }
    let mut root = dir("root", vec![cache, file("keep", 9)]);
    aggregate(&mut root, Metric::Bytes);
    let found = filter_query(&root, &[], Query::Reclaimable, "Reclaimable");
    assert_eq!((found.bytes, found.count), (42, 1));
    assert_eq!(
        found.keep(&crumbs_of(&root, &["cache"])),
        Some(Keep::Whole)
    );
}

#[test]
fn an_age_band_keeps_files_by_their_last_write() {
    // Mid-2024, well clear of the placeholder stamps.
    let now = 19_900 * DAY;
    let written = |name, bytes, days_ago: i64| {
        let mut node = file(name, bytes);
        node.modified = now - days_ago * DAY;
        node
    };
    let mut root = dir(
        "root",
        vec![
            dir("old", vec![written("a", 70, 800), written("b", 30, 400)]),
            dir("mixed", vec![written("c", 5, 500), written("d", 1, 2)]),
            file("undated", 3),
        ],
    );
    aggregate(&mut root, Metric::Bytes);
    let older = Query::Age {
        now,
        after: 365,
        through: i64::MAX,
    };
    let found = filter_query(&root, &[], older, "Older");
    assert_eq!(found.bytes, 105);
    assert_eq!(found.keep(&crumbs_of(&root, &["old"])), Some(Keep::Whole));
    assert_eq!(
        found.keep(&crumbs_of(&root, &["mixed"])),
        Some(Keep::Partial { bytes: 5, files: 1 })
    );
    assert_eq!(found.keep(&crumbs_of(&root, &["undated"])), None);
}

#[test]
fn white_space_and_case_around_a_needle_do_not_count() {
    let root = tree();
    let found = filter(&root, &[], " \t ApP\u{a0}").expect("a needle");
    assert_eq!(found.needle, "app");
    assert_eq!((found.bytes, found.files, found.count), (117, 3, 2));
    let inner = filter(&root, &[], "a b").expect("a needle");
    assert_eq!(inner.needle, "a b", "only the ends are trimmed");
}

#[test]
fn a_needle_in_lower_case_is_looked_for_as_it_is() {
    let root = tree();
    let found = filter_name(&root, &[], "APP".to_string()).expect("it fits");
    assert_eq!(found.count, 0, "names are read in lower case");
    let found = filter_name(&root, &[], "app".to_string()).expect("it fits");
    assert_eq!(found.count, 2);
}

#[test]
fn a_view_outside_the_search_is_untouched_whatever_was_found() {
    let root = tree();
    let src = crumbs_of(&root, &["src"]);
    let node = root.resolve(&src).expect("src");
    let found = filter(node, &src, "zzz").expect("a needle");
    assert_eq!(found.keep(&[]), Some(Keep::Whole), "above the base");
    assert_eq!(
        found.keep(&src),
        Some(Keep::Partial { bytes: 0, files: 0 })
    );
    let mut below = src.clone();
    below.push(0);
    assert_eq!(found.keep(&below), None);
    assert_eq!(found.keep(&[usize::MAX]), Some(Keep::Whole));
}

#[test]
fn numbers_that_do_not_fit_are_not_found() {
    let mut root = dir("root", vec![file("app", 1), file("apple", 1)]);
    root.children[0].bytes = u64::MAX;
    assert!(filter(&root, &[], "app").is_none());
    assert!(filter(&root, &[], "apple").is_some());
}

#[test]
fn a_kept_node_is_laid_out_by_what_is_kept_of_it() {
    let node = file("x", 7);
    let part = Keep::Partial { bytes: 3, files: 2 };
    assert_eq!(Matches::value(Keep::Whole, &node, Metric::Bytes), 7);
    assert_eq!(Matches::value(Keep::Whole, &node, Metric::Files), 1);
    assert_eq!(Matches::value(part, &node, Metric::Bytes), 3);
    assert_eq!(Matches::value(part, &node, Metric::Files), 2);
}

#[test]
fn a_folder_of_which_every_file_matches_stands_for_them() {
    let mut root = dir(
        "root",
        vec![
            dir(
                "all",
                vec![
                    paint(file("a", 3), Category::Media),
                    dir("in", vec![paint(file("b", 4), Category::Media)]),
                    dir("empty", vec![]),
                ],
            ),
            dir("none", vec![file("c", 5)]),
        ],
    );
    aggregate(&mut root, Metric::Bytes);
    let query = Query::Category(Category::Media);
    let found = filter_query(&root, &[], query, "Media");
    assert_eq!((found.bytes, found.files, found.count), (7, 2, 1));
    let all = crumbs_of(&root, &["all"]);
    assert_eq!(found.keep.len(), 1, "the folder and nothing in it");
    assert_eq!(found.keep.get(&all), Some(&Keep::Whole));
    assert_eq!(
        found.keep(&crumbs_of(&root, &["all", "in", "b"])),
        Some(Keep::Whole)
    );
    assert_eq!(found.keep(&crumbs_of(&root, &["none"])), None);
}

#[test]
fn a_part_is_never_larger_than_the_whole() {
    let root = kinds();
    let found =
        filter_query(&root, &[], Query::Category(Category::Code), "Code");
    assert!(found.bytes <= root.bytes && found.files <= root.files);
    for (crumbs, keep) in &found.keep {
        let node = root.resolve(crumbs).expect("a node");
        if let Keep::Partial { bytes, files } = keep {
            assert!(*bytes <= node.bytes && *files <= node.files);
        }
    }
}

#[test]
fn an_age_is_judged_by_known_times_alone() {
    let now = 19_900 * DAY;
    let mut stamped = file("stamped", 2);
    stamped.modified = 499_162_500;
    let mut fresh = file("fresh", 3);
    fresh.modified = now + DAY;
    let root = dir("root", vec![stamped, fresh]);
    let young = Query::Age {
        now,
        after: -1,
        through: 0,
    };
    let found = filter_query(&root, &[], young, "Today");
    assert_eq!((found.bytes, found.count), (3, 1));
    let start = Query::Age {
        now: i64::MIN,
        after: -1,
        through: 0,
    };
    assert_eq!(filter_query(&root, &[], start, "").bytes, 3);
    assert!(young.takes_file(&root.children[1]));
}

#[test]
fn nothing_is_kept_by_default() {
    let none = Matches::default();
    assert!(none.keep.is_empty());
    assert_eq!(
        none.keep(&[]),
        Some(Keep::Partial { bytes: 0, files: 0 })
    );
}

#[test]
fn what_is_kept_of_a_folder_is_what_is_kept_of_its_children() {
    let root = tree();
    let found = filter(&root, &[], "app").expect("a needle");
    let mut parents = vec![Vec::new()];
    while let Some(crumbs) = parents.pop() {
        let node = root.resolve(&crumbs).expect("a node");
        let Some(Keep::Partial { bytes, files }) = found.keep(&crumbs) else {
            continue;
        };
        let (mut sum, mut count) = (0, 0);
        for (index, child) in node.children.iter().enumerate() {
            let mut way = crumbs.clone();
            way.push(index);
            if let Some(keep) = found.keep(&way) {
                sum += Matches::value(keep, child, Metric::Bytes);
                count += Matches::value(keep, child, Metric::Files);
            }
            parents.push(way);
        }
        assert_eq!((sum, count), (bytes, files), "{crumbs:?}");
    }
}

#[test]
fn a_match_inside_a_match_is_not_counted_again() {
    let root = tree();
    let found = filter(&root, &[], "app").expect("a needle");
    let whole = found.keep.values().filter(|keep| **keep == Keep::Whole);
    assert_eq!(whole.count(), found.count);
    assert_eq!(found.count, 2, "apps and App, not apps/apple");
}

#[test]
fn a_match_is_kept_whole_whatever_it_weighs() {
    let mut root = dir(
        "root",
        vec![
            dir("src", vec![dir("App", vec![]), file("main.rs", 3)]),
            dir("docs", vec![dir("empty", vec![])]),
        ],
    );
    aggregate(&mut root, Metric::Bytes);
    let found = filter(&root, &[], "app").expect("a needle");
    assert_eq!((found.count, found.bytes, found.files), (1, 0, 0));
    let src = crumbs_of(&root, &["src"]);
    let app = crumbs_of(&root, &["src", "App"]);
    assert_eq!(found.keep(&app), Some(Keep::Whole));
    assert_eq!(
        found.keep(&src),
        Some(Keep::Partial { bytes: 0, files: 0 }),
        "it holds a match"
    );
    assert_eq!(found.keep(&crumbs_of(&root, &["src", "main.rs"])), None);
    assert_eq!(found.keep(&crumbs_of(&root, &["docs"])), None);
}

#[test]
fn an_empty_folder_below_an_unmatched_one_is_found() {
    let mut root = dir("root", vec![dir("src", vec![dir("App", vec![])])]);
    aggregate(&mut root, Metric::Bytes);
    let found = filter(&root, &[], "app").expect("a needle");
    assert_eq!(found.count, 1);
    assert_eq!(found.keep(&[0, 0]), Some(Keep::Whole));
}

#[test]
fn a_file_of_a_kind_is_kept_whatever_it_weighs() {
    let link = Node::entry("link", NodeKind::Symlink, 0);
    let mut root = dir(
        "root",
        vec![
            dir("mixed", vec![paint(link.clone(), Category::Media), file("c", 5)]),
            dir("links", vec![paint(link, Category::Media)]),
            dir("none", vec![dir("empty", vec![])]),
        ],
    );
    aggregate(&mut root, Metric::Bytes);
    let query = Query::Category(Category::Media);
    let found = filter_query(&root, &[], query, "Media");
    assert_eq!((found.count, found.bytes, found.files), (2, 0, 0));
    let at = |names: &[&str]| found.keep(&crumbs_of(&root, names));
    assert_eq!(at(&["links"]), Some(Keep::Whole), "it stands for its file");
    assert_eq!(at(&["links", "link"]), Some(Keep::Whole));
    assert_eq!(at(&["mixed"]), Some(Keep::Partial { bytes: 0, files: 0 }));
    assert_eq!(at(&["mixed", "link"]), Some(Keep::Whole));
    assert_eq!(at(&["mixed", "c"]), None);
    assert_eq!(at(&["none"]), None, "nothing in it matched");
}
