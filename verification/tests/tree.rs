//! The scanned tree: its totals, its order, and the ways through it.

use std::path::PathBuf;

use disktree::tree::totals::count;
use disktree::tree::{
    age_profile, aggregate, known_time, path_of, AgeProfile, Metric, Node,
    NodeKind,
};

const DAY: i64 = 86_400;

fn leaf(name: &str, bytes: u64) -> Node {
    Node::entry(name, NodeKind::File, bytes)
}

#[test]
fn placeholder_stamps_are_not_write_times() {
    assert!(!known_time(0), "never set");
    assert!(!known_time(1), "SOURCE_DATE_EPOCH=1");
    assert!(!known_time(315_532_800), "the zip epoch, 1980-01-01");
    assert!(!known_time(499_162_500), "npm's 1985-10-26 08:15");
    assert!(known_time(499_162_501));
    assert!(known_time(1_700_000_000), "2023");

    // A folder of only stamped files has no newest write to claim.
    let mut stamped = leaf("index.js", 10);
    stamped.modified = 499_162_500;
    let mut package = Node::directory("left-pad");
    package.children.push(stamped);
    aggregate(&mut package, Metric::Bytes);
    assert_eq!(package.modified, 0);
}

#[test]
fn an_age_profile_spreads_bytes_over_their_last_writes() {
    // Mid-2024, well clear of the placeholder stamps.
    let now = 19_900 * DAY;
    let written = |name, bytes, days_ago: i64| {
        let mut node = leaf(name, bytes);
        node.modified = now - days_ago * DAY;
        node
    };
    let mut root = Node::directory("root");
    let mut old = Node::directory("old");
    old.children.push(written("ancient.iso", 700, 800));
    old.children.push(written("last-year.zip", 200, 200));
    root.children.push(old);
    root.children.push(written("today.txt", 100, 0));
    root.children.push(leaf("unknown.bin", 50));
    aggregate(&mut root, Metric::Bytes);

    let profile = age_profile(&root, now, &[7, 365, i64::MAX]);
    assert_eq!(profile.bytes, vec![100, 200, 700]);
    assert_eq!(profile.total(), 1000, "no write time, not counted");
    assert_eq!(profile.oldest, now - 800 * DAY);
    assert_eq!(profile.newest, now);

    let file = written("one", 5, 30);
    let single = age_profile(&file, now, &[7, 365, i64::MAX]);
    assert_eq!(single.bytes, vec![0, 5, 0], "a file is its own profile");
}

#[test]
fn aggregate_derives_totals_and_orders_children() {
    let mut root = Node::directory("root");
    let mut nested = Node::directory("child");
    nested.children.push(leaf("deep", 7));
    root.children.push(nested);
    root.children.push(leaf("direct", 5));
    root.children.push(leaf("small", 9));

    aggregate(&mut root, Metric::Bytes);
    assert_eq!(root.own_bytes, 5 + 9, "direct leaves only");
    assert_eq!(root.bytes, 5 + 9 + 7);
    assert_eq!(root.files, 3);
    assert_eq!(root.own_files, 2);
    assert_eq!(root.dirs, 2);
    assert_eq!(child_named(&root, "child").own_bytes, 7);
    assert_eq!(&*root.children[0].name, "small", "9 bytes, largest first");
    assert_eq!(&*root.children[2].name, "direct");

    // A file's own size is what it weighs; aggregates never invent more.
    let mut single = leaf("solo", 3);
    aggregate(&mut single, Metric::Bytes);
    assert_eq!(single.bytes, 3);
    assert_eq!(single.own_bytes, 3);
    assert_eq!(single.files, 1);
    assert_eq!(single.dirs, 0);
}

fn child_named<'a>(node: &'a Node, name: &str) -> &'a Node {
    node.children
        .iter()
        .find(|child| &*child.name == name)
        .unwrap_or_else(|| panic!("no child named {name}"))
}

#[test]
fn aggregate_can_rank_by_file_count() {
    let mut root = Node::directory("root");
    let mut many = Node::directory("many");
    for index in 0..5 {
        many.children.push(leaf(&format!("f{index}"), 1));
    }
    root.children.push(many);
    root.children.push(leaf("huge", 10_000));

    aggregate(&mut root, Metric::Bytes);
    assert_eq!(&*root.children[0].name, "huge");
    aggregate(&mut root, Metric::Files);
    assert_eq!(&*root.children[0].name, "many");
    assert_eq!(root.children[0].files, 5);
}

#[test]
fn resolve_walks_child_indices() {
    let mut root = Node::directory("root");
    let mut nested = Node::directory("child");
    nested.children.push(leaf("deep", 1));
    root.children.push(nested);

    assert!(root.resolve(&[]).is_some());
    assert_eq!(root.resolve(&[0, 0]).map(|n| &*n.name), Some("deep"));
    assert!(root.resolve(&[0, 1]).is_none());
    assert_eq!(root.resolve_chain(&[0, 0]).len(), 3);
}

#[test]
fn path_of_joins_names_beneath_the_root() {
    let mut root = Node::directory("root");
    let mut nested = Node::directory("child");
    nested.children.push(leaf("deep", 1));
    root.children.push(nested);

    let home = ["/".to_string(), "home".to_string(), "tobi".to_string()];
    let path: PathBuf = path_of(&home, &root, &[0, 0]).iter().collect();
    assert_eq!(path, PathBuf::from("/home/tobi/child/deep"));
}

#[test]
fn largest_child_is_the_first_child_because_children_are_sorted() {
    let mut root = Node::directory("root");
    root.children.push(leaf("big", 10));
    root.children.push(leaf("small", 1));
    assert_eq!(root.largest_child(), Some(0));
    assert_eq!(Node::directory("empty").largest_child(), None);
}

#[test]
fn find_reports_crumbs_and_is_case_insensitive() {
    let mut root = Node::directory("root");
    let mut target = Node::directory("target");
    target.children.push(leaf("needle-file", 1));
    root.children.push(target);

    let (crumbs, found) = root.find("NEEDLE").expect("found");
    assert_eq!(crumbs, vec![0, 0]);
    assert_eq!(&*found.name, "needle-file");
    assert!(root.find("").is_none());
    assert!(root.find("absent").is_none());
}

#[test]
fn depth_counts_edges() {
    let mut root = Node::directory("root");
    let mut nested = Node::directory("child");
    nested.children.push(leaf("deep", 1));
    root.children.push(nested);
    assert_eq!(root.depth(), 2);
    assert_eq!(leaf("x", 0).depth(), 0);
}

fn family() -> Node {
    let mut root = Node::directory("root");
    let mut left = Node::directory("left");
    left.children.push(leaf("b", 4));
    left.children.push(leaf("a", 4));
    left.children.push(Node::directory("empty"));
    root.children.push(left);
    root.children.push(leaf("top", 6));
    root.children.push(Node::entry("link", NodeKind::Symlink, 2));
    root
}

#[test]
fn working_out_totals_again_changes_nothing() {
    let mut once = family();
    aggregate(&mut once, Metric::Bytes);
    let mut twice = once.clone();
    aggregate(&mut twice, Metric::Bytes);
    assert_eq!(format!("{once:?}"), format!("{twice:?}"));
    assert_eq!(
        (once.bytes, once.own_bytes, once.files, once.dirs),
        (16, 8, 3, 3)
    );
}

#[test]
fn the_metric_only_orders() {
    let mut by_bytes = family();
    let mut by_files = family();
    aggregate(&mut by_bytes, Metric::Bytes);
    aggregate(&mut by_files, Metric::Files);
    assert_eq!(by_bytes.bytes, by_files.bytes);
    assert_eq!(by_bytes.files, by_files.files);
    assert_eq!(by_bytes.dirs, by_files.dirs);
    assert_eq!(by_bytes.modified, by_files.modified);
    for (node, metric) in
        [(&by_bytes, Metric::Bytes), (&by_files, Metric::Files)]
    {
        for pair in node.children.windows(2) {
            assert!(pair[0].value(metric) >= pair[1].value(metric));
        }
    }
}

#[test]
fn what_weighs_the_same_is_ordered_by_name() {
    let mut root = family();
    aggregate(&mut root, Metric::Bytes);
    let left = child_named(&root, "left");
    let names: Vec<&str> =
        left.children.iter().map(|child| &*child.name).collect();
    assert_eq!(names, vec!["a", "b", "empty"]);
}

#[test]
fn a_folder_is_as_new_as_its_newest_file() {
    let mut root = Node::directory("root");
    for (name, modified) in
        [("old", 400_000_000), ("new", 1_700_000_000), ("stamp", 499_162_500)]
    {
        let mut file = leaf(name, 1);
        file.modified = modified;
        root.children.push(file);
    }
    aggregate(&mut root, Metric::Bytes);
    assert_eq!(root.modified, 1_700_000_000);
}

#[test]
fn totals_past_64_bits_are_not_counted() {
    let mut root = family();
    assert_eq!(count(&root), Some((16, 3, 3)));
    root.children.push(leaf("huge", u64::MAX));
    assert_eq!(count(&root), None);
}

#[test]
fn many_children_are_ordered_as_few_are() {
    let mut root = Node::directory("root");
    for index in 0..1000_u64 {
        root.children.push(leaf(&format!("f{index}"), index * 7919 % 101));
    }
    aggregate(&mut root, Metric::Bytes);
    assert_eq!(root.children.len(), 1000);
    for pair in root.children.windows(2) {
        assert!(
            (pair[1].bytes, &pair[0].name) < (pair[0].bytes, &pair[1].name)
        );
    }
}

#[test]
fn the_bands_hold_every_dated_byte_once() {
    let now = 19_900 * DAY;
    let mut root = Node::directory("root");
    for (bytes, days_ago) in [(1, -5), (2, 7), (4, 8), (8, 365), (16, 9000)] {
        let mut file = leaf("file", bytes);
        file.modified = now - days_ago * DAY;
        root.children.push(file);
    }
    let profile = age_profile(&root, now, &[7, 365]);
    assert_eq!(profile.bytes, vec![1 + 2, 4 + 8 + 16]);
    assert_eq!(profile.total(), 31);
    assert_eq!(profile.oldest, now - 9000 * DAY);
    assert_eq!(profile.newest, now + 5 * DAY);
    assert_eq!(age_profile(&root, now, &[]), AgeProfile::default());
    assert_eq!(age_profile(&root, i64::MIN, &[7]).bytes, vec![31]);
}

#[test]
fn the_nearest_match_is_found_first() {
    let mut root = Node::directory("root");
    let mut deep = Node::directory("deep");
    let mut deeper = Node::directory("deeper");
    deeper.children.push(leaf("needle-3", 1));
    deep.children.push(deeper);
    let mut near = Node::directory("near");
    near.children.push(leaf("x", 1));
    near.children.push(leaf("needle-2", 1));
    root.children.push(deep);
    root.children.push(near);

    let (crumbs, found) = root.find("needle").expect("found");
    assert_eq!(crumbs, vec![1, 1], "a level above the other");
    assert_eq!(&*found.name, "needle-2");
    let (crumbs, _) = root.find("dee").expect("found");
    assert_eq!(crumbs, vec![0]);
    assert!(root.find("root").is_none(), "only what is beneath");
}

#[test]
fn a_search_folds_case_beyond_ascii() {
    let mut root = Node::directory("root");
    root.children.push(leaf("Äpfel.txt", 1));
    assert_eq!(root.find("äPFEL").expect("found").0, vec![0]);
}

#[test]
fn a_search_can_take_names_by_any_rule() {
    let root = family();
    let (crumbs, found) =
        root.find_where(|name| name.len() == 1).expect("found");
    assert_eq!(crumbs, vec![0, 0]);
    assert_eq!(&*found.name, "b");
    assert!(root.find_where(|_| false).is_none());
}

#[test]
fn children_are_found_by_name_and_by_index() {
    let root = family();
    assert_eq!(&*root.child_named("top").expect("top").name, "top");
    assert!(root.child_named("Top").is_none());
    assert_eq!(&*root.child(2).expect("link").name, "link");
    assert!(root.child(3).is_none());
    assert!(root.is_dir());
    assert!(!root.children[2].is_dir());
    assert_eq!(root.resolve_chain(&[0, 7, 0]).len(), 2, "as far as it leads");
    assert_eq!(path_of(&[], &root, &[0, 7]), vec!["left".to_string()]);
}

#[test]
fn a_metric_has_a_label_and_another() {
    assert_eq!(Metric::default(), Metric::Bytes);
    assert_eq!(Metric::Bytes.label(), "size");
    assert_eq!(Metric::Files.label(), "files");
    assert_eq!(Metric::Bytes.toggled(), Metric::Files);
    assert_eq!(Metric::Files.toggled().toggled(), Metric::Files);
    assert_eq!(leaf("x", 9).value(Metric::Bytes), 9);
    assert_eq!(leaf("x", 9).value(Metric::Files), 1);
}

#[test]
fn a_clone_is_the_same_tree() {
    let mut root = family();
    root.children[1].inode = Some((1, 2));
    root.children[0].read_error = true;
    let copy = root.clone();
    assert_eq!(format!("{copy:?}"), format!("{root:?}"));
}

#[test]
fn an_earlier_order_leaves_no_trace() {
    let mut root = family();
    root.children.push(leaf("big", 900));
    let mut direct = root.clone();
    aggregate(&mut direct, Metric::Files);
    let mut detour = root;
    aggregate(&mut detour, Metric::Bytes);
    assert_ne!(format!("{direct:?}"), format!("{detour:?}"));
    aggregate(&mut detour, Metric::Files);
    assert_eq!(format!("{direct:?}"), format!("{detour:?}"));
}

#[test]
fn an_empty_needle_finds_nothing() {
    assert!(family().find("").is_none());
}
