//! A scan written to a cache and read back.

use disktree::cache::cursor::LONGEST_NAME;
use disktree::cache::places::{choose_base, Base};
use disktree::cache::pruning::KEEP;
use disktree::cache::{
    cacheable, file_name, key, load, save, stale, CacheError, Reader, Writer,
};
use disktree::classify::{Category, Reclaim};
use disktree::scan::ScanOptions;
use disktree::tree::{aggregate, Metric, Node, NodeKind};

const ROOT: &str = "/tmp/fixture";

fn file(name: &str, bytes: u64) -> Node {
    let mut node = Node::entry(name, NodeKind::File, bytes);
    node.modified = 1_700_000_000 + bytes as i64;
    node
}

fn dir(name: &str, children: Vec<Node>) -> Node {
    let mut node = Node::directory(name);
    node.children = children;
    node
}

fn fixture() -> Node {
    let mut root = dir(
        "fixture",
        vec![
            dir(
                "a",
                vec![
                    file("one.bin", 1_000),
                    dir("b", vec![file("two.bin", 20_000)]),
                ],
            ),
            dir(".cache", vec![file("big.bin", 300_000)]),
            file("naïve name.txt", 10),
        ],
    );
    aggregate(&mut root, options().metric);
    classified(root)
}

/// What is in `.cache` is cache, and comes back; all else in `a` is code.
fn classify(node: &mut Node, category: Category, reclaim: Option<Reclaim>) {
    let (category, reclaim) = match &*node.name {
        ".cache" => (Category::Cache, Some(Reclaim::Regenerable)),
        "a" => (Category::Code, reclaim),
        _ => (category, reclaim),
    };
    node.category = category;
    node.reclaim = reclaim;
    for child in &mut node.children {
        classify(child, category, reclaim);
    }
}

fn classified(mut tree: Node) -> Node {
    classify(&mut tree, Category::Other, None);
    tree
}

fn options() -> ScanOptions {
    ScanOptions {
        apparent_size: true,
        ..ScanOptions::default()
    }
}

fn same_tree(left: &Node, right: &Node) {
    assert_eq!(left.name, right.name);
    assert_eq!(left.kind, right.kind);
    assert_eq!(left.bytes, right.bytes, "{}", left.name);
    assert_eq!(left.files, right.files, "{}", left.name);
    assert_eq!(left.dirs, right.dirs, "{}", left.name);
    assert_eq!(left.modified, right.modified, "{}", left.name);
    assert_eq!(left.category, right.category, "{}", left.name);
    assert_eq!(left.reclaim, right.reclaim, "{}", left.name);
    assert_eq!(left.children.len(), right.children.len(), "{}", left.name);
    for (left, right) in left.children.iter().zip(&right.children) {
        same_tree(left, right);
    }
}

#[test]
fn a_saved_scan_reads_back_as_the_same_tree() {
    let tree = fixture();
    let bytes = save(ROOT, &options(), &tree, 1234);
    let cached = load(&bytes, ROOT, &options(), classified)
        .expect("load")
        .expect("a cache");

    assert_eq!(cached.saved_at, 1234);
    same_tree(&cached.tree, &tree);
}

#[test]
fn other_options_or_roots_do_not_see_the_cache() {
    let bytes = save(ROOT, &options(), &fixture(), 1);

    let on_disk = ScanOptions {
        apparent_size: false,
        ..options()
    };
    assert!(load(&bytes, ROOT, &on_disk, classified).expect("ok").is_none());
    let elsewhere = format!("{ROOT}/a");
    assert!(load(&bytes, &elsewhere, &options(), classified).expect("ok").is_none());
}

#[test]
fn the_metric_is_applied_on_load() {
    let bytes = save(ROOT, &options(), &fixture(), 1);

    let by_files = ScanOptions {
        metric: Metric::Files,
        ..options()
    };
    let cached = load(&bytes, ROOT, &by_files, classified)
        .expect("load")
        .expect("the same cache: the metric only orders");
    assert_eq!(&*cached.tree.children[0].name, "a", "two files beat one");
}

#[test]
fn a_damaged_cache_is_an_error_not_a_tree() {
    let bytes = save(ROOT, &options(), &fixture(), 1);
    let half = &bytes[..bytes.len() / 2];
    assert!(load(half, ROOT, &options(), classified).is_err());

    assert!(matches!(
        load(b"not a cache at all", ROOT, &options(), classified),
        Ok(None) | Err(_)
    ));
}

#[test]
fn only_the_most_recent_caches_are_kept() {
    let written: Vec<i128> = (0..KEEP as i128 + 3).collect();
    let gone = stale(&written);
    assert_eq!(written.len() - gone.len(), KEEP);
    assert_eq!(gone, vec![2, 1, 0]);
}

#[test]
fn varints_round_trip_at_the_edges() {
    for value in [0, 1, 127, 128, 16_383, 16_384, u64::MAX] {
        let mut writer = Writer::new();
        writer.varint(value);
        let bytes = writer.into_bytes();
        assert_eq!(Reader::new(&bytes[..]).varint().expect("read"), value);
    }
    for value in [0, -1, 1, i64::MIN, i64::MAX] {
        let mut writer = Writer::new();
        writer.signed(value);
        let bytes = writer.into_bytes();
        assert_eq!(Reader::new(&bytes[..]).signed().expect("read"), value);
    }
}

#[test]
fn numbers_are_as_short_as_they_can_be() {
    let mut writer = Writer::new();
    writer.varint(300);
    writer.signed(-1);
    writer.signed(1);
    writer.string("né");
    writer.byte(9);
    assert_eq!(
        writer.into_bytes(),
        vec![0xac, 0x02, 1, 2, 3, b'n', 0xc3, 0xa9, 9]
    );
}

#[test]
fn a_cache_cut_anywhere_is_an_error() {
    let bytes = save(ROOT, &options(), &fixture(), -7);
    for length in 0..bytes.len() {
        let cut = load(&bytes[..length], ROOT, &options(), classified);
        assert_eq!(cut.err(), Some(CacheError::Truncated), "{length}");
    }
    let mut longer = bytes;
    longer.push(0);
    assert!(load(&longer, ROOT, &options(), classified).expect("ok").is_some());
}

#[test]
fn everything_off_is_named() {
    let mut reader = Reader::new(&[0xff; 11]);
    assert_eq!(reader.varint(), Err(CacheError::NumberTooLong));
    let mut last = Reader::new(&[0xff, 0xff, 0xff, 0xff, 0xff, 0xff, 0xff, 0xff, 0xff, 0x7f]);
    assert_eq!(last.varint(), Ok(u64::MAX), "only the lowest bit is left");
    let mut reader = Reader::new(&[]);
    assert_eq!(reader.byte(), Err(CacheError::Truncated));

    let mut writer = Writer::new();
    writer.varint(LONGEST_NAME as u64 + 1);
    let long = writer.into_bytes();
    assert_eq!(Reader::new(&long).string(), Err(CacheError::NameTooLong));
    assert_eq!(Reader::new(&[2, b'a']).string(), Err(CacheError::Truncated));
    let not_text = Reader::new(&[1, 0xff]).string();
    assert_eq!(not_text, Err(CacheError::NameNotUtf8));

    let kind = Reader::new(&[4, 1, b'a', 0]).node(0);
    assert_eq!(kind.err(), Some(CacheError::UnknownKind));
    let deep = Reader::new(&[0, 1, b'a', 0]).node(4097);
    assert_eq!(deep.err(), Some(CacheError::TooDeep));
    let deepest = Reader::new(&[0, 1, b'a', 0]).node(usize::MAX);
    assert_eq!(deepest.err(), Some(CacheError::TooDeep));
    assert!(Reader::new(&[0, 1, b'a', 0]).node(4096).is_ok());

    let mut heavy = dir("", vec![file("", 1), file("", 1)]);
    heavy.children[0].own_bytes = u64::MAX;
    heavy.children[1].own_bytes = u64::MAX;
    let bytes = save(ROOT, &options(), &heavy, 1);
    let result = load(&bytes, ROOT, &options(), classified);
    assert_eq!(result.err(), Some(CacheError::TooLarge));
}

#[test]
fn every_error_has_words() {
    let words = CacheError::NumberTooLong.what();
    assert_eq!(words, "cache: a number runs past 64 bits");
    let words = CacheError::NameTooLong.what();
    assert_eq!(words, "cache: a name longer than any filesystem allows");
    let words = CacheError::NameNotUtf8.what();
    assert_eq!(words, "cache: a name is not UTF-8");
    let words = CacheError::NameLongerThanMemory.what();
    assert_eq!(words, "cache: a name longer than memory");
}

#[test]
fn another_version_is_not_read() {
    let mut bytes = save(ROOT, &options(), &fixture(), 1);
    assert_eq!(&bytes[..5], b"DTRC\x01");
    bytes[4] = 2;
    assert!(load(&bytes, ROOT, &options(), classified).expect("ok").is_none());
}

#[test]
fn what_could_not_be_read_is_remembered() {
    let mut tree = dir("root", vec![dir("locked", vec![])]);
    tree.children[0].read_error = true;
    aggregate(&mut tree, Metric::Bytes);
    let bytes = save(ROOT, &options(), &tree, 1);
    let cached = load(&bytes, ROOT, &options(), classified)
        .expect("load")
        .expect("a cache");
    assert!(cached.tree.children[0].read_error);
    assert!(!cached.tree.read_error);
}

#[test]
fn a_key_says_what_was_measured() {
    assert_eq!(
        key("/home", &options()),
        "/home\0apparent=true hidden=true one_fs=true follow=false dedup=true"
    );
    let by_files = ScanOptions {
        metric: Metric::Files,
        max_depth: Some(2),
        ..options()
    };
    assert_eq!(key("/home", &options()), key("/home", &by_files));
    let names = [
        ScanOptions::default(),
        options(),
        ScanOptions {
            include_hidden: false,
            ..options()
        },
        ScanOptions {
            one_filesystem: false,
            ..options()
        },
        ScanOptions {
            follow_links: true,
            ..options()
        },
        ScanOptions {
            dedup_hardlinks: false,
            ..options()
        },
    ]
    .map(|options| key("/home", &options));
    for (index, name) in names.iter().enumerate() {
        assert!(!names[..index].contains(name), "{name}");
    }
}

#[test]
fn a_file_name_is_the_hash_of_its_key() {
    assert_eq!(file_name(""), "cbf29ce484222325.tree");
    assert_eq!(file_name("a"), "af63dc4c8601ec8c.tree");
    assert_eq!(file_name("foobar"), "85944171f73967e8.tree");
}

#[test]
fn only_whole_trees_are_worth_caching() {
    assert!(cacheable(&options()));
    let shallow = ScanOptions {
        max_depth: Some(3),
        ..options()
    };
    assert!(!cacheable(&shallow));
}

#[test]
fn the_oldest_caches_go_first() {
    let written = [5, 50, 5, 40, 30, 20, 60, 70, 80, 90, -3];
    assert_eq!(stale(&written), vec![0, 2, 10]);
    assert!(stale(&written[..8]).is_empty());
}

#[test]
fn caches_live_below_an_absolute_directory() {
    let (yes, no) = (Some(true), Some(false));
    assert_eq!(choose_base(true, yes, yes, yes), Some(Base::Local));
    assert_eq!(choose_base(true, no, yes, yes), None);
    assert_eq!(choose_base(true, None, yes, yes), None);
    assert_eq!(choose_base(false, yes, yes, yes), Some(Base::CacheHome));
    assert_eq!(choose_base(false, yes, no, yes), Some(Base::Home));
    assert_eq!(choose_base(false, yes, None, yes), Some(Base::Home));
    assert_eq!(choose_base(false, yes, no, no), None);
    assert_eq!(choose_base(false, yes, None, None), None);
    assert_eq!(Base::Local.way(), vec!["disktree", "cache"]);
    assert_eq!(Base::CacheHome.way(), vec!["disktree"]);
    assert_eq!(Base::Home.way(), vec![".cache", "disktree"]);
}

#[test]
fn another_scan_sees_nothing_whatever_is_in_the_tree() {
    // A name too long to be read back, and a root with a NUL in it.
    let tree = dir(&"x".repeat(LONGEST_NAME + 1), vec![]);
    let root = "/a\0apparent=true";
    let bytes = save(root, &options(), &tree, 1);
    assert_eq!(
        load(&bytes, root, &options(), classified).err(),
        Some(CacheError::NameTooLong)
    );
    assert!(load(&bytes, "/a", &options(), classified).expect("ok").is_none());
    let follow = ScanOptions {
        follow_links: true,
        ..options()
    };
    assert!(load(&bytes, root, &follow, classified).expect("ok").is_none());
}

#[test]
fn the_rules_of_the_version_that_reads_are_applied_on_load() {
    let bytes = save(ROOT, &options(), &fixture(), 1);
    let cached = load(&bytes, ROOT, &options(), classified)
        .expect("load")
        .expect("a cache");
    let cache = cached.tree.child_named(".cache").expect(".cache");
    assert_eq!(cache.children[0].category, Category::Cache);
    assert_eq!(cache.children[0].reclaim, Some(Reclaim::Regenerable));

    let bare = load(&bytes, ROOT, &options(), |tree| tree)
        .expect("load")
        .expect("a cache");
    let cache = bare.tree.child_named(".cache").expect(".cache");
    assert_eq!(cache.category, Category::Other, "nothing of it is stored");
    assert_eq!(cache.reclaim, None);
}
