//! What command lines ask for.

use disktree::args::{choose_root, parse_args, Args, ArgsError, Request};
use disktree::scan::{FileTable, ScanOptions};
use disktree::tree::Metric;

fn asked(words: &[&str]) -> Result<Request, ArgsError> {
    let words: Vec<String> = words.iter().map(|word| word.to_string()).collect();
    parse_args(&words)
}

fn run(words: &[&str]) -> Args {
    match asked(words).expect("a run") {
        Request::Run(args) => args,
        Request::Help => panic!("no run"),
    }
}

fn wrong(words: &[&str]) -> String {
    asked(words).expect_err("an error").what()
}

#[test]
fn nothing_asks_for_the_home_directory() {
    let args = run(&[]);
    assert_eq!(args.root, None);
    assert!(!args.disk);
    assert_eq!(args.depth, 3);
    assert_eq!(args.options, ScanOptions::default());
}

#[test]
fn each_switch_sets_its_option() {
    let args = run(&["-a", "-l", "-H", "-X", "-W", "--metric", "files", "/x"]);
    assert_eq!(
        args.options,
        ScanOptions {
            apparent_size: true,
            follow_links: true,
            include_hidden: false,
            one_filesystem: false,
            file_table: FileTable::Never,
            metric: Metric::Files,
            ..ScanOptions::default()
        }
    );
    assert_eq!(args.root.as_deref(), Some("/x"));
    let long = run(&[
        "--apparent-size",
        "--follow-links",
        "--no-hidden",
        "--cross-filesystems",
        "--walk",
        "--metric",
        "size",
        "--one-filesystem",
        "--disk",
        "--depth",
        "+6",
    ]);
    assert!(long.disk && long.options.one_filesystem);
    assert_eq!((long.depth, long.options.metric), (6, Metric::Bytes));
}

#[test]
fn help_wins_over_what_follows_it() {
    assert!(matches!(asked(&["-a", "-h", "--bogus"]), Ok(Request::Help)));
    assert!(asked(&["--bogus", "--help"]).is_err());
}

#[test]
fn what_is_wrong_is_said() {
    assert_eq!(wrong(&["-d"]), "--depth needs a number");
    assert_eq!(wrong(&["-d", "three"]), "--depth needs a number");
    assert_eq!(wrong(&["-d", ""]), "--depth needs a number");
    assert_eq!(wrong(&["-d", "+"]), "--depth needs a number");
    assert_eq!(wrong(&["-d", "-1"]), "--depth needs a number");
    assert_eq!(wrong(&["-d", "4294967296"]), "--depth needs a number");
    assert_eq!(wrong(&["-d", "4294967295"]), "--depth must be 1 to 6");
    assert_eq!(wrong(&["--depth", "0"]), "--depth must be 1 to 6");
    assert_eq!(wrong(&["--depth", "7"]), "--depth must be 1 to 6");
    assert_eq!(wrong(&["--metric"]), "--metric needs a value");
    assert_eq!(
        wrong(&["--metric", "age"]),
        "unknown metric age; try bytes or files"
    );
    assert_eq!(wrong(&["--bogus"]), "unknown option --bogus");
    assert_eq!(wrong(&["-"]), "unknown option -");
    assert_eq!(wrong(&["a", "b"]), "only one path can be scanned");
    assert_eq!(
        wrong(&["a", "-D"]),
        "--disk and a PATH cannot be combined"
    );
}

#[test]
fn the_root_is_what_was_asked_for_or_the_home() {
    let home = || Some("/home/tobi".to_string());
    let volume = || Some("/".to_string());
    let root = |args: &Args| choose_root(args, home(), volume(), "\\");
    assert_eq!(root(&run(&["/x"])).expect("a root"), "/x");
    assert_eq!(root(&run(&[])).expect("a root"), "/home/tobi");
    assert_eq!(root(&run(&["-D"])).expect("a root"), "/");
    let bare = choose_root(&run(&["-D"]), None, None, "\\");
    assert_eq!(bare.expect("a root"), "\\");
    let error = choose_root(&run(&[]), None, volume(), "\\");
    assert_eq!(
        error.expect_err("no home").what(),
        "no path given and no home directory is set"
    );
}
