//! Paths in one spelling.

use std::path::{Component, Path};

use disktree::paths::{
    canonical, prefix_root, simplify, split, NoDrive, PathParts, Prefix,
};

fn parts(path: &Path) -> PathParts {
    PathParts {
        text: path.to_string_lossy().into_owned(),
        prefix: None,
        rooted: path.has_root(),
        names: path
            .components()
            .filter_map(|component| match component {
                Component::Normal(name) => {
                    Some(name.to_string_lossy().into_owned())
                }
                _ => None,
            })
            .collect(),
    }
}

fn windows(text: &str, prefix: Prefix, names: &[&str]) -> PathParts {
    PathParts {
        text: text.to_string(),
        prefix: Some(prefix),
        rooted: true,
        names: names.iter().map(|name| name.to_string()).collect(),
    }
}

fn share() -> Prefix {
    Prefix::VerbatimUnc {
        host: "nas".to_string(),
        share: "home".to_string(),
    }
}

#[test]
fn unix_paths_pass_through() {
    let path = parts(Path::new("/home/tobi/.cache"));
    assert_eq!(simplify(&path), "/home/tobi/.cache");
    assert_eq!(prefix_root(&path), None);
}

#[test]
fn verbatim_prefixes_are_dropped() {
    let disk = windows(
        r"\\?\C:\Users\tobi",
        Prefix::VerbatimDisk('C'),
        &["Users", "tobi"],
    );
    assert_eq!(simplify(&disk), r"C:\Users\tobi");
    let network = windows(r"\\?\UNC\nas\home\tobi", share(), &["tobi"]);
    assert_eq!(simplify(&network), r"\\nas\home\tobi");
    assert_eq!(prefix_root(&disk), Some(r"C:\".to_string()));
}

#[test]
fn a_canonical_path_compares_with_the_home_directory() {
    let temp = tempfile::tempdir().expect("tempdir");
    let resolved = temp.path().canonicalize().expect("canonical");
    let canonical = canonical(&parts(temp.path()), Some(&parts(&resolved)));
    assert!(Path::new(&canonical).is_absolute(), "{canonical}");
    assert!(!canonical.starts_with(r"\\?\"), "{canonical}");
}

#[test]
fn a_path_that_cannot_be_resolved_stays_as_it_is() {
    let path = windows(
        r"\\?\C:\gone",
        Prefix::VerbatimDisk('C'),
        &["gone"],
    );
    assert_eq!(canonical(&path, None), r"\\?\C:\gone");
    assert_eq!(canonical(&path, Some(&path)), r"C:\gone");
}

#[test]
fn a_volume_has_one_top_however_it_is_spelled() {
    let usual = windows(r"C:\x", Prefix::Disk('C'), &["x"]);
    let verbatim = windows(r"\\?\C:\x", Prefix::VerbatimDisk('C'), &["x"]);
    assert_eq!(prefix_root(&usual), prefix_root(&verbatim));
    assert_eq!(simplify(&usual), simplify(&verbatim));
    let network = windows(r"\\?\UNC\nas\home", share(), &[]);
    assert_eq!(prefix_root(&network), Some(r"\\nas\home\".to_string()));
    let device = windows(r"\\.\COM1", Prefix::Other(r"\\.\COM1".into()), &[]);
    assert_eq!(simplify(&device), r"\\.\COM1");
    assert_eq!(prefix_root(&device), Some(r"\\.\COM1\".to_string()));
}

#[test]
fn what_does_not_start_at_the_top_is_joined_as_it_stands() {
    let mut disk = windows(r"\\?\C:", Prefix::VerbatimDisk('C'), &[]);
    disk.rooted = false;
    assert_eq!(simplify(&disk), "C:");
    disk.names = vec!["x".to_string()];
    assert_eq!(simplify(&disk), "C:x");
    let mut network = windows(r"\\?\UNC\nas\home", share(), &["x"]);
    network.rooted = false;
    assert_eq!(simplify(&network), r"\\nas\home\x");
}

#[test]
fn only_a_local_drive_has_a_file_table() {
    let disk = windows(r"D:\a\b", Prefix::Disk('D'), &["a", "b"]);
    assert_eq!(
        split(&disk),
        Ok(('D', vec!["a".to_string(), "b".to_string()]))
    );
    let network = windows(r"\\?\UNC\nas\home", share(), &[]);
    assert_eq!(split(&network), Err(NoDrive::NotLocal));
    let unix = parts(Path::new("/home"));
    assert_eq!(split(&unix), Err(NoDrive::NotADrivePath));
}

#[test]
fn only_names_of_directories_lead_down_a_drive() {
    let names = ["a", ".", "b", "..", "...", ".c"];
    let disk = windows(r"D:\a\.\b\..\...\.c", Prefix::Disk('D'), &names);
    let (letter, below) = split(&disk).expect("a drive");
    assert_eq!(letter, 'D');
    assert_eq!(below, vec!["a", "b", "...", ".c"]);
}
