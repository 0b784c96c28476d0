//! The few path facts that differ between Unix and Windows.
//!
//! Everything else in the crate compares paths lexically, so the one rule
//! that matters is that every path it compares is spelled the same way:
//! canonical, and on Windows without the `\\?\` prefix that resolving a path
//! adds, which the home directory, the environment and the user never write.

use vstd::prelude::*;
use vstd::string::StringExecFns;

use crate::text;
use crate::text::{same, string_of};

verus! {

/// What a Windows path can start with.
#[derive(Debug)]
pub enum Prefix {
    /// `C:`.
    Disk(char),
    /// `\\?\C:`.
    VerbatimDisk(char),
    /// `\\?\UNC\host\share`.
    VerbatimUnc { host: String, share: String },
    /// Anything else, as it is written.
    Other(String),
}

/// What a [`Prefix`] is.
pub enum PrefixModel {
    Disk(char),
    VerbatimDisk(char),
    VerbatimUnc { host: Seq<char>, share: Seq<char> },
    Other(Seq<char>),
}

impl View for Prefix {
    type V = PrefixModel;

    open spec fn view(&self) -> PrefixModel {
        match self {
            Prefix::Disk(letter) => PrefixModel::Disk(*letter),
            Prefix::VerbatimDisk(letter) => PrefixModel::VerbatimDisk(*letter),
            Prefix::VerbatimUnc { host, share } => PrefixModel::VerbatimUnc {
                host: host@,
                share: share@,
            },
            Prefix::Other(text) => PrefixModel::Other(text@),
        }
    }
}

/// A path, and what the platform takes it apart into.
#[derive(Debug)]
pub struct PathParts {
    /// The path as it is written.
    pub text: String,
    /// What it starts with; no Unix path has one.
    pub prefix: Option<Prefix>,
    /// Whether the names start at the top.
    pub rooted: bool,
    pub names: Vec<String>,
}

/// What a [`PathParts`] says.
pub struct PathModel {
    pub text: Seq<char>,
    pub prefix: Option<PrefixModel>,
    pub rooted: bool,
    pub names: Seq<Seq<char>>,
}

impl View for PathParts {
    type V = PathModel;

    open spec fn view(&self) -> PathModel {
        PathModel {
            text: self.text@,
            prefix: match self.prefix {
                Some(prefix) => Some(prefix@),
                None => None,
            },
            rooted: self.rooted,
            names: text::texts(self.names@),
        }
    }
}

/// `names` with a backslash between each two of them.
pub open spec fn joined(names: Seq<Seq<char>>) -> Seq<char>
    decreases names.len(),
{
    if names.len() == 0 {
        Seq::empty()
    } else if names.len() == 1 {
        names[0]
    } else {
        joined(names.drop_last()) + "\\"@ + names.last()
    }
}

/// `letter:`.
pub open spec fn drive(letter: char) -> Seq<char> {
    seq![letter] + ":"@
}

/// `\\host\share`.
pub open spec fn network_share(host: Seq<char>, share: Seq<char>) -> Seq<char> {
    "\\\\"@ + host + "\\"@ + share
}

/// The names of `path` behind `head`. A drive and names that do not start at
/// its top have no backslash between them.
pub open spec fn behind(head: Seq<char>, is_drive: bool, path: PathModel) -> Seq<char> {
    if path.rooted || path.names.len() > 0 && !is_drive {
        head + "\\"@ + joined(path.names)
    } else {
        head + joined(path.names)
    }
}

/// `path` without the verbatim prefix it starts with, if it does.
pub open spec fn simplified(path: PathModel) -> Seq<char> {
    match path.prefix {
        Some(PrefixModel::VerbatimDisk(letter)) => behind(drive(letter), true, path),
        Some(PrefixModel::VerbatimUnc { host, share }) => behind(
            network_share(host, share),
            false,
            path,
        ),
        _ => path.text,
    }
}

/// How `path` is spelled, `resolved` being what resolving it gave, if it did.
pub open spec fn settled(path: PathModel, resolved: Option<PathModel>) -> Seq<char> {
    match resolved {
        Some(resolved) => simplified(resolved),
        None => path.text,
    }
}

/// The top of the volume that `path` is on.
pub open spec fn volume_top(path: PathModel) -> Option<Seq<char>> {
    match path.prefix {
        Some(PrefixModel::Disk(letter)) => Some(drive(letter) + "\\"@),
        Some(PrefixModel::VerbatimDisk(letter)) => Some(drive(letter) + "\\"@),
        Some(PrefixModel::VerbatimUnc { host, share }) => Some(network_share(host, share) + "\\"@),
        Some(PrefixModel::Other(text)) => Some(text + "\\"@),
        None => None,
    }
}

/// `names` with a backslash between each two of them.
fn join(names: &Vec<String>) -> (path: String)
    ensures
        path@ == joined(text::texts(names@)),
{
    let mut path = String::new();
    let mut done: usize = 0;
    let ghost all = text::texts(names@);
    assert(all.take(0) =~= Seq::empty());
    assert(path@ =~= joined(all.take(0)));
    while done < names.len()
        invariant
            done <= names@.len(),
            all == text::texts(names@),
            path@ == joined(all.take(done as int)),
        decreases names@.len() - done,
    {
        proof {
            let more = all.take(done + 1);
            assert(more.drop_last() =~= all.take(done as int));
            assert(more.last() == names@[done as int]@);
        }
        let ghost before = path@;
        if done > 0 {
            path.append("\\");
        }
        path.append(names[done].as_str());
        assert(path@ =~= joined(all.take(done + 1)));
        done = done + 1;
    }
    assert(all.take(done as int) =~= all);
    path
}

fn drive_text(letter: char) -> (text: String)
    ensures
        text@ == drive(letter),
{
    let mut letters: Vec<char> = Vec::new();
    letters.push(letter);
    let mut text = string_of(&letters);
    text.append(":");
    assert(text@ =~= drive(letter));
    text
}

fn share_text(host: &String, share: &String) -> (text: String)
    ensures
        text@ == network_share(host@, share@),
{
    let mut text = String::new();
    text.append("\\\\");
    text.append(host.as_str());
    text.append("\\");
    text.append(share.as_str());
    assert(text@ =~= network_share(host@, share@));
    text
}

/// The names of `path` behind `head`.
fn put_behind(head: String, is_drive: bool, path: &PathParts) -> (text: String)
    ensures
        text@ == behind(head@, is_drive, path@),
{
    let mut text = head;
    if path.rooted || path.names.len() > 0 && !is_drive {
        text.append("\\");
    }
    text.append(join(&path.names).as_str());
    text
}

/// `path` resolved through symlinks, or `path` itself when that fails, in
/// the spelling the rest of the app uses. `resolved` is what resolving it
/// gave.
pub fn canonical(path: &PathParts, resolved: Option<&PathParts>) -> (text: String)
    ensures
        text@ == settled(
            path@,
            match resolved {
                Some(resolved) => Some(resolved@),
                None => None,
            },
        ),
{
    match resolved {
        Some(resolved) => simplify(resolved),
        None => path.text.clone(),
    }
}

/// Drop the verbatim prefix from `\\?\C:\x` and `\\?\UNC\host\share\x`, so
/// they compare equal to `C:\x` and `\\host\share\x`. Anything else,
/// including every Unix path, is returned unchanged.
pub fn simplify(path: &PathParts) -> (text: String)
    ensures
        text@ == simplified(path@),
{
    match &path.prefix {
        Some(Prefix::VerbatimDisk(letter)) => put_behind(drive_text(*letter), true, path),
        Some(Prefix::VerbatimUnc { host, share }) => put_behind(
            share_text(host, share),
            false,
            path,
        ),
        _ => path.text.clone(),
    }
}

/// The top of the volume `path` is on, lexically: `C:\` for `C:\Users\x`,
/// `\\host\share\` for a share. `None` for a path with no prefix, which is
/// every Unix path; there the mount table answers instead.
pub fn prefix_root(path: &PathParts) -> (root: Option<String>)
    ensures
        match root {
            Some(root) => volume_top(path@) == Some(root@),
            None => volume_top(path@) is None,
        },
{
    let mut root = match &path.prefix {
        Some(Prefix::Disk(letter)) => drive_text(*letter),
        Some(Prefix::VerbatimDisk(letter)) => drive_text(*letter),
        Some(Prefix::VerbatimUnc { host, share }) => share_text(host, share),
        Some(Prefix::Other(text)) => text.clone(),
        None => return None,
    };
    root.append("\\");
    Some(root)
}

/// Why a path has no drive whose file table could be read.
#[derive(Clone, Copy, Debug, PartialEq, Eq, Structural)]
pub enum NoDrive {
    NotLocal,
    NotADrivePath,
}

/// `names` without `.` and `..`, which name nothing.
pub open spec fn normal(names: Seq<Seq<char>>) -> Seq<Seq<char>>
    decreases names.len(),
{
    if names.len() == 0 {
        Seq::empty()
    } else {
        let before = normal(names.drop_last());
        if names.last() == "."@ || names.last() == ".."@ {
            before
        } else {
            before.push(names.last())
        }
    }
}

/// The drive that `path` is on, and the directory names below its root; or
/// why there is none.
pub open spec fn drive_of(path: PathModel) -> Result<(char, Seq<Seq<char>>), NoDrive> {
    match path.prefix {
        Some(PrefixModel::Disk(letter)) => Ok((letter, normal(path.names))),
        Some(PrefixModel::VerbatimDisk(letter)) => Ok((letter, normal(path.names))),
        Some(_) => Err(NoDrive::NotLocal),
        None => Err(NoDrive::NotADrivePath),
    }
}

/// The drive letter, and the directory names below its root; `.` and `..`
/// name no directory.
pub fn split(root: &PathParts) -> (drive: Result<(char, Vec<String>), NoDrive>)
    ensures
        match drive_of(root@) {
            Ok((letter, names)) => drive matches Ok((found, below)) && found == letter
                && text::texts(below@) == names,
            Err(why) => drive matches Err(found) && found == why,
        },
{
    let letter = match &root.prefix {
        Some(Prefix::Disk(letter)) => *letter,
        Some(Prefix::VerbatimDisk(letter)) => *letter,
        Some(_) => return Err(NoDrive::NotLocal),
        None => return Err(NoDrive::NotADrivePath),
    };
    let ghost all = text::texts(root.names@);
    let mut names: Vec<String> = Vec::new();
    let mut done: usize = 0;
    assert(all.take(0) =~= Seq::empty());
    assert(text::texts(names@) =~= Seq::empty());
    while done < root.names.len()
        invariant
            done <= root.names@.len(),
            all == text::texts(root.names@),
            text::texts(names@) == normal(all.take(done as int)),
        decreases root.names@.len() - done,
    {
        let name = root.names[done].as_str();
        assert(all.take(done + 1).drop_last() =~= all.take(done as int));
        if !same(name, ".") && !same(name, "..") {
            let ghost before = names@;
            names.push(root.names[done].clone());
            assert(text::texts(names@) =~= text::texts(before).push(name@));
        }
        done = done + 1;
    }
    assert(all.take(done as int) =~= all);
    Ok((letter, names))
}

/// A path is spelled one way: what a drive's verbatim path is simplified to
/// is what that drive's own path says, and its volume is the same.
pub proof fn lemma_one_spelling(
    letter: char,
    names: Seq<Seq<char>>,
    verbatim: PathModel,
    usual: PathModel,
)
    requires
        verbatim.prefix == Some(PrefixModel::VerbatimDisk(letter)),
        usual.prefix == Some(PrefixModel::Disk(letter)),
        verbatim.rooted && verbatim.names == names,
        usual.text == drive(letter) + "\\"@ + joined(names),
    ensures
        simplified(verbatim) == simplified(usual),
        volume_top(verbatim) == volume_top(usual),
{
}

/// A network path is spelled one way, too: what a share's verbatim path is
/// simplified to is what that share's own path says, and its volume is the
/// same.
pub proof fn lemma_one_share_spelling(
    host: Seq<char>,
    share: Seq<char>,
    names: Seq<Seq<char>>,
    verbatim: PathModel,
    usual: PathModel,
)
    requires
        verbatim.prefix == Some(PrefixModel::VerbatimUnc { host, share }),
        usual.prefix == Some(PrefixModel::Other(network_share(host, share))),
        verbatim.rooted && verbatim.names == names,
        usual.text == network_share(host, share) + "\\"@ + joined(names),
    ensures
        simplified(verbatim) == simplified(usual),
        volume_top(verbatim) == volume_top(usual),
{
}

/// A path without a verbatim prefix, as every Unix path is, passes through
/// unchanged.
pub proof fn lemma_passes_through(path: PathModel)
    requires
        !(path.prefix matches Some(PrefixModel::VerbatimDisk(_))),
        !(path.prefix matches Some(PrefixModel::VerbatimUnc { .. })),
    ensures
        simplified(path) == path.text,
{
}

/// Names are told apart by one backslash between each two: those of two parts
/// of a path, each with some, are joined by one more.
pub proof fn lemma_joined_parts(first: Seq<Seq<char>>, second: Seq<Seq<char>>)
    requires
        first.len() > 0,
        second.len() > 0,
    ensures
        joined(first + second) == joined(first) + seq!['\\'] + joined(second),
        second.len() == 1 ==> joined(second) == second[0],
    decreases second.len(),
{
    reveal_strlit("\\");
    assert("\\"@ =~= seq!['\\']);
    let all = first + second;
    assert(all.drop_last() =~= first + second.drop_last());
    if second.len() == 1 {
        assert(second.drop_last() =~= Seq::empty());
        assert(all.drop_last() =~= first);
    } else {
        lemma_joined_parts(first, second.drop_last());
        assert(joined(all) =~= joined(first) + seq!['\\'] + joined(second));
    }
}

/// Of a path's names those that name nothing are left out, and no others.
pub proof fn lemma_normal_names(names: Seq<Seq<char>>)
    ensures
        normal(names) == names.filter(
            |name: Seq<char>| !(name == seq!['.'] || name == seq!['.', '.']),
        ),
    decreases names.len(),
{
    reveal(Seq::filter);
    reveal_strlit(".");
    reveal_strlit("..");
    assert("."@ =~= seq!['.']);
    assert(".."@ =~= seq!['.', '.']);
    if names.len() > 0 {
        lemma_normal_names(names.drop_last());
    }
}

/// A verbatim path is spelled as its drive or its share is: a letter and a
/// colon, or two backslashes, the host, one more and the share. Names that do
/// not start at the top of a drive stand right behind the colon.
pub proof fn lemma_spelled(path: PathModel, letter: char, host: Seq<char>, share: Seq<char>)
    ensures
        drive(letter) == seq![letter, ':'],
        network_share(host, share) == seq!['\\', '\\'] + host + seq!['\\'] + share,
        path.prefix == Some(PrefixModel::VerbatimDisk(letter)) ==> simplified(path) == seq![
            letter,
            ':',
        ] + (if path.rooted {
            seq!['\\']
        } else {
            Seq::empty()
        }) + joined(path.names),
        path.prefix == Some(PrefixModel::VerbatimUnc { host, share }) ==> simplified(path)
            == network_share(host, share) + (if path.rooted || path.names.len() > 0 {
            seq!['\\']
        } else {
            Seq::empty()
        }) + joined(path.names),
{
    reveal_strlit("\\");
    reveal_strlit("\\\\");
    reveal_strlit(":");
    assert("\\"@ =~= seq!['\\']);
    assert("\\\\"@ =~= seq!['\\', '\\']);
    assert(drive(letter) =~= seq![letter, ':']);
    assert(seq![letter, ':'] + Seq::<char>::empty() =~= seq![letter, ':']);
    assert(network_share(host, share) + Seq::<char>::empty() =~= network_share(host, share));
}

/// Every path with a prefix is on a volume, whose top is that prefix as it is
/// usually spelled and a backslash; one without has none.
pub proof fn lemma_volume_top(path: PathModel)
    ensures
        match path.prefix {
            None => volume_top(path) is None,
            Some(PrefixModel::Disk(letter)) => volume_top(path) == Some(
                seq![letter, ':', '\\'],
            ),
            Some(PrefixModel::VerbatimDisk(letter)) => volume_top(path) == Some(
                seq![letter, ':', '\\'],
            ),
            Some(PrefixModel::VerbatimUnc { host, share }) => volume_top(path) == Some(
                network_share(host, share) + seq!['\\'],
            ),
            Some(PrefixModel::Other(text)) => volume_top(path) == Some(text + seq!['\\']),
        },
{
    reveal_strlit("\\");
    reveal_strlit(":");
    assert("\\"@ =~= seq!['\\']);
    match path.prefix {
        Some(PrefixModel::Disk(letter)) => {
            assert(drive(letter) + "\\"@ =~= seq![letter, ':', '\\']);
        },
        Some(PrefixModel::VerbatimDisk(letter)) => {
            assert(drive(letter) + "\\"@ =~= seq![letter, ':', '\\']);
        },
        _ => {},
    }
}

/// A path that was resolved is spelled as what it was resolved to, however it
/// was written; one that was not is spelled as it was written.
pub proof fn lemma_settled(path: PathModel, other: PathModel, resolved: PathModel)
    ensures
        settled(path, Some(resolved)) == settled(other, Some(resolved)),
        settled(path, Some(resolved)) == simplified(resolved),
        settled(path, None) == path.text,
{
}

/// A drive has one letter however it is spelled, and the same names below it;
/// shares and other devices are no local drives, and a path without a prefix
/// is on none.
pub proof fn lemma_drive(letter: char, usual: PathModel, verbatim: PathModel, other: PathModel)
    requires
        usual.prefix == Some(PrefixModel::Disk(letter)),
        verbatim.prefix == Some(PrefixModel::VerbatimDisk(letter)),
        usual.names == verbatim.names,
    ensures
        drive_of(usual) == drive_of(verbatim),
        drive_of(usual) matches Ok((found, names)) && found == letter && names == normal(
            usual.names,
        ),
        other.prefix is None ==> drive_of(other) == Err::<(char, Seq<Seq<char>>), _>(
            NoDrive::NotADrivePath,
        ),
        other.prefix matches Some(PrefixModel::VerbatimUnc { .. }) ==> drive_of(other) == Err::<
            (char, Seq<Seq<char>>),
            _,
        >(NoDrive::NotLocal),
        other.prefix matches Some(PrefixModel::Other(_)) ==> drive_of(other) == Err::<
            (char, Seq<Seq<char>>),
            _,
        >(NoDrive::NotLocal),
{
}

} // verus!
