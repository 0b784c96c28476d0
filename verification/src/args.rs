//! What the command line asks for.

pub mod laws;

use vstd::prelude::*;
use vstd::string::StringExecFns;

use crate::scan;
use crate::scan::{FileTable, ScanOptions};
use crate::text;
use crate::text::{begins_with, same, to_number};
use crate::tree::node::Metric;

verus! {

/// What a run is asked to show.
#[derive(Debug)]
pub struct Args {
    /// The directory to scan, if one is given.
    pub root: Option<String>,
    /// Scan the whole disk the home directory is on.
    pub disk: bool,
    pub options: ScanOptions,
    /// How many levels to draw at once.
    pub depth: u32,
}

/// What an [`Args`] says.
pub struct ArgsModel {
    pub root: Option<Seq<char>>,
    pub disk: bool,
    pub options: ScanOptions,
    pub depth: u32,
}

impl View for Args {
    type V = ArgsModel;

    open spec fn view(&self) -> ArgsModel {
        ArgsModel {
            root: text::maybe_text(self.root),
            disk: self.disk,
            options: self.options,
            depth: self.depth,
        }
    }
}

/// What is wrong with a command line.
#[derive(Debug)]
pub enum ArgsError {
    DepthNeedsNumber,
    DepthOutOfRange,
    MetricNeedsValue,
    UnknownMetric(String),
    UnknownOption(String),
    TwoPaths,
    DiskAndPath,
    NoHome,
}

/// What an [`ArgsError`] says.
pub enum Wrong {
    DepthNeedsNumber,
    DepthOutOfRange,
    MetricNeedsValue,
    UnknownMetric(Seq<char>),
    UnknownOption(Seq<char>),
    TwoPaths,
    DiskAndPath,
    NoHome,
}

impl View for ArgsError {
    type V = Wrong;

    open spec fn view(&self) -> Wrong {
        match self {
            ArgsError::DepthNeedsNumber => Wrong::DepthNeedsNumber,
            ArgsError::DepthOutOfRange => Wrong::DepthOutOfRange,
            ArgsError::MetricNeedsValue => Wrong::MetricNeedsValue,
            ArgsError::UnknownMetric(text) => Wrong::UnknownMetric(text@),
            ArgsError::UnknownOption(text) => Wrong::UnknownOption(text@),
            ArgsError::TwoPaths => Wrong::TwoPaths,
            ArgsError::DiskAndPath => Wrong::DiskAndPath,
            ArgsError::NoHome => Wrong::NoHome,
        }
    }
}

/// What an error says to the user.
pub open spec fn message(wrong: Wrong) -> Seq<char> {
    match wrong {
        Wrong::DepthNeedsNumber => "--depth needs a number"@,
        Wrong::DepthOutOfRange => "--depth must be 1 to 6"@,
        Wrong::MetricNeedsValue => "--metric needs a value"@,
        Wrong::UnknownMetric(text) => "unknown metric "@ + text + "; try bytes or files"@,
        Wrong::UnknownOption(text) => "unknown option "@ + text,
        Wrong::TwoPaths => "only one path can be scanned"@,
        Wrong::DiskAndPath => "--disk and a PATH cannot be combined"@,
        Wrong::NoHome => "no path given and no home directory is set"@,
    }
}

impl ArgsError {
    /// What this says to the user.
    pub fn what(&self) -> (words: String)
        ensures
            words@ == message(self@),
    {
        match self {
            ArgsError::DepthNeedsNumber => "--depth needs a number".to_owned(),
            ArgsError::DepthOutOfRange => "--depth must be 1 to 6".to_owned(),
            ArgsError::MetricNeedsValue => "--metric needs a value".to_owned(),
            ArgsError::UnknownMetric(text) => {
                let mut words = "unknown metric ".to_owned();
                words.append(text.as_str());
                words.append("; try bytes or files");
                words
            },
            ArgsError::UnknownOption(text) => {
                let mut words = "unknown option ".to_owned();
                words.append(text.as_str());
                words
            },
            ArgsError::TwoPaths => "only one path can be scanned".to_owned(),
            ArgsError::DiskAndPath => "--disk and a PATH cannot be combined".to_owned(),
            ArgsError::NoHome => "no path given and no home directory is set".to_owned(),
        }
    }
}

/// What a command line comes to.
#[derive(Debug)]
pub enum Request {
    /// Show how it is used.
    Help,
    Run(Args),
}

/// One argument that stands for itself.
pub enum Switch {
    Help,
    ApparentSize,
    FollowLinks,
    NoHidden,
    OneFilesystem,
    CrossFilesystems,
    Walk,
    Disk,
    Depth,
    Metric,
    Unknown,
    Path,
}

/// What the argument `text` is.
pub open spec fn switch_of(text: Seq<char>) -> Switch {
    if text == "-h"@ || text == "--help"@ {
        Switch::Help
    } else if text == "-a"@ || text == "--apparent-size"@ {
        Switch::ApparentSize
    } else if text == "-l"@ || text == "--follow-links"@ {
        Switch::FollowLinks
    } else if text == "-H"@ || text == "--no-hidden"@ {
        Switch::NoHidden
    } else if text == "-x"@ || text == "--one-filesystem"@ {
        Switch::OneFilesystem
    } else if text == "-X"@ || text == "--cross-filesystems"@ {
        Switch::CrossFilesystems
    } else if text == "-W"@ || text == "--walk"@ {
        Switch::Walk
    } else if text == "-D"@ || text == "--disk"@ {
        Switch::Disk
    } else if text == "-d"@ || text == "--depth"@ {
        Switch::Depth
    } else if text == "--metric"@ {
        Switch::Metric
    } else if text::starts(text, '-') {
        Switch::Unknown
    } else {
        Switch::Path
    }
}

/// The metric called `text`.
pub open spec fn metric_called(text: Seq<char>) -> Option<Metric> {
    if text == "files"@ {
        Some(Metric::Files)
    } else if text == "bytes"@ || text == "size"@ {
        Some(Metric::Bytes)
    } else {
        None
    }
}

/// What is asked for when nothing is said.
pub open spec fn unasked() -> ArgsModel {
    ArgsModel { root: None, disk: false, options: scan::default_options(), depth: 3 }
}

/// What the arguments from `at` on make of `asked`: `None` where the first of
/// them that decides asks for help.
pub open spec fn asked_from(args: Seq<Seq<char>>, at: int, asked: ArgsModel) -> Result<
    Option<ArgsModel>,
    Wrong,
>
    decreases args.len() - at,
{
    if at >= args.len() {
        if asked.disk && asked.root is Some {
            Err(Wrong::DiskAndPath)
        } else {
            Ok(Some(asked))
        }
    } else {
        let options = asked.options;
        match switch_of(args[at]) {
            Switch::Help => Ok(None),
            Switch::ApparentSize => asked_from(
                args,
                at + 1,
                ArgsModel { options: ScanOptions { apparent_size: true, ..options }, ..asked },
            ),
            Switch::FollowLinks => asked_from(
                args,
                at + 1,
                ArgsModel { options: ScanOptions { follow_links: true, ..options }, ..asked },
            ),
            Switch::NoHidden => asked_from(
                args,
                at + 1,
                ArgsModel { options: ScanOptions { include_hidden: false, ..options }, ..asked },
            ),
            Switch::OneFilesystem => asked_from(
                args,
                at + 1,
                ArgsModel { options: ScanOptions { one_filesystem: true, ..options }, ..asked },
            ),
            Switch::CrossFilesystems => asked_from(
                args,
                at + 1,
                ArgsModel { options: ScanOptions { one_filesystem: false, ..options }, ..asked },
            ),
            Switch::Walk => asked_from(
                args,
                at + 1,
                ArgsModel {
                    options: ScanOptions { file_table: FileTable::Never, ..options },
                    ..asked
                },
            ),
            Switch::Disk => asked_from(args, at + 1, ArgsModel { disk: true, ..asked }),
            Switch::Depth => if at + 1 >= args.len() {
                Err(Wrong::DepthNeedsNumber)
            } else {
                match text::number_in(args[at + 1]) {
                    Some(depth) => if 1 <= depth <= 6 {
                        asked_from(args, at + 2, ArgsModel { depth: depth as u32, ..asked })
                    } else {
                        Err(Wrong::DepthOutOfRange)
                    },
                    None => Err(Wrong::DepthNeedsNumber),
                }
            },
            Switch::Metric => if at + 1 >= args.len() {
                Err(Wrong::MetricNeedsValue)
            } else {
                match metric_called(args[at + 1]) {
                    Some(metric) => asked_from(
                        args,
                        at + 2,
                        ArgsModel { options: ScanOptions { metric, ..options }, ..asked },
                    ),
                    None => Err(Wrong::UnknownMetric(args[at + 1])),
                }
            },
            Switch::Unknown => Err(Wrong::UnknownOption(args[at])),
            Switch::Path => if asked.root is Some {
                Err(Wrong::TwoPaths)
            } else {
                asked_from(args, at + 1, ArgsModel { root: Some(args[at]), ..asked })
            },
        }
    }
}

fn to_switch(text: &str) -> (switch: Switch)
    ensures
        switch == switch_of(text@),
{
    if same(text, "-h") || same(text, "--help") {
        Switch::Help
    } else if same(text, "-a") || same(text, "--apparent-size") {
        Switch::ApparentSize
    } else if same(text, "-l") || same(text, "--follow-links") {
        Switch::FollowLinks
    } else if same(text, "-H") || same(text, "--no-hidden") {
        Switch::NoHidden
    } else if same(text, "-x") || same(text, "--one-filesystem") {
        Switch::OneFilesystem
    } else if same(text, "-X") || same(text, "--cross-filesystems") {
        Switch::CrossFilesystems
    } else if same(text, "-W") || same(text, "--walk") {
        Switch::Walk
    } else if same(text, "-D") || same(text, "--disk") {
        Switch::Disk
    } else if same(text, "-d") || same(text, "--depth") {
        Switch::Depth
    } else if same(text, "--metric") {
        Switch::Metric
    } else if begins_with(text, '-') {
        Switch::Unknown
    } else {
        Switch::Path
    }
}

fn to_metric(text: &str) -> (metric: Option<Metric>)
    ensures
        metric == metric_called(text@),
{
    if same(text, "files") {
        Some(Metric::Files)
    } else if same(text, "bytes") || same(text, "size") {
        Some(Metric::Bytes)
    } else {
        None
    }
}

/// What the arguments of a command line, its first word left out, ask for.
pub fn parse_args(args: &[String]) -> (request: Result<Request, ArgsError>)
    ensures
        match asked_from(text::texts(args@), 0, unasked()) {
            Ok(Some(asked)) => request matches Ok(Request::Run(found)) && found@ == asked,
            Ok(None) => request matches Ok(Request::Help),
            Err(wrong) => request matches Err(error) && error@ == wrong,
        },
{
    let ghost all = text::texts(args@);
    let mut asked = Args { root: None, disk: false, options: ScanOptions::default(), depth: 3 };
    let mut at: usize = 0;
    while at < args.len()
        invariant
            at <= args@.len(),
            all == text::texts(args@),
            asked_from(all, 0, unasked()) == asked_from(all, at as int, asked@),
        decreases args@.len() - at,
    {
        let arg: &str = args[at].as_str();
        assert(all[at as int] == arg@);
        match to_switch(arg) {
            Switch::Help => return Ok(Request::Help),
            Switch::ApparentSize => asked.options.apparent_size = true,
            Switch::FollowLinks => asked.options.follow_links = true,
            Switch::NoHidden => asked.options.include_hidden = false,
            // Staying on one volume is the default; the flag is kept so
            // old invocations still work.
            Switch::OneFilesystem => asked.options.one_filesystem = true,
            Switch::CrossFilesystems => asked.options.one_filesystem = false,
            Switch::Walk => asked.options.file_table = FileTable::Never,
            Switch::Disk => asked.disk = true,
            Switch::Depth => {
                at = at + 1;
                if at >= args.len() {
                    return Err(ArgsError::DepthNeedsNumber);
                }
                assert(all[at as int] == args@[at as int]@);
                match to_number(args[at].as_str()) {
                    Some(depth) => {
                        if depth < 1 || depth > 6 {
                            return Err(ArgsError::DepthOutOfRange);
                        }
                        asked.depth = depth;
                    },
                    None => return Err(ArgsError::DepthNeedsNumber),
                }
            },
            Switch::Metric => {
                at = at + 1;
                if at >= args.len() {
                    return Err(ArgsError::MetricNeedsValue);
                }
                assert(all[at as int] == args@[at as int]@);
                match to_metric(args[at].as_str()) {
                    Some(metric) => asked.options.metric = metric,
                    None => return Err(ArgsError::UnknownMetric(args[at].clone())),
                }
            },
            Switch::Unknown => return Err(ArgsError::UnknownOption(args[at].clone())),
            Switch::Path => {
                if asked.root.is_some() {
                    return Err(ArgsError::TwoPaths);
                }
                asked.root = Some(args[at].clone());
            },
        }
        at = at + 1;
    }
    if asked.disk && asked.root.is_some() {
        return Err(ArgsError::DiskAndPath);
    }
    Ok(Request::Run(asked))
}

/// The root to scan: the top of the home directory's volume or else of the
/// current drive where the disk is asked for, the path given, or the home
/// directory.
pub open spec fn root_asked(
    asked: ArgsModel,
    home: Option<Seq<char>>,
    volume: Option<Seq<char>>,
    top: Seq<char>,
) -> Result<Seq<char>, Wrong> {
    if asked.disk {
        match volume {
            Some(volume) => Ok(volume),
            None => Ok(top),
        }
    } else if asked.root is Some {
        Ok(asked.root->0)
    } else {
        match home {
            Some(home) => Ok(home),
            None => Err(Wrong::NoHome),
        }
    }
}

/// The root to scan. `home` is the home directory, `volume` the top of the
/// volume it is on, and `top` that of the current drive.
pub fn choose_root(
    asked: &Args,
    home: Option<String>,
    volume: Option<String>,
    top: &str,
) -> (root: Result<String, ArgsError>)
    ensures
        match root_asked(asked@, text::maybe_text(home), text::maybe_text(volume), top@) {
            Ok(expected) => root matches Ok(found) && found@ == expected,
            Err(wrong) => root matches Err(error) && error@ == wrong,
        },
{
    if asked.disk {
        return match volume {
            Some(volume) => Ok(volume),
            None => Ok(top.to_owned()),
        };
    }
    match &asked.root {
        Some(root) => Ok(root.clone()),
        None => match home {
            Some(home) => Ok(home),
            None => Err(ArgsError::NoHome),
        },
    }
}

proof fn lemma_depth_from(args: Seq<Seq<char>>, at: int, asked: ArgsModel)
    requires
        1 <= asked.depth <= 6,
        asked.options.max_depth is None,
    ensures
        asked_from(args, at, asked) matches Ok(Some(found)) ==> {
            &&& 1 <= found.depth <= 6
            &&& found.options.max_depth is None
            &&& !(found.disk && found.root is Some)
        },
    decreases args.len() - at,
{
    if at < args.len() {
        let options = asked.options;
        match switch_of(args[at]) {
            Switch::Help => {},
            Switch::ApparentSize => lemma_depth_from(
                args,
                at + 1,
                ArgsModel { options: ScanOptions { apparent_size: true, ..options }, ..asked },
            ),
            Switch::FollowLinks => lemma_depth_from(
                args,
                at + 1,
                ArgsModel { options: ScanOptions { follow_links: true, ..options }, ..asked },
            ),
            Switch::NoHidden => lemma_depth_from(
                args,
                at + 1,
                ArgsModel { options: ScanOptions { include_hidden: false, ..options }, ..asked },
            ),
            Switch::OneFilesystem => lemma_depth_from(
                args,
                at + 1,
                ArgsModel { options: ScanOptions { one_filesystem: true, ..options }, ..asked },
            ),
            Switch::CrossFilesystems => lemma_depth_from(
                args,
                at + 1,
                ArgsModel { options: ScanOptions { one_filesystem: false, ..options }, ..asked },
            ),
            Switch::Walk => lemma_depth_from(
                args,
                at + 1,
                ArgsModel {
                    options: ScanOptions { file_table: FileTable::Never, ..options },
                    ..asked
                },
            ),
            Switch::Disk => lemma_depth_from(args, at + 1, ArgsModel { disk: true, ..asked }),
            Switch::Depth => if at + 1 < args.len() {
                if let Some(depth) = text::number_in(args[at + 1]) {
                    if 1 <= depth <= 6 {
                        lemma_depth_from(
                            args,
                            at + 2,
                            ArgsModel { depth: depth as u32, ..asked },
                        );
                    }
                }
            },
            Switch::Metric => if at + 1 < args.len() {
                if let Some(metric) = metric_called(args[at + 1]) {
                    lemma_depth_from(
                        args,
                        at + 2,
                        ArgsModel { options: ScanOptions { metric, ..options }, ..asked },
                    );
                }
            },
            Switch::Unknown => {},
            Switch::Path => if asked.root is None {
                lemma_depth_from(args, at + 1, ArgsModel { root: Some(args[at]), ..asked });
            },
        }
    }
}

/// Whatever the command line, a run draws one to six levels, scans the whole
/// tree, and is asked for either a path or the disk.
pub proof fn lemma_asked_within_bounds(args: Seq<Seq<char>>)
    ensures
        asked_from(args, 0, unasked()) matches Ok(Some(found)) ==> {
            &&& 1 <= found.depth <= 6
            &&& found.options.max_depth is None
            &&& !(found.disk && found.root is Some)
        },
{
    lemma_depth_from(args, 0, unasked());
}

} // verus!
