//! What holds of every command line.

use vstd::prelude::*;

use crate::args;
use crate::args::{ArgsModel, Switch, Wrong};
use crate::scan::{FileTable, ScanOptions};
use crate::text;
use crate::tree::node::Metric;

verus! {

/// What the whole command line `words` makes of `asked`.
pub open spec fn request(words: Seq<Seq<char>>, asked: ArgsModel) -> Result<
    Option<ArgsModel>,
    Wrong,
> {
    args::asked_from(words, 0, asked)
}

/// What follows some arguments does not depend on what they were, but on what
/// they asked for.
proof fn lemma_rest_alone(before: Seq<Seq<char>>, words: Seq<Seq<char>>, at: int, asked: ArgsModel)
    requires
        0 <= at,
    ensures
        args::asked_from(before + words, before.len() + at, asked) == args::asked_from(
            words,
            at,
            asked,
        ),
    decreases words.len() - at,
{
    let all = before + words;
    let from = before.len() + at;
    let options = asked.options;
    if at < words.len() {
        assert(all[from] == words[at]);
        if at + 1 < words.len() {
            assert(all[from + 1] == words[at + 1]);
        }
        match args::switch_of(words[at]) {
            Switch::Help => {},
            Switch::ApparentSize => lemma_rest_alone(
                before,
                words,
                at + 1,
                ArgsModel { options: ScanOptions { apparent_size: true, ..options }, ..asked },
            ),
            Switch::FollowLinks => lemma_rest_alone(
                before,
                words,
                at + 1,
                ArgsModel { options: ScanOptions { follow_links: true, ..options }, ..asked },
            ),
            Switch::NoHidden => lemma_rest_alone(
                before,
                words,
                at + 1,
                ArgsModel { options: ScanOptions { include_hidden: false, ..options }, ..asked },
            ),
            Switch::OneFilesystem => lemma_rest_alone(
                before,
                words,
                at + 1,
                ArgsModel { options: ScanOptions { one_filesystem: true, ..options }, ..asked },
            ),
            Switch::CrossFilesystems => lemma_rest_alone(
                before,
                words,
                at + 1,
                ArgsModel { options: ScanOptions { one_filesystem: false, ..options }, ..asked },
            ),
            Switch::Walk => lemma_rest_alone(
                before,
                words,
                at + 1,
                ArgsModel {
                    options: ScanOptions { file_table: FileTable::Never, ..options },
                    ..asked
                },
            ),
            Switch::Disk => lemma_rest_alone(
                before,
                words,
                at + 1,
                ArgsModel { disk: true, ..asked },
            ),
            Switch::Depth => if at + 1 < words.len() {
                if let Some(depth) = text::number_in(words[at + 1]) {
                    lemma_rest_alone(
                        before,
                        words,
                        at + 2,
                        ArgsModel { depth: depth as u32, ..asked },
                    );
                }
            },
            Switch::Metric => if at + 1 < words.len() {
                if let Some(metric) = args::metric_called(words[at + 1]) {
                    lemma_rest_alone(
                        before,
                        words,
                        at + 2,
                        ArgsModel { options: ScanOptions { metric, ..options }, ..asked },
                    );
                }
            },
            Switch::Unknown => {},
            Switch::Path => lemma_rest_alone(
                before,
                words,
                at + 1,
                ArgsModel { root: Some(words[at]), ..asked },
            ),
        }
    }
}

/// `words` behind `word`.
pub open spec fn behind(word: Seq<char>, words: Seq<Seq<char>>) -> Seq<Seq<char>> {
    seq![word] + words
}

proof fn lemma_behind_one(word: Seq<char>, words: Seq<Seq<char>>, asked: ArgsModel)
    ensures
        behind(word, words)[0] == word,
        args::asked_from(behind(word, words), 1, asked) == request(words, asked),
{
    lemma_rest_alone(seq![word], words, 0, asked);
}

proof fn lemma_words()
    ensures
        args::switch_of("-h"@) is Help,
        args::switch_of("--help"@) is Help,
        args::switch_of("-a"@) is ApparentSize,
        args::switch_of("--apparent-size"@) is ApparentSize,
        args::switch_of("-l"@) is FollowLinks,
        args::switch_of("--follow-links"@) is FollowLinks,
        args::switch_of("-H"@) is NoHidden,
        args::switch_of("--no-hidden"@) is NoHidden,
        args::switch_of("-x"@) is OneFilesystem,
        args::switch_of("--one-filesystem"@) is OneFilesystem,
        args::switch_of("-X"@) is CrossFilesystems,
        args::switch_of("--cross-filesystems"@) is CrossFilesystems,
        args::switch_of("-W"@) is Walk,
        args::switch_of("--walk"@) is Walk,
        args::switch_of("-D"@) is Disk,
        args::switch_of("--disk"@) is Disk,
        args::switch_of("-d"@) is Depth,
        args::switch_of("--depth"@) is Depth,
        args::switch_of("--metric"@) is Metric,
        args::metric_called("files"@) == Some(Metric::Files),
        args::metric_called("bytes"@) == Some(Metric::Bytes),
        args::metric_called("size"@) == Some(Metric::Bytes),
{
    reveal_strlit("-h");
    reveal_strlit("--help");
    reveal_strlit("-a");
    reveal_strlit("--apparent-size");
    reveal_strlit("-l");
    reveal_strlit("--follow-links");
    reveal_strlit("-H");
    reveal_strlit("--no-hidden");
    reveal_strlit("-x");
    reveal_strlit("--one-filesystem");
    reveal_strlit("-X");
    reveal_strlit("--cross-filesystems");
    reveal_strlit("-W");
    reveal_strlit("--walk");
    reveal_strlit("-D");
    reveal_strlit("--disk");
    reveal_strlit("-d");
    reveal_strlit("--depth");
    reveal_strlit("--metric");
    reveal_strlit("files");
    reveal_strlit("bytes");
    reveal_strlit("size");
    assert("--help"@.len() == 6);
    assert("--apparent-size"@.len() == 15);
    assert("--follow-links"@.len() == 14);
    assert("--no-hidden"@.len() == 11);
    assert("--one-filesystem"@.len() == 16);
    assert("--cross-filesystems"@.len() == 19);
    assert("--walk"@.len() == 6);
    assert("--disk"@.len() == 6);
    assert("--depth"@.len() == 7);
    assert("--metric"@.len() == 8);
    assert("-h"@.len() == 2);
    assert("-a"@.len() == 2);
    assert("-l"@.len() == 2);
    assert("-H"@.len() == 2);
    assert("-x"@.len() == 2);
    assert("-X"@.len() == 2);
    assert("-W"@.len() == 2);
    assert("-D"@.len() == 2);
    assert("-d"@.len() == 2);
    assert("--help"@[2] == 'h' && "--walk"@[2] == 'w' && "--disk"@[2] == 'd');
    assert("-h"@[1] == 'h' && "-a"@[1] == 'a' && "-l"@[1] == 'l' && "-H"@[1] == 'H');
    assert("-x"@[1] == 'x' && "-X"@[1] == 'X' && "-W"@[1] == 'W' && "-D"@[1] == 'D');
    assert("-d"@[1] == 'd');
    assert("files"@[0] == 'f' && "bytes"@[0] == 'b');
}

/// Whatever follows, the short and the long word of each switch ask for the
/// same: help, wherever nothing before it is wrong; and each of the others
/// for its own option, all else as it was.
pub proof fn lemma_each_switch(rest: Seq<Seq<char>>, asked: ArgsModel)
    ensures
        ({
            let options = asked.options;
            &&& request(behind("-h"@, rest), asked) == Ok::<_, Wrong>(None::<ArgsModel>)
            &&& request(behind("--help"@, rest), asked) == Ok::<_, Wrong>(None::<ArgsModel>)
            &&& request(behind("-a"@, rest), asked) == request(
                rest,
                ArgsModel { options: ScanOptions { apparent_size: true, ..options }, ..asked },
            )
            &&& request(behind("--apparent-size"@, rest), asked) == request(behind("-a"@, rest), asked)
            &&& request(behind("-l"@, rest), asked) == request(
                rest,
                ArgsModel { options: ScanOptions { follow_links: true, ..options }, ..asked },
            )
            &&& request(behind("--follow-links"@, rest), asked) == request(behind("-l"@, rest), asked)
            &&& request(behind("-H"@, rest), asked) == request(
                rest,
                ArgsModel { options: ScanOptions { include_hidden: false, ..options }, ..asked },
            )
            &&& request(behind("--no-hidden"@, rest), asked) == request(behind("-H"@, rest), asked)
            &&& request(behind("-x"@, rest), asked) == request(
                rest,
                ArgsModel { options: ScanOptions { one_filesystem: true, ..options }, ..asked },
            )
            &&& request(behind("--one-filesystem"@, rest), asked) == request(
                behind("-x"@, rest),
                asked,
            )
            &&& request(behind("-X"@, rest), asked) == request(
                rest,
                ArgsModel { options: ScanOptions { one_filesystem: false, ..options }, ..asked },
            )
            &&& request(behind("--cross-filesystems"@, rest), asked) == request(
                behind("-X"@, rest),
                asked,
            )
            &&& request(behind("-W"@, rest), asked) == request(
                rest,
                ArgsModel {
                    options: ScanOptions { file_table: FileTable::Never, ..options },
                    ..asked
                },
            )
            &&& request(behind("--walk"@, rest), asked) == request(behind("-W"@, rest), asked)
            &&& request(behind("-D"@, rest), asked) == request(
                rest,
                ArgsModel { disk: true, ..asked },
            )
            &&& request(behind("--disk"@, rest), asked) == request(behind("-D"@, rest), asked)
            &&& request(behind("-d"@, rest), asked) == request(behind("--depth"@, rest), asked)
        }),
{
    let options = asked.options;
    lemma_words();
    let apparent = ArgsModel { options: ScanOptions { apparent_size: true, ..options }, ..asked };
    let follow = ArgsModel { options: ScanOptions { follow_links: true, ..options }, ..asked };
    let hidden = ArgsModel { options: ScanOptions { include_hidden: false, ..options }, ..asked };
    let one = ArgsModel { options: ScanOptions { one_filesystem: true, ..options }, ..asked };
    let cross = ArgsModel { options: ScanOptions { one_filesystem: false, ..options }, ..asked };
    let walk = ArgsModel {
        options: ScanOptions { file_table: FileTable::Never, ..options },
        ..asked
    };
    let disk = ArgsModel { disk: true, ..asked };
    lemma_behind_one("-a"@, rest, apparent);
    lemma_behind_one("--apparent-size"@, rest, apparent);
    lemma_behind_one("-l"@, rest, follow);
    lemma_behind_one("--follow-links"@, rest, follow);
    lemma_behind_one("-H"@, rest, hidden);
    lemma_behind_one("--no-hidden"@, rest, hidden);
    lemma_behind_one("-x"@, rest, one);
    lemma_behind_one("--one-filesystem"@, rest, one);
    lemma_behind_one("-X"@, rest, cross);
    lemma_behind_one("--cross-filesystems"@, rest, cross);
    lemma_behind_one("-W"@, rest, walk);
    lemma_behind_one("--walk"@, rest, walk);
    lemma_behind_one("-D"@, rest, disk);
    lemma_behind_one("--disk"@, rest, disk);
    lemma_depth_words(rest, asked);
}

proof fn lemma_depth_words(rest: Seq<Seq<char>>, asked: ArgsModel)
    ensures
        request(behind("-d"@, rest), asked) == request(behind("--depth"@, rest), asked),
{
    lemma_words();
    let (short, long) = (behind("-d"@, rest), behind("--depth"@, rest));
    if rest.len() > 0 {
        assert(short[1] == rest[0] && long[1] == rest[0]);
        if let Some(depth) = text::number_in(rest[0]) {
            let deep = ArgsModel { depth: depth as u32, ..asked };
            lemma_rest_alone(seq!["-d"@], rest, 1, deep);
            lemma_rest_alone(seq!["--depth"@], rest, 1, deep);
        }
    }
}

/// Behind `--depth` stands a number from one to six, which is the depth; what
/// is no number, or is another, is said to be wrong, as is its absence.
pub proof fn lemma_depth_asked(value: Seq<char>, rest: Seq<Seq<char>>, asked: ArgsModel)
    ensures
        request(seq!["--depth"@], asked) == Err::<Option<ArgsModel>, _>(Wrong::DepthNeedsNumber),
        ({
            let words = behind("--depth"@, behind(value, rest));
            match text::number_in(value) {
                Some(depth) => if depth == 0 || depth > 6 {
                    request(words, asked) == Err::<Option<ArgsModel>, _>(Wrong::DepthOutOfRange)
                } else {
                    request(words, asked) == request(
                        rest,
                        ArgsModel { depth: depth as u32, ..asked },
                    )
                },
                None => request(words, asked) == Err::<Option<ArgsModel>, _>(
                    Wrong::DepthNeedsNumber,
                ),
            }
        }),
{
    lemma_words();
    let words = behind("--depth"@, behind(value, rest));
    assert(words[0] == "--depth"@ && words[1] == value);
    assert(seq!["--depth"@][0] == "--depth"@);
    if let Some(depth) = text::number_in(value) {
        let both = seq!["--depth"@, value];
        assert(words =~= both + rest);
        lemma_rest_alone(both, rest, 0, ArgsModel { depth: depth as u32, ..asked });
    }
}

/// Behind `--metric` stands `files`, or `bytes`, or `size`, which is the same;
/// anything else is said to be wrong, as is its absence.
pub proof fn lemma_metric_asked(value: Seq<char>, rest: Seq<Seq<char>>, asked: ArgsModel)
    ensures
        request(seq!["--metric"@], asked) == Err::<Option<ArgsModel>, _>(Wrong::MetricNeedsValue),
        ({
            let words = behind("--metric"@, behind(value, rest));
            let options = asked.options;
            if value == "files"@ {
                request(words, asked) == request(
                    rest,
                    ArgsModel {
                        options: ScanOptions { metric: Metric::Files, ..options },
                        ..asked
                    },
                )
            } else if value == "bytes"@ || value == "size"@ {
                request(words, asked) == request(
                    rest,
                    ArgsModel {
                        options: ScanOptions { metric: Metric::Bytes, ..options },
                        ..asked
                    },
                )
            } else {
                request(words, asked) == Err::<Option<ArgsModel>, _>(Wrong::UnknownMetric(value))
            }
        }),
{
    lemma_words();
    let options = asked.options;
    let words = behind("--metric"@, behind(value, rest));
    assert(words[0] == "--metric"@ && words[1] == value);
    assert(seq!["--metric"@][0] == "--metric"@);
    let both = seq!["--metric"@, value];
    assert(words =~= both + rest);
    lemma_rest_alone(
        both,
        rest,
        0,
        ArgsModel { options: ScanOptions { metric: Metric::Files, ..options }, ..asked },
    );
    lemma_rest_alone(
        both,
        rest,
        0,
        ArgsModel { options: ScanOptions { metric: Metric::Bytes, ..options }, ..asked },
    );
}

/// Whether `word` is a documented option.
pub open spec fn documented(word: Seq<char>) -> bool {
    ||| word == "-h"@ || word == "--help"@
    ||| word == "-a"@ || word == "--apparent-size"@
    ||| word == "-l"@ || word == "--follow-links"@
    ||| word == "-H"@ || word == "--no-hidden"@
    ||| word == "-x"@ || word == "--one-filesystem"@
    ||| word == "-X"@ || word == "--cross-filesystems"@
    ||| word == "-W"@ || word == "--walk"@
    ||| word == "-D"@ || word == "--disk"@
    ||| word == "-d"@ || word == "--depth"@
    ||| word == "--metric"@
}

/// A word that starts with a dash and is no documented option is said to be
/// wrong; any other that is none is the path, of which there is one.
pub proof fn lemma_other_words(word: Seq<char>, rest: Seq<Seq<char>>, asked: ArgsModel)
    requires
        !documented(word),
    ensures
        word.len() > 0 && word[0] == '-' ==> request(behind(word, rest), asked) == Err::<
            Option<ArgsModel>,
            _,
        >(Wrong::UnknownOption(word)),
        !(word.len() > 0 && word[0] == '-') && asked.root is None ==> request(
            behind(word, rest),
            asked,
        ) == request(rest, ArgsModel { root: Some(word), ..asked }),
        !(word.len() > 0 && word[0] == '-') && asked.root is Some ==> request(
            behind(word, rest),
            asked,
        ) == Err::<Option<ArgsModel>, _>(Wrong::TwoPaths),
{
    assert(behind(word, rest)[0] == word);
    lemma_behind_one(word, rest, ArgsModel { root: Some(word), ..asked });
}

/// A command line that says nothing more is done: it asks for what was asked,
/// unless that is both the disk and a path. What no word asked for is as when
/// nothing is said: sizes on disk, hidden names too, links not followed, one
/// volume, three levels, by size, from the file table where it can be read.
pub proof fn lemma_nothing_more(asked: ArgsModel)
    ensures
        request(Seq::empty(), asked) == (if asked.disk && asked.root is Some {
            Err(Wrong::DiskAndPath)
        } else {
            Ok(Some(asked))
        }),
        ({
            let plain = args::unasked();
            &&& plain.root is None
            &&& !plain.disk
            &&& plain.depth == 3
            &&& !plain.options.apparent_size
            &&& plain.options.include_hidden
            &&& plain.options.one_filesystem
            &&& !plain.options.follow_links
            &&& plain.options.dedup_hardlinks
            &&& plain.options.max_depth is None
            &&& plain.options.metric is Bytes
            &&& plain.options.file_table is Auto
        }),
{
}

/// Whether `left` and `right` are the short and the long word of one option.
pub open spec fn one_option(left: Seq<char>, right: Seq<char>) -> bool {
    ||| left == "-h"@ && right == "--help"@
    ||| left == "-a"@ && right == "--apparent-size"@
    ||| left == "-l"@ && right == "--follow-links"@
    ||| left == "-H"@ && right == "--no-hidden"@
    ||| left == "-x"@ && right == "--one-filesystem"@
    ||| left == "-X"@ && right == "--cross-filesystems"@
    ||| left == "-W"@ && right == "--walk"@
    ||| left == "-D"@ && right == "--disk"@
    ||| left == "-d"@ && right == "--depth"@
}

/// Whether `left` and `right` ask for the same, or are wrong in the same way,
/// an unknown metric being one whatever it is called.
pub open spec fn agree(
    left: Result<Option<ArgsModel>, Wrong>,
    right: Result<Option<ArgsModel>, Wrong>,
) -> bool {
    left == right || (left matches Err(Wrong::UnknownMetric(_)) && right matches Err(
        Wrong::UnknownMetric(_),
    ))
}

proof fn lemma_option_is_no_value(short: Seq<char>, long: Seq<char>)
    requires
        one_option(short, long),
    ensures
        args::switch_of(short) == args::switch_of(long),
        !(args::switch_of(short) is Unknown),
        !(args::switch_of(short) is Path),
        text::number_in(short) is None,
        text::number_in(long) is None,
        args::metric_called(short) is None,
        args::metric_called(long) is None,
{
    lemma_words();
    lemma_dashes();
    assert(documented(short) && documented(long));
    text::laws::lemma_no_number(short, 0);
    text::laws::lemma_no_number(long, 0);
    reveal_strlit("files");
    reveal_strlit("bytes");
    reveal_strlit("size");
    assert("files"@[0] == 'f' && "bytes"@[0] == 'b' && "size"@[0] == 's');
}

proof fn lemma_dashes()
    ensures
        forall|word: Seq<char>| #[trigger] documented(word) ==> word.len() > 0 && word[0] == '-',
{
    reveal_strlit("-h");
    reveal_strlit("--help");
    reveal_strlit("-a");
    reveal_strlit("--apparent-size");
    reveal_strlit("-l");
    reveal_strlit("--follow-links");
    reveal_strlit("-H");
    reveal_strlit("--no-hidden");
    reveal_strlit("-x");
    reveal_strlit("--one-filesystem");
    reveal_strlit("-X");
    reveal_strlit("--cross-filesystems");
    reveal_strlit("-W");
    reveal_strlit("--walk");
    reveal_strlit("-D");
    reveal_strlit("--disk");
    reveal_strlit("-d");
    reveal_strlit("--depth");
    reveal_strlit("--metric");
}

/// Whether `left` and `right` are one command line but for the short and long
/// words of options.
pub open spec fn one_meaning(left: Seq<Seq<char>>, right: Seq<Seq<char>>) -> bool {
    &&& left.len() == right.len()
    &&& forall|i: int|
        0 <= i < left.len() ==> {
            ||| #[trigger] left[i] == right[i]
            ||| one_option(left[i], right[i])
            ||| one_option(right[i], left[i])
        }
}

proof fn lemma_one_word(left: Seq<char>, right: Seq<char>)
    requires
        left == right || one_option(left, right) || one_option(right, left),
    ensures
        args::switch_of(left) == args::switch_of(right),
        args::switch_of(left) is Unknown || args::switch_of(left) is Path ==> left == right,
        text::number_in(left) == text::number_in(right),
        args::metric_called(left) == args::metric_called(right),
{
    if one_option(left, right) {
        lemma_option_is_no_value(left, right);
    } else if one_option(right, left) {
        lemma_option_is_no_value(right, left);
    }
}

proof fn lemma_same_from(
    left: Seq<Seq<char>>,
    right: Seq<Seq<char>>,
    at: int,
    asked: ArgsModel,
)
    requires
        one_meaning(left, right),
        0 <= at,
    ensures
        agree(args::asked_from(left, at, asked), args::asked_from(right, at, asked)),
    decreases left.len() - at,
{
    if at < left.len() {
        lemma_one_word(left[at], right[at]);
        let options = asked.options;
        if at + 1 < left.len() {
            lemma_one_word(left[at + 1], right[at + 1]);
        }
        match args::switch_of(left[at]) {
            Switch::Help => {},
            Switch::ApparentSize => lemma_same_from(
                left,
                right,
                at + 1,
                ArgsModel { options: ScanOptions { apparent_size: true, ..options }, ..asked },
            ),
            Switch::FollowLinks => lemma_same_from(
                left,
                right,
                at + 1,
                ArgsModel { options: ScanOptions { follow_links: true, ..options }, ..asked },
            ),
            Switch::NoHidden => lemma_same_from(
                left,
                right,
                at + 1,
                ArgsModel { options: ScanOptions { include_hidden: false, ..options }, ..asked },
            ),
            Switch::OneFilesystem => lemma_same_from(
                left,
                right,
                at + 1,
                ArgsModel { options: ScanOptions { one_filesystem: true, ..options }, ..asked },
            ),
            Switch::CrossFilesystems => lemma_same_from(
                left,
                right,
                at + 1,
                ArgsModel { options: ScanOptions { one_filesystem: false, ..options }, ..asked },
            ),
            Switch::Walk => lemma_same_from(
                left,
                right,
                at + 1,
                ArgsModel {
                    options: ScanOptions { file_table: FileTable::Never, ..options },
                    ..asked
                },
            ),
            Switch::Disk => lemma_same_from(left, right, at + 1, ArgsModel { disk: true, ..asked }),
            Switch::Depth => if at + 1 < left.len() {
                if let Some(depth) = text::number_in(left[at + 1]) {
                    lemma_same_from(
                        left,
                        right,
                        at + 2,
                        ArgsModel { depth: depth as u32, ..asked },
                    );
                }
            },
            Switch::Metric => if at + 1 < left.len() {
                if let Some(metric) = args::metric_called(left[at + 1]) {
                    lemma_same_from(
                        left,
                        right,
                        at + 2,
                        ArgsModel { options: ScanOptions { metric, ..options }, ..asked },
                    );
                }
            },
            Switch::Unknown => {},
            Switch::Path => lemma_same_from(
                left,
                right,
                at + 1,
                ArgsModel { root: Some(left[at]), ..asked },
            ),
        }
    }
}

/// Of every command line, writing an option by its other word changes nothing
/// of what is asked for.
pub proof fn lemma_short_or_long(left: Seq<Seq<char>>, right: Seq<Seq<char>>)
    requires
        one_meaning(left, right),
    ensures
        agree(request(left, args::unasked()), request(right, args::unasked())),
{
    lemma_same_from(left, right, 0, args::unasked());
}

/// What is scanned: where the disk is asked for, the volume that the home
/// directory is on, or the top of the current drive if that is not known; else
/// the path that is given; else the home directory, which there must be.
pub proof fn lemma_root_scanned(
    asked: ArgsModel,
    home: Option<Seq<char>>,
    volume: Option<Seq<char>>,
    top: Seq<char>,
)
    ensures
        asked.disk && volume is Some ==> args::root_asked(asked, home, volume, top) == Ok::<
            _,
            Wrong,
        >(volume->0),
        asked.disk && volume is None ==> args::root_asked(asked, home, volume, top) == Ok::<
            _,
            Wrong,
        >(top),
        !asked.disk && asked.root is Some ==> args::root_asked(asked, home, volume, top) == Ok::<
            _,
            Wrong,
        >(asked.root->0),
        !asked.disk && asked.root is None && home is Some ==> args::root_asked(
            asked,
            home,
            volume,
            top,
        ) == Ok::<_, Wrong>(home->0),
        !asked.disk && asked.root is None && home is None ==> args::root_asked(
            asked,
            home,
            volume,
            top,
        ) == Err::<Seq<char>, _>(Wrong::NoHome),
{
}

} // verus!
