//! Reading the file table, record by record and as a whole.

use disktree::mft::boot::STRIDE;
use disktree::mft::extent::ATTR_BITMAP;
use disktree::mft::pieces::{cut, is_addressable};
use disktree::mft::reading::{
    counted, parse_piece, plan_stream, reparse_offset, reparse_tag, Counted,
};
use disktree::mft::record::{
    ATTR_DATA, ATTR_END, ATTR_FILE_NAME, ATTR_REPARSE_POINT,
    ATTR_STANDARD_INFORMATION, EPOCH_DIFFERENCE, NAMESPACE_DOS,
};
use disktree::mft::{
    apply_fixups, decode_runs, parse_boot, parse_record, plan_pieces,
    table_extent, Geometry, Record, Run, Segment, Stream, Table, ROOT_RECORD,
};
use disktree::scan::ScanOptions;
use disktree::tree::{aggregate, Metric, Node, NodeKind};

/// A record builder: header, attributes, fixups — the same bytes NTFS
/// writes, so the parser is tested against the format, not itself.
struct Builder {
    bytes: Vec<u8>,
    position: usize,
}

impl Builder {
    fn new(flags: u16, base: u64) -> Self {
        let mut bytes = vec![0_u8; 1024];
        bytes[0..4].copy_from_slice(b"FILE");
        bytes[4..6].copy_from_slice(&0x30_u16.to_le_bytes());
        bytes[6..8].copy_from_slice(&3_u16.to_le_bytes());
        bytes[0x14..0x16].copy_from_slice(&0x38_u16.to_le_bytes());
        bytes[0x16..0x18].copy_from_slice(&flags.to_le_bytes());
        bytes[0x1c..0x20].copy_from_slice(&1024_u32.to_le_bytes());
        bytes[0x20..0x28].copy_from_slice(&base.to_le_bytes());
        Self {
            bytes,
            position: 0x38,
        }
    }

    fn attribute(mut self, header: &[u8]) -> Self {
        let end = self.position + header.len();
        self.bytes[self.position..end].copy_from_slice(header);
        self.position = end;
        self
    }

    fn resident(self, kind: u32, name: &str, value: &[u8]) -> Self {
        let name: Vec<u8> =
            name.encode_utf16().flat_map(u16::to_le_bytes).collect();
        let value_offset = (0x18 + name.len()).next_multiple_of(8);
        let length = (value_offset + value.len()).next_multiple_of(8);
        let mut header = vec![0_u8; length];
        header[0..4].copy_from_slice(&kind.to_le_bytes());
        header[4..8].copy_from_slice(&(length as u32).to_le_bytes());
        header[9] = (name.len() / 2) as u8;
        header[0x0a..0x0c].copy_from_slice(&0x18_u16.to_le_bytes());
        header[0x10..0x14]
            .copy_from_slice(&(value.len() as u32).to_le_bytes());
        header[0x14..0x16]
            .copy_from_slice(&(value_offset as u16).to_le_bytes());
        header[0x18..0x18 + name.len()].copy_from_slice(&name);
        header[value_offset..value_offset + value.len()]
            .copy_from_slice(value);
        self.attribute(&header)
    }

    fn non_resident(
        self,
        name: &str,
        flags: u16,
        runs: &[u8],
        sizes: (u64, u64, u64),
    ) -> Self {
        let (allocated, data, total) = sizes;
        let name: Vec<u8> =
            name.encode_utf16().flat_map(u16::to_le_bytes).collect();
        let runs_offset = (0x48 + name.len()).next_multiple_of(8);
        let length = (runs_offset + runs.len() + 1).next_multiple_of(8);
        let mut header = vec![0_u8; length];
        header[0..4].copy_from_slice(&ATTR_DATA.to_le_bytes());
        header[4..8].copy_from_slice(&(length as u32).to_le_bytes());
        header[8] = 1;
        header[9] = (name.len() / 2) as u8;
        header[0x0a..0x0c].copy_from_slice(&0x48_u16.to_le_bytes());
        header[0x0c..0x0e].copy_from_slice(&flags.to_le_bytes());
        let clusters: u64 = decode_runs(&[runs, &[0]].concat())
            .expect("runs")
            .iter()
            .map(|run| run.length)
            .sum();
        header[0x18..0x20]
            .copy_from_slice(&(clusters.max(1) - 1).to_le_bytes());
        header[0x20..0x22]
            .copy_from_slice(&(runs_offset as u16).to_le_bytes());
        header[0x28..0x30].copy_from_slice(&allocated.to_le_bytes());
        header[0x30..0x38].copy_from_slice(&data.to_le_bytes());
        header[0x40..0x48].copy_from_slice(&total.to_le_bytes());
        header[0x48..0x48 + name.len()].copy_from_slice(&name);
        header[runs_offset..runs_offset + runs.len()].copy_from_slice(runs);
        self.attribute(&header)
    }

    fn standard(self, modified_unix: i64) -> Self {
        let filetime =
            ((modified_unix + EPOCH_DIFFERENCE) * 10_000_000) as u64;
        let mut value = vec![0_u8; 0x48];
        value[0x08..0x10].copy_from_slice(&filetime.to_le_bytes());
        self.resident(ATTR_STANDARD_INFORMATION, "", &value)
    }

    fn file_name(self, parent: u64, name: &str, namespace: u8) -> Self {
        self.file_name_with(parent, name, namespace, 0, 0)
    }

    fn file_name_with(
        self,
        parent: u64,
        name: &str,
        namespace: u8,
        attributes: u32,
        reparse: u32,
    ) -> Self {
        let units: Vec<u8> =
            name.encode_utf16().flat_map(u16::to_le_bytes).collect();
        let mut value = vec![0_u8; 0x42 + units.len()];
        // A sequence number in the high bits, as a real reference has.
        let reference = parent | (7 << 48);
        value[0..8].copy_from_slice(&reference.to_le_bytes());
        value[0x38..0x3c].copy_from_slice(&attributes.to_le_bytes());
        value[0x3c..0x40].copy_from_slice(&reparse.to_le_bytes());
        value[0x40] = (units.len() / 2) as u8;
        value[0x41] = namespace;
        value[0x42..].copy_from_slice(&units);
        self.resident(ATTR_FILE_NAME, "", &value)
    }

    /// End the attribute list and protect the record with fixups.
    fn finish(mut self) -> Vec<u8> {
        let end = self.position;
        self.bytes[end..end + 4].copy_from_slice(&ATTR_END.to_le_bytes());
        let used = (end + 8) as u32;
        self.bytes[0x18..0x1c].copy_from_slice(&used.to_le_bytes());
        let check = [0xab, 0xcd];
        self.bytes[0x30..0x32].copy_from_slice(&check);
        for stride in 1..=2 {
            let tail = stride * STRIDE - 2;
            let saved = [self.bytes[tail], self.bytes[tail + 1]];
            self.bytes[0x30 + stride * 2..0x32 + stride * 2]
                .copy_from_slice(&saved);
            self.bytes[tail..tail + 2].copy_from_slice(&check);
        }
        self.bytes
    }
}

const DIRECTORY: u16 = 0x03;
const FILE: u16 = 0x01;

fn directory(parent: u64, name: &str) -> Vec<u8> {
    Builder::new(DIRECTORY, 0)
        .standard(1_000)
        .file_name(parent, name, 1)
        .finish()
}

const SPARSE: u16 = 0x8000;

/// One run of `clusters` at cluster 0x20, as mapping pairs.
fn run(clusters: u64) -> Vec<u8> {
    let [low, high, ..] = clusters.to_le_bytes();
    vec![0x12, low, high, 0x20]
}

fn file(parent: u64, name: &str, allocated: u64, apparent: u64) -> Vec<u8> {
    Builder::new(FILE, 0)
        .standard(2_000)
        .file_name(parent, name, 3)
        .non_resident(
            "",
            0,
            &run(allocated / 4096),
            (allocated, apparent, 0),
        )
        .finish()
}

#[test]
fn holes_are_not_space_even_when_the_header_says_so() {
    // `$BadClus:$Bad`: as long as the volume, all hole, not flagged
    // sparse, and its header's allocated size is the whole volume.
    let hole = [0x03, 0xa0, 0x86, 0x01]; // 100,000 clusters, no start
    let record = parse(
        Builder::new(FILE, 0)
            .file_name(5, "$BadClus", 1)
            .non_resident(
                "$Bad",
                0,
                &hole,
                (100_000 * 4096, 100_000 * 4096, 0),
            )
            .finish(),
    );
    assert_eq!(record.allocated, 0);
}

fn parse(mut bytes: Vec<u8>) -> Record {
    parse_record(&mut bytes, 4096).expect("a record")
}

/// A little volume: `/` (5) holds `Users` (40) and `$MFT` (0); Users
/// holds `tobi` (41), which holds a file, a hidden directory, a
/// junction and a hardlinked file under two names.
fn table() -> Table {
    let mut table = Table::default();
    let records: Vec<(u32, Vec<u8>)> = vec![
        (0, file(5, "$MFT", 1 << 20, 1 << 20)),
        (5, directory(5, ".")),
        (40, directory(5, "Users")),
        (41, directory(40, "tobi")),
        (42, file(41, "notes.txt", 4096, 1000)),
        (43, directory(41, ".cache")),
        (44, file(43, "blob.bin", 65_536, 65_000)),
        (
            45,
            Builder::new(DIRECTORY, 0)
                .standard(3_000)
                .file_name_with(
                    41,
                    "Application Data",
                    1,
                    0x400,
                    0xa000_0003,
                )
                .finish(),
        ),
        (
            46,
            Builder::new(FILE, 0)
                .standard(4_000)
                .file_name(41, "one.bin", 1)
                .file_name(43, "same.bin", 1)
                .file_name(41, "ONE~1.BIN", NAMESPACE_DOS)
                .non_resident("", 0, &[0x11, 0x02, 0x30], (8192, 8000, 0))
                .finish(),
        ),
    ];
    for (number, bytes) in records {
        table.add(number, parse(bytes));
    }
    table
}

fn options() -> ScanOptions {
    ScanOptions::default()
}

fn named<'a>(node: &'a Node, name: &str) -> &'a Node {
    node.child_named(name)
        .unwrap_or_else(|| panic!("{name} in {}", node.name))
}

#[test]
fn a_boot_sector_gives_the_geometry() {
    let mut sector = vec![0_u8; 512];
    sector[3..11].copy_from_slice(b"NTFS    ");
    sector[0x0b..0x0d].copy_from_slice(&512_u16.to_le_bytes());
    sector[0x0d] = 8;
    sector[0x30..0x38].copy_from_slice(&786_432_u64.to_le_bytes());
    sector[0x40] = 0xf6; // -10: 2^10-byte records
    assert_eq!(
        parse_boot(&sector),
        Some(Geometry {
            cluster: 4096,
            record: 1024,
            mft_offset: 786_432 * 4096,
        })
    );
    sector[3..11].copy_from_slice(b"EXFAT   ");
    assert_eq!(parse_boot(&sector), None, "only NTFS");
}

#[test]
fn fixups_restore_each_stride_and_catch_a_torn_write() {
    let bytes = directory(5, "Users");
    let mut good = bytes.clone();
    assert!(apply_fixups(&mut good));
    assert_eq!(&good[STRIDE - 2..STRIDE], &[0, 0], "the original bytes");

    let mut torn = bytes;
    torn[2 * STRIDE - 1] ^= 0xff;
    assert!(!apply_fixups(&mut torn), "a stride written half-way");
}

#[test]
fn runs_decode_with_signed_offsets_and_holes() {
    // 4 clusters at 0x20, 2 at 0x20 - 0x10, a 3-cluster hole, 1 at +0x100.
    let bytes = [
        0x11, 0x04, 0x20, 0x11, 0x02, 0xf0, 0x01, 0x03, 0x21, 0x01, 0x00,
        0x01, 0x00,
    ];
    assert_eq!(
        decode_runs(&bytes),
        Some(vec![
            Run {
                start: Some(0x20),
                length: 4
            },
            Run {
                start: Some(0x10),
                length: 2
            },
            Run {
                start: None,
                length: 3
            },
            Run {
                start: Some(0x110),
                length: 1
            },
        ])
    );
    assert_eq!(decode_runs(&[0x11, 0x04]), None, "cut short");
}

#[test]
fn a_record_yields_names_sizes_and_time() {
    let record = parse(file(41, "notes.txt", 4096, 1000));
    assert_eq!(record.names, vec![(41, "notes.txt".into())]);
    assert_eq!((record.allocated, record.apparent), (4096, 1000));
    assert_eq!(record.modified, Some(2_000));
    assert!(!record.is_dir);
    assert_eq!(record.base, None);
}

#[test]
fn sparse_and_compressed_streams_count_what_they_occupy() {
    let record = parse(
        Builder::new(FILE, 0)
            .file_name(41, "disk.vhdx", 1)
            .non_resident(
                "",
                SPARSE,
                &[0x11, 0x01, 0x10],
                (1 << 30, 1 << 30, 4096),
            )
            .non_resident(
                "Zone.Identifier",
                0,
                &[0x11, 0x01, 0x40],
                (4096, 26, 0),
            )
            .finish(),
    );
    assert_eq!(record.allocated, 4096 + 4096, "sparse, plus a stream");
    assert_eq!(record.apparent, 1 << 30, "only the unnamed stream");
}

#[test]
fn free_records_and_other_bytes_are_not_records() {
    let mut free = Builder::new(0, 0).file_name(5, "gone", 1).finish();
    assert_eq!(parse_record(&mut free, 4096), None);
    let mut zeros = vec![0_u8; 1024];
    assert_eq!(parse_record(&mut zeros, 4096), None);
}

#[test]
fn the_table_builds_the_tree_the_walk_would() {
    let index = table().index();
    let tobi = index.resolve(&["Users", "tobi"]).expect("tobi");
    assert_eq!(tobi, 41);
    let mut tree = index.build(tobi, "tobi", &options());
    aggregate(&mut tree, Metric::Bytes);

    assert_eq!(named(&tree, "notes.txt").bytes, 4096, "allocated");
    assert_eq!(named(named(&tree, ".cache"), "blob.bin").bytes, 65_536);
    let junction = named(&tree, "Application Data");
    assert_eq!(junction.kind, NodeKind::Symlink, "not entered");
    assert!(tree.child_named("ONE~1.BIN").is_none(), "8.3 alias");
    let one = named(&tree, "one.bin");
    let same = named(named(&tree, ".cache"), "same.bin");
    assert_eq!(one.inode, same.inode, "one file, two names");
    assert!(one.inode.is_some());
    assert_eq!(one.modified, 4_000);
}

#[test]
fn paths_resolve_without_regard_to_case() {
    let index = table().index();
    assert_eq!(index.resolve(&["users", "TOBI"]), Some(41));
    assert_eq!(index.resolve(&["Users", "nobody"]), None);
    assert_eq!(index.resolve(&[]), Some(ROOT_RECORD));
}

#[test]
fn scan_options_apply_as_they_do_to_the_walk() {
    let index = table().index();
    let tobi = index.resolve(&["Users", "tobi"]).expect("tobi");
    let no_hidden = ScanOptions {
        include_hidden: false,
        ..options()
    };
    let tree = index.build(tobi, "tobi", &no_hidden);
    assert!(tree.child_named(".cache").is_none());

    let apparent = ScanOptions {
        apparent_size: true,
        ..options()
    };
    let tree = index.build(tobi, "tobi", &apparent);
    assert_eq!(named(&tree, "notes.txt").own_bytes, 1000);

    let shallow = ScanOptions {
        max_depth: Some(0),
        ..options()
    };
    let tree = index.build(tobi, "tobi", &shallow);
    assert!(tree.children.is_empty(), "depth 0 lists nothing below");
}

#[test]
fn the_volume_root_holds_the_system_files() {
    let index = table().index();
    let tree = index.build(ROOT_RECORD, r"C:\", &options());
    assert!(tree.child_named("$MFT").is_some());
    assert!(tree.child_named(".").is_none(), "the root is not its child");
}

#[test]
fn extension_records_fold_into_their_base() {
    let mut table = Table::default();
    table.add(5, parse(directory(5, ".")));
    table.add(
        60,
        parse(
            Builder::new(FILE, 0)
                .standard(5_000)
                .file_name(5, "big.iso", 1)
                .finish(),
        ),
    );
    // The stream's sizes live in record 61, which points back at 60.
    table.add(
        61,
        parse(
            Builder::new(FILE, 60)
                .non_resident(
                    "",
                    0,
                    &[0x11, 0x08, 0x10],
                    (32_768, 30_000, 0),
                )
                .finish(),
        ),
    );
    let index = table.index();
    let tree = index.build(ROOT_RECORD, r"C:\", &options());
    assert_eq!(named(&tree, "big.iso").own_bytes, 32_768);
    assert_eq!(tree.children.len(), 1, "the extension is not a file");
}

#[test]
fn pieces_cover_the_table_in_order_across_runs_and_holes() {
    let geometry = Geometry {
        cluster: 4096,
        record: 1024,
        mft_offset: 0,
    };
    let runs = [
        Run {
            start: Some(100),
            length: 3,
        },
        Run {
            start: None,
            length: 1,
        },
        Run {
            start: Some(500),
            length: 4,
        },
    ];
    // Eight clusters, the last one only half used by the table.
    let size = 7 * 4096 + 2048;
    let pieces = cut(&runs, geometry, size, 8192);
    let firsts: Vec<u64> =
        pieces.iter().map(|piece| piece.first_record).collect();
    assert_eq!(firsts, vec![0, 8, 16, 24]);
    assert_eq!(
        pieces[1].segments,
        vec![
            Segment {
                offset: Some(102 * 4096),
                length: 4096
            },
            Segment {
                offset: None,
                length: 4096
            },
        ],
        "a piece that crosses into a hole"
    );
    assert_eq!(
        pieces[3].segments,
        vec![Segment {
            offset: Some(502 * 4096),
            length: 8192
        }],
        "whole clusters, even past the table's end"
    );
    assert_eq!(pieces[3].records, 6, "but only the table's records");
    let records: usize = pieces.iter().map(|piece| piece.records).sum();
    assert_eq!(records as u64, size / 1024);
    assert!(pieces.iter().all(|piece| piece.length % 4096 == 0));
}

#[test]
fn free_stretches_are_not_read_and_the_rest_is_merged() {
    let geometry = Geometry {
        cluster: 4096,
        record: 1024,
        mft_offset: 0,
    };
    // 1 MiB of table in one run: 16 granules of 64 records each.
    let runs = [Run {
        start: Some(1000),
        length: 256,
    }];
    let size = 1 << 20;
    let mut bits = vec![0_u8; 1024 / 8];
    // In use: record 3 (granule 0), 70 (granule 1), 700 (granule 10).
    for record in [3_usize, 70, 700] {
        bits[record / 8] |= 1 << (record % 8);
    }
    let pieces = plan_pieces(&runs, geometry, size, 8 << 20, Some(&bits));
    assert_eq!(pieces.len(), 2, "granules 0-1 merge; 10 stands alone");
    assert_eq!(pieces[0].first_record, 0);
    assert_eq!(pieces[0].records, 128);
    assert_eq!(
        pieces[0].segments,
        vec![Segment {
            offset: Some(1000 * 4096),
            length: 128 << 10
        }]
    );
    assert_eq!(pieces[1].first_record, 640);
    assert_eq!(
        pieces[1].segments,
        vec![Segment {
            offset: Some(1000 * 4096 + (640 << 10)),
            length: 64 << 10
        }]
    );

    let everything = plan_pieces(&runs, geometry, size, 8 << 20, None);
    assert_eq!(everything.len(), 1, "no bitmap: read it all, in one");
    assert_eq!(everything[0].records, 1024);
}

#[test]
fn a_long_link_target_leaves_its_tag_to_be_read() {
    let mut header = vec![0_u8; 0x48];
    header[0..4].copy_from_slice(&ATTR_REPARSE_POINT.to_le_bytes());
    header[4..8].copy_from_slice(&0x48_u32.to_le_bytes());
    header[8] = 1;
    header[0x20..0x22].copy_from_slice(&0x40_u16.to_le_bytes());
    header[0x40..0x43].copy_from_slice(&[0x11, 0x01, 0x77]);
    let record = parse(
        Builder::new(DIRECTORY, 0)
            .file_name(41, "node_modules", 1)
            .attribute(&header)
            .finish(),
    );
    assert_eq!(record.reparse_tag, None);
    assert_eq!(record.reparse_cluster, Some(0x77));

    let mut table = Table::default();
    table.add(5, parse(directory(5, ".")));
    table.add(41, parse(directory(5, "pkg")));
    table.add(70, record);
    assert_eq!(table.unresolved_reparse(), vec![(70, 0x77)]);
    table.set_reparse_tag(70, 0xa000_0003);
    assert!(table.unresolved_reparse().is_empty());
    let index = table.index();
    let tree = index.build(41, "pkg", &options());
    assert_eq!(named(&tree, "node_modules").kind, NodeKind::Symlink);
}

#[test]
fn the_table_extent_comes_from_record_zero() {
    let mut zero = Builder::new(FILE, 0)
        .file_name(5, "$MFT", 1)
        .non_resident(
            "",
            0,
            &[0x21, 0x10, 0x00, 0x01, 0x11, 0x08, 0x40],
            (24 * 4096, 24 * 4096, 0),
        )
        .finish();
    let extent = table_extent(&mut zero).expect("extent");
    assert_eq!(extent.size, 24 * 4096);
    assert_eq!(
        extent.runs,
        vec![
            Run {
                start: Some(0x100),
                length: 16
            },
            Run {
                start: Some(0x140),
                length: 8
            },
        ]
    );
    assert_eq!(extent.bitmap, None, "no bitmap: every record is read");
}

#[test]
fn the_in_use_bitmap_is_found_beside_the_table() {
    let mut zero = Builder::new(FILE, 0)
        .file_name(5, "$MFT", 1)
        .non_resident("", 0, &[0x11, 0x08, 0x40], (8 * 4096, 8 * 4096, 0))
        .resident(ATTR_BITMAP, "", &[0b1010_0001, 0xff])
        .finish();
    let extent = table_extent(&mut zero).expect("extent");
    assert_eq!(
        extent.bitmap,
        Some(Stream::Resident(vec![0b1010_0001, 0xff]))
    );
}

#[test]
fn a_boot_sector_that_says_nothing_sensible_is_refused() {
    let mut sector = vec![0_u8; 512];
    sector[3..11].copy_from_slice(b"NTFS    ");
    sector[0x0b..0x0d].copy_from_slice(&512_u16.to_le_bytes());
    sector[0x0d] = 0xf4; // 2^12 sectors to a cluster
    sector[0x30..0x38].copy_from_slice(&4_u64.to_le_bytes());
    sector[0x40] = 0xf4; // 2^12-byte records
    assert_eq!(
        parse_boot(&sector),
        Some(Geometry {
            cluster: 512 << 12,
            record: 4096,
            mft_offset: 4 * (512 << 12),
        })
    );
    sector[0x0d] = 0;
    assert_eq!(parse_boot(&sector), None, "no sectors to a cluster");
    sector[0x0d] = 8;
    sector[0x0b..0x0d].copy_from_slice(&513_u16.to_le_bytes());
    assert_eq!(parse_boot(&sector), None, "no power of two");
    assert_eq!(parse_boot(&sector[..0x20]), None, "cut short");
}

#[test]
fn what_was_written_whole_is_read_back() {
    let written = file(41, "notes.txt", 4096, 1000);
    let mut record = written.clone();
    assert!(apply_fixups(&mut record));
    assert_eq!(record.len(), written.len());
    for at in 0..record.len() {
        if at % STRIDE < STRIDE - 2 {
            assert_eq!(record[at], written[at], "only the ends are put back");
        }
    }
    let mut short = written[..511].to_vec();
    assert!(!apply_fixups(&mut short), "no whole strides");
}

#[test]
fn runs_past_the_start_of_the_volume_are_refused() {
    assert_eq!(decode_runs(&[0x11, 0x01, 0xff, 0x00]), None, "below zero");
    assert_eq!(decode_runs(&[0x10, 0x01, 0x00]), None, "no length");
    assert_eq!(decode_runs(&[0x19, 0x01, 0x00]), None, "too wide");
    assert_eq!(decode_runs(&[0x00]), Some(vec![]));
}

#[test]
fn a_name_that_is_not_text_is_still_a_name() {
    let mut bytes = Builder::new(FILE, 0).file_name(5, "ab", 1).finish();
    // The first letter becomes half of a surrogate pair.
    let at = bytes
        .windows(4)
        .position(|window| window == [b'a', 0, b'b', 0])
        .expect("the name");
    bytes[at] = 0x00;
    bytes[at + 1] = 0xd8;
    assert_eq!(&*parse(bytes).names[0].1, "\u{fffd}b");
    let clef = Builder::new(FILE, 0)
        .file_name(5, "\u{1d11e}.mid", 1)
        .finish();
    assert_eq!(&*parse(clef).names[0].1, "\u{1d11e}.mid");
}

#[test]
fn whichever_record_of_an_entry_comes_first_its_sizes_add_up() {
    let base = || {
        parse(
            Builder::new(FILE, 0)
                .standard(5_000)
                .file_name(5, "big.iso", 1)
                .finish(),
        )
    };
    let extension = || {
        parse(
            Builder::new(FILE, 60)
                .non_resident("", 0, &[0x11, 0x08, 0x10], (32_768, 30_000, 0))
                .finish(),
        )
    };
    for base_first in [true, false] {
        let mut table = Table::default();
        table.add(5, parse(directory(5, ".")));
        if base_first {
            table.add(60, base());
            table.add(61, extension());
        } else {
            table.add(61, extension());
            table.add(60, base());
        }
        let tree = table.index().build(ROOT_RECORD, r"C:\", &options());
        assert_eq!(tree.children.len(), 1);
        assert_eq!(named(&tree, "big.iso").own_bytes, 32_768);
        assert_eq!(named(&tree, "big.iso").modified, 5_000);
    }
}

#[test]
fn sizes_past_64_bits_are_not_added() {
    let mut table = Table::default();
    let huge = || Record {
        allocated: u64::MAX,
        ..Record::default()
    };
    assert!(table.can_add(7, &huge()));
    table.add(7, huge());
    assert!(!table.can_add(7, &huge()));
    assert!(!table.add_all(vec![(1 << 40, huge()), (7, huge())]));
    assert!(table.add_all(vec![(1 << 40, huge())]), "no record's number");
}

#[test]
fn a_directory_met_again_is_not_entered_again() {
    let mut table = Table::default();
    table.add(5, parse(directory(5, ".")));
    // 40 and 41 are each in the other, and 40 is in the root.
    table.add(
        40,
        parse(
            Builder::new(DIRECTORY, 0)
                .file_name(5, "a", 1)
                .file_name(41, "a-again", 1)
                .finish(),
        ),
    );
    table.add(41, parse(directory(40, "b")));
    let tree = table.index().build(ROOT_RECORD, r"C:\", &options());
    let again = named(named(named(&tree, "a"), "b"), "a-again");
    assert_eq!(again.kind, NodeKind::Directory);
    assert!(again.children.is_empty());
}

#[test]
fn an_exact_spelling_is_found_before_another_case() {
    let mut table = Table::default();
    table.add(5, parse(directory(5, ".")));
    table.add(40, parse(directory(5, "SRC")));
    table.add(41, parse(directory(5, "src")));
    let index = table.index();
    assert_eq!(index.resolve(&["src"]), Some(41));
    assert_eq!(index.resolve(&["SRC"]), Some(40));
    assert_eq!(index.resolve(&["Src"]), Some(40), "the first in any case");
}

#[test]
fn names_fold_their_case_beyond_ascii() {
    let mut table = Table::default();
    table.add(5, parse(directory(5, ".")));
    table.add(40, parse(directory(5, "ÄPFEL")));
    assert_eq!(table.index().resolve(&["äpfel"]), Some(40));
}

#[test]
fn names_of_what_is_free_are_not_listed() {
    let mut table = Table::default();
    table.add(5, parse(directory(5, ".")));
    // Its parent was never seen in use.
    table.add(40, parse(directory(39, "lost")));
    let index = table.index();
    assert_eq!(index.len(), 41);
    assert!(index.build(5, "", &options()).children.is_empty());
}

#[test]
fn a_piece_is_cut_into_its_records() {
    let geometry = Geometry {
        cluster: 4096,
        record: 1024,
        mft_offset: 0,
    };
    let mut data = directory(5, "Users");
    data.extend(vec![0_u8; 1024]);
    data.extend(file(5, "notes.txt", 4096, 1000));
    data.extend(directory(5, "past the table"));
    let records = parse_piece(&data, geometry, 40, 3);
    let numbers: Vec<u64> = records.iter().map(|(number, _)| *number).collect();
    assert_eq!(numbers, vec![40, 42], "41 is no record, 43 not the table's");
    assert_eq!(counted(&records[0].1), Counted::Directory);
    assert_eq!(counted(&records[1].1), Counted::File { bytes: 4096 });
    let extension = Record {
        base: Some(42),
        ..Record::default()
    };
    assert_eq!(counted(&extension), Counted::Nothing);

    let mut table = Table::default();
    assert!(table.add_all(records));
    assert!(table.can_add(44, &extension));
}

#[test]
fn a_stream_is_read_run_by_run_until_there_is_enough() {
    let geometry = Geometry {
        cluster: 4096,
        record: 1024,
        mft_offset: 0,
    };
    let runs = [
        Run {
            start: Some(10),
            length: 2,
        },
        Run {
            start: None,
            length: 1,
        },
        Run {
            start: Some(99),
            length: 5,
        },
    ];
    let two = vec![
        Segment {
            offset: Some(10 * 4096),
            length: 8192,
        },
        Segment {
            offset: None,
            length: 4096,
        },
    ];
    assert_eq!(plan_stream(&runs, geometry, 8193), Some(two.clone()));
    assert_eq!(plan_stream(&runs, geometry, 3 * 4096), Some(two));
    assert_eq!(plan_stream(&runs, geometry, 1).map(|list| list.len()), Some(1));
    let past = [Run {
        start: Some(u64::MAX),
        length: 1,
    }];
    assert_eq!(plan_stream(&past, geometry, 1), None);
}

#[test]
fn a_table_past_the_end_of_64_bits_cannot_be_planned() {
    let geometry = Geometry {
        cluster: 4096,
        record: 1024,
        mft_offset: 0,
    };
    let fits = [Run {
        start: Some(100),
        length: 3,
    }];
    assert!(is_addressable(&fits, geometry, 3 * 4096));
    let far = [Run {
        start: Some(u64::MAX / 4096),
        length: 3,
    }];
    assert!(!is_addressable(&far, geometry, 3 * 4096));
    assert!(!is_addressable(&fits, geometry, u64::MAX));
    let nothing = Geometry {
        cluster: 0,
        ..geometry
    };
    assert!(!is_addressable(&fits, nothing, 4096));
}

#[test]
fn every_record_that_may_be_in_use_is_in_one_piece() {
    let geometry = Geometry {
        cluster: 4096,
        record: 1024,
        mft_offset: 0,
    };
    let runs = [
        Run {
            start: Some(1000),
            length: 100,
        },
        Run {
            start: Some(9000),
            length: 156,
        },
    ];
    let size = 1 << 20;
    let mut bits = vec![0_u8; 1024 / 8];
    let used = [0_u64, 63, 64, 300, 999];
    for record in used {
        bits[record as usize / 8] |= 1 << (record % 8);
    }
    let pieces = plan_pieces(&runs, geometry, size, 128 << 10, Some(&bits));
    for record in used {
        let holding = pieces
            .iter()
            .filter(|piece| {
                piece.first_record <= record
                    && record < piece.first_record + piece.records as u64
            })
            .count();
        assert_eq!(holding, 1, "record {record}");
    }
    for pair in pieces.windows(2) {
        assert!(
            pair[0].first_record + pair[0].records as u64
                <= pair[1].first_record
        );
    }
    for piece in &pieces {
        assert_eq!(piece.length % 4096, 0);
        let held: usize = piece.segments.iter().map(|part| part.length).sum();
        assert_eq!(held, piece.length);
        assert!(piece.length <= 128 << 10);
    }
}

#[test]
fn a_tag_is_read_from_where_its_cluster_is() {
    let geometry = Geometry {
        cluster: 4096,
        record: 1024,
        mft_offset: 0,
    };
    assert_eq!(reparse_offset(0x77, geometry), Some(0x77 * 4096));
    assert_eq!(reparse_offset(u64::MAX, geometry), None);
    assert_eq!(reparse_tag(&[3, 0, 0, 0xa0, 9]), Some(0xa000_0003));
    assert_eq!(reparse_tag(&[3, 0, 0]), None);
    let mut table = Table::default();
    let mut record = parse(directory(5, "link"));
    record.reparse_cluster = Some(0x77);
    table.add(40, record);
    table.set_reparse_tags(&[(40, None), (41, Some(1))]);
    assert_eq!(table.unresolved_reparse(), vec![(40, 0x77)]);
    table.set_reparse_tags(&[(40, Some(0xa000_0003))]);
    assert!(table.unresolved_reparse().is_empty());
}

#[test]
fn a_piece_is_read_from_where_its_records_lie() {
    let geometry = Geometry {
        cluster: 4096,
        record: 1024,
        mft_offset: 0,
    };
    let runs = [
        Run {
            start: Some(100),
            length: 7,
        },
        Run {
            start: None,
            length: 3,
        },
        Run {
            start: Some(40),
            length: 30,
        },
    ];
    let size = 40 * 4096;
    // Where on the volume a byte of the table lies.
    let place = |byte: u64| {
        let mut begin = 0;
        for run in &runs {
            let end = begin + run.length * 4096;
            if byte < end {
                return run.start.map(|start| start * 4096 + byte - begin);
            }
            begin = end;
        }
        None
    };
    let pieces = plan_pieces(&runs, geometry, size, 100_000, None);
    let records: usize = pieces.iter().map(|piece| piece.records).sum();
    assert_eq!(records, 160);
    for piece in &pieces {
        let mut byte = piece.first_record * 1024;
        for segment in &piece.segments {
            assert_eq!(segment.offset, place(byte));
            byte += segment.length as u64;
            let last = segment.offset.map(|start| start + segment.length as u64 - 1);
            assert_eq!(last, place(byte - 1));
        }
        assert!(piece.records * 1024 <= piece.length);
    }
}
