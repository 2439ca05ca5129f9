use packer::archive::write_archive;
use packer::config::{Config, ContentItem};
use packer::header::{create_header, Header, HeaderItem};
use packer::paths::{parse_path, FsPath, PathPart};

fn normal(s: &str) -> PathPart {
    PathPart::Normal(s.to_string())
}

fn rel(parts: Vec<PathPart>) -> FsPath {
    FsPath { absolute: false, parts }
}

fn read_u64(bytes: &[u8], pos: usize) -> u64 {
    let mut v: u64 = 0;
    for k in (0..8).rev() {
        v = (v << 8) | bytes[pos + k] as u64;
    }
    v
}

fn read_u16(bytes: &[u8], pos: usize) -> u16 {
    (bytes[pos] as u16) | ((bytes[pos + 1] as u16) << 8)
}

struct DecodedRecord {
    data_offset: u64,
    data_length: u64,
    name: String,
    path: String,
    end: usize,
}

fn decode_record(bytes: &[u8], pos: usize) -> DecodedRecord {
    let data_offset = read_u64(bytes, pos);
    let data_length = read_u64(bytes, pos + 8);
    let name_len = read_u16(bytes, pos + 16) as usize;
    let name = String::from_utf8(bytes[pos + 18..pos + 18 + name_len].to_vec()).unwrap();
    let plen_pos = pos + 18 + name_len;
    let path_len = read_u16(bytes, plen_pos) as usize;
    let path =
        String::from_utf8(bytes[plen_pos + 2..plen_pos + 2 + path_len].to_vec()).unwrap();
    DecodedRecord { data_offset, data_length, name, path, end: plen_pos + 2 + path_len }
}

fn decompress(bytes: &[u8]) -> Vec<u8> {
    let mut decoder = libflate::zlib::Decoder::new(bytes).expect("zlib stream must open");
    let mut out = Vec::new();
    std::io::Read::read_to_end(&mut decoder, &mut out).expect("zlib stream must decode");
    out
}

fn two_png_header() -> Header {
    let base = rel(vec![normal("assets")]);
    let config = Config {
        output: "bundle.pak".to_string(),
        base: None,
        content: vec![ContentItem::Unnamed { pattern: "*.png".to_string() }],
    };
    let matches = vec![Ok(vec![
        rel(vec![normal("assets"), normal("a.png")]),
        rel(vec![normal("assets"), normal("b.png")]),
    ])];
    create_header(&base, &config, &matches).expect("two matches must build")
}

#[test]
fn two_matches_build_two_relative_names() {
    let header = two_png_header();
    assert_eq!(header.items.len(), 2);
    assert_eq!(header.items[0].name.as_deref(), Some("a.png"));
    assert_eq!(header.items[1].name.as_deref(), Some("b.png"));
    assert!(header.items[0].data_offset.is_none());
    assert!(header.items[0].data_length.is_none());
}

#[test]
fn archive_layout_matches_header_records() {
    let mut header = two_png_header();
    let contents: Vec<Vec<u8>> =
        vec![b"first png bytes".to_vec(), b"second png payload, somewhat longer".to_vec()];
    let bytes = write_archive(&mut header, &contents).expect("archive must render");

    let rec0 = decode_record(&bytes, 0);
    let rec1 = decode_record(&bytes, rec0.end);
    assert_eq!(rec0.name, "a.png");
    assert_eq!(rec1.name, "b.png");
    assert_eq!(rec0.path, "assets/a.png");
    assert_eq!(rec1.path, "assets/b.png");

    // The first data block starts right after the header.
    assert_eq!(rec0.data_offset as usize, rec1.end);
    assert_eq!(
        rec1.data_offset,
        rec0.data_offset + rec0.data_length,
        "blocks are contiguous"
    );
    assert_eq!(
        bytes.len() as u64,
        rec1.data_offset + rec1.data_length,
        "file totals header plus blocks"
    );

    // The finalized header carries the same placement.
    assert_eq!(header.items[0].data_offset, Some(rec0.data_offset));
    assert_eq!(header.items[0].data_length, Some(rec0.data_length));
    assert_eq!(header.items[1].data_offset, Some(rec1.data_offset));
    assert_eq!(header.items[1].data_length, Some(rec1.data_length));

    // Round trip: the recorded spans decompress to the original contents.
    let block0 =
        &bytes[rec0.data_offset as usize..(rec0.data_offset + rec0.data_length) as usize];
    let block1 =
        &bytes[rec1.data_offset as usize..(rec1.data_offset + rec1.data_length) as usize];
    assert_eq!(decompress(block0), contents[0]);
    assert_eq!(decompress(block1), contents[1]);
}

#[test]
fn name_field_encoding_is_reversible() {
    let name = "unicode-\u{00e9}\u{4e16}\u{754c}.txt";
    let base = rel(vec![]);
    let config = Config {
        output: "o".to_string(),
        base: None,
        content: vec![ContentItem::Named {
            name: name.to_string(),
            pattern: "src.bin".to_string(),
        }],
    };
    let matches = vec![Ok(vec![])];
    let mut header = create_header(&base, &config, &matches).expect("named rule must build");
    let bytes = write_archive(&mut header, &vec![b"x".to_vec()]).expect("archive must render");
    let rec = decode_record(&bytes, 0);
    assert_eq!(rec.name, name);
}

#[test]
fn named_rule_is_a_literal_path() {
    let base = rel(vec![normal("assets")]);
    let config = Config {
        output: "o".to_string(),
        base: None,
        content: vec![ContentItem::Named {
            name: "icon".to_string(),
            pattern: "img/icon.svg".to_string(),
        }],
    };
    let matches = vec![Ok(vec![])];
    let header = create_header(&base, &config, &matches).expect("named rule must build");
    assert_eq!(header.items.len(), 1);
    assert_eq!(header.items[0].name.as_deref(), Some("icon"));
    assert_eq!(packer::paths::to_slash(&header.items[0].path), "assets/img/icon.svg");
}

#[test]
fn names_keep_the_directory_when_base_is_above_it() {
    let base = rel(vec![]);
    let config = Config {
        output: "bundle.pak".to_string(),
        base: None,
        content: vec![ContentItem::Unnamed { pattern: "assets/*.png".to_string() }],
    };
    let matches = vec![Ok(vec![
        rel(vec![normal("assets"), normal("a.png")]),
        rel(vec![normal("assets"), normal("b.png")]),
    ])];
    let header = create_header(&base, &config, &matches).expect("job must build");
    assert_eq!(header.items[0].name.as_deref(), Some("assets/a.png"));
    assert_eq!(header.items[1].name.as_deref(), Some("assets/b.png"));
}

#[test]
fn zero_matches_build_an_empty_header() {
    let base = rel(vec![normal("assets")]);
    let config = Config {
        output: "o".to_string(),
        base: None,
        content: vec![ContentItem::Unnamed { pattern: "*.nothing".to_string() }],
    };
    let matches = vec![Ok(vec![])];
    let header = create_header(&base, &config, &matches).expect("no match is not an error");
    assert_eq!(header.items.len(), 0);
}

#[test]
fn duplicate_named_rules_fail_the_build() {
    let base = rel(vec![]);
    let config = Config {
        output: "o".to_string(),
        base: None,
        content: vec![
            ContentItem::Named { name: "same".to_string(), pattern: "a.bin".to_string() },
            ContentItem::Named { name: "same".to_string(), pattern: "b.bin".to_string() },
        ],
    };
    let matches = vec![Ok(vec![]), Ok(vec![])];
    assert!(create_header(&base, &config, &matches).is_err());
}

#[test]
fn failed_pattern_fails_the_build() {
    let base = rel(vec![]);
    let config = Config {
        output: "o".to_string(),
        base: None,
        content: vec![ContentItem::Unnamed { pattern: "[bad".to_string() }],
    };
    let matches = vec![Err("bad pattern".to_string())];
    let err = create_header(&base, &config, &matches).unwrap_err();
    assert_eq!(err, "bad pattern");
}

#[test]
fn unrepresentable_relative_path_fails_the_build() {
    let base = FsPath { absolute: true, parts: vec![normal("srv")] };
    let config = Config {
        output: "o".to_string(),
        base: None,
        content: vec![ContentItem::Unnamed { pattern: "*".to_string() }],
    };
    // A relative match against an absolute base cannot be made relative.
    let matches = vec![Ok(vec![rel(vec![normal("stray.txt")])])];
    assert!(create_header(&base, &config, &matches).is_err());
}

#[test]
fn unnamed_entries_precede_named_entries() {
    let base = rel(vec![]);
    let config = Config {
        output: "o".to_string(),
        base: None,
        content: vec![
            ContentItem::Named { name: "z-last".to_string(), pattern: "z.bin".to_string() },
            ContentItem::Unnamed { pattern: "*.txt".to_string() },
        ],
    };
    let matches = vec![Ok(vec![]), Ok(vec![rel(vec![normal("a.txt")])])];
    let header = create_header(&base, &config, &matches).expect("job must build");
    assert_eq!(header.items.len(), 2);
    assert_eq!(header.items[0].name.as_deref(), Some("a.txt"));
    assert_eq!(header.items[1].name.as_deref(), Some("z-last"));
}

#[test]
fn each_aliased_rule_yields_one_entry_in_rule_order() {
    let base = rel(vec![normal("root")]);
    let config = Config {
        output: "o".to_string(),
        base: None,
        content: vec![
            ContentItem::Named { name: "first".to_string(), pattern: "a/one.bin".to_string() },
            ContentItem::Unnamed { pattern: "*.txt".to_string() },
            ContentItem::Named { name: "second".to_string(), pattern: "two.bin".to_string() },
        ],
    };
    let matches =
        vec![Ok(vec![]), Ok(vec![rel(vec![normal("root"), normal("n.txt")])]), Ok(vec![])];
    let header = create_header(&base, &config, &matches).expect("job must build");
    assert_eq!(header.items.len(), 3);
    assert_eq!(header.items[0].name.as_deref(), Some("n.txt"));
    assert_eq!(header.items[1].name.as_deref(), Some("first"));
    assert_eq!(header.items[2].name.as_deref(), Some("second"));
    assert_eq!(packer::paths::to_slash(&header.items[1].path), "root/a/one.bin");
    assert_eq!(packer::paths::to_slash(&header.items[2].path), "root/two.bin");
}

#[test]
fn item_without_a_name_cannot_be_written() {
    let mut header =
        Header { items: vec![HeaderItem::new(rel(vec![normal("orphan.bin")]))] };
    assert!(write_archive(&mut header, &vec![b"data".to_vec()]).is_err());
}

#[test]
fn record_length_counts_fixed_and_string_fields() {
    let mut item = HeaderItem::new(parse_path("d/e"));
    item.name = Some("abc".to_string());
    // 8 + 8 + 2 + 3 + 2 + 3
    assert_eq!(item.length(), 26);
}

#[test]
fn unnamed_item_has_zero_record_length() {
    let item = HeaderItem::new(parse_path("d/e"));
    assert_eq!(item.length(), 0);
}

#[test]
fn record_bytes_are_exact() {
    let mut item = HeaderItem::new(parse_path("p"));
    item.name = Some("ab".to_string());
    item.data_offset = Some(0x0102030405060708);
    item.data_length = Some(9);
    let mut out = Vec::new();
    let mut pos = 0;
    match item.write(pos, &mut out) {
        Ok(p) => pos = p,
        Err(e) => panic!("write failed: {}", e),
    }
    let expected: Vec<u8> = vec![
        8, 7, 6, 5, 4, 3, 2, 1, // data offset, little endian
        9, 0, 0, 0, 0, 0, 0, 0, // data length
        2, 0, b'a', b'b', // name
        1, 0, b'p', // path
    ];
    assert_eq!(out, expected);
    assert_eq!(pos, expected.len());
    assert_eq!(item.header_offset, Some(0));
}
