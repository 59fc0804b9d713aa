use apkv::xml::constants::{END_DOCUMENT, END_TAG, START_DOCUMENT, START_TAG, TEXT};
use apkv::xml::parser::{AXmlParser, AttributeValue};
use apkv::{parse_android_manifest, ManifestError, ManifestPiece};

const AXML: u32 = 0x0008_0003;
const POOL: u32 = 0x001C_0001;
const RES_IDS: u32 = 0x0008_0180;
const START_NS: u32 = 0x0010_0100;
const END_NS: u32 = 0x0010_0101;
const START_EL: u32 = 0x0010_0102;
const END_EL: u32 = 0x0010_0103;
const TEXT_EL: u32 = 0x0010_0104;
const NONE: u32 = 0xFFFF_FFFF;

/// The words of a string pool holding `strings`.
fn pool(strings: &[&str]) -> Vec<u32> {
    let mut units: Vec<u16> = Vec::new();
    let mut offsets: Vec<u32> = Vec::new();
    for s in strings {
        offsets.push((units.len() * 2) as u32);
        let us: Vec<u16> = s.encode_utf16().collect();
        units.push(us.len() as u16);
        units.extend(us);
        units.push(0);
    }
    if units.len() % 2 != 0 {
        units.push(0);
    }
    let strings_offset = 28 + 4 * strings.len() as u32;
    let chunk_size = strings_offset + 2 * units.len() as u32;
    let mut w = vec![POOL, chunk_size, strings.len() as u32, 0, 0, strings_offset, 0];
    w.extend(offsets);
    for pair in units.chunks(2) {
        w.push(pair[0] as u32 | ((pair[1] as u32) << 16));
    }
    w
}

fn bytes(words: &[u32]) -> Vec<u8> {
    words.iter().flat_map(|w| w.to_le_bytes()).collect()
}

fn start_ns(prefix: u32, uri: u32) -> Vec<u32> {
    vec![START_NS, 24, 1, NONE, prefix, uri]
}

fn end_ns(prefix: u32, uri: u32) -> Vec<u32> {
    vec![END_NS, 24, 9, NONE, prefix, uri]
}

/// A start tag; each attribute is (namespace uri, name, raw string, type, data).
fn start_tag(ns: u32, name: u32, attrs: &[(u32, u32, u32, u32, u32)]) -> Vec<u32> {
    let mut w = vec![START_EL, 36 + 20 * attrs.len() as u32, 2, NONE, ns, name, 0x0014_0014, attrs.len() as u32, 0];
    for &(ans, aname, raw, tp, data) in attrs {
        w.extend([ans, aname, raw, 0x08 | (tp << 24), data]);
    }
    w
}

fn end_tag(ns: u32, name: u32) -> Vec<u32> {
    vec![END_EL, 24, 8, NONE, ns, name]
}

fn text(name: u32) -> Vec<u32> {
    vec![TEXT_EL, 28, 5, NONE, name, 0, 0]
}

/// A document made of a header, the pool and the chunks.
fn document(strings: &[&str], chunks: &[Vec<u32>]) -> Vec<u8> {
    let mut w = vec![AXML, 0];
    w.extend(pool(strings));
    for c in chunks {
        w.extend(c.iter().copied());
    }
    w[1] = (w.len() * 4) as u32;
    bytes(&w)
}

const STRINGS: [&str; 11] = [
    "android",
    "http://schemas.android.com/apk/res/android",
    "manifest",
    "versionCode",
    "versionName",
    "1.0",
    "package",
    "com.example",
    "application",
    "debuggable",
    "hello",
];

fn sample() -> Vec<u8> {
    document(
        &STRINGS,
        &[
            vec![RES_IDS, 16, 0x0101_021B, 0x0101_021C],
            start_ns(0, 1),
            start_tag(
                NONE,
                2,
                &[
                    (1, 3, NONE, 16, 7),
                    (1, 4, 5, 3, 5),
                    (NONE, 6, 7, 3, 7),
                ],
            ),
            start_tag(NONE, 8, &[(1, 9, NONE, 18, 0xFFFF_FFFF)]),
            text(10),
            end_tag(NONE, 8),
            end_tag(NONE, 2),
            end_ns(0, 1),
        ],
    )
}

fn render(pieces: &[ManifestPiece]) -> String {
    let mut s = String::new();
    for p in pieces {
        match p {
            ManifestPiece::Text(t) => s.push_str(t),
            ManifestPiece::Complex(d) => s.push_str(&format!("#{}", d)),
        }
    }
    s
}

#[test]
fn renders_sample_manifest() {
    let out = parse_android_manifest(&sample()).unwrap();
    let expected = [
        "<?xml version=\"1.0\" encoding=\"utf-8\"?>",
        "<manifest",
        "   xmlns:android=\"http://schemas.android.com/apk/res/android\"",
        "   android:versionCode=\"7\"",
        "   android:versionName=\"1.0\"",
        "   package=\"com.example\"",
        "   >",
        "   <application",
        "      android:debuggable=\"true\"",
        "      >",
        "      hello",
        "   </application>",
        "</manifest>",
        "",
    ]
    .join("\r\n");
    assert_eq!(render(&out), expected);
}

#[test]
fn parser_events_of_sample() {
    let data = sample();
    let mut p = AXmlParser::new();
    p.open(&data);
    assert_eq!(p.next(), START_DOCUMENT);
    assert_eq!(p.next(), START_TAG);
    assert_eq!(p.get_name(), Some(String::from("manifest")));
    assert_eq!(p.get_depth(), 1);
    assert_eq!(p.get_attribute_count(), 3);
    assert_eq!(p.get_namespace_count(-1), 0);
    assert_eq!(p.get_namespace_count(0), 0);
    assert_eq!(p.get_namespace_count(1), 1);
    assert_eq!(p.get_namespace_count(2), 1);
    assert_eq!(p.get_namespace_count(7), 1);
    assert_eq!(p.get_namespace_prefix(0), Some(String::from("android")));
    assert_eq!(p.get_namespace_uri(0), Some(String::from(STRINGS[1])));
    assert_eq!(p.get_attribute_prefix(0), Some(String::from("android")));
    assert_eq!(p.get_attribute_prefix(2), None);
    assert_eq!(p.get_attribute_name(1), Some(String::from("versionName")));
    assert_eq!(p.get_attribute_value_type(0), 16);
    assert_eq!(p.get_attribute_value_data(0), 7);
    assert_eq!(p.get_attribute_value1(1), Some(String::from("1.0")));
    assert_eq!(p.get_attribute_value1(0), Some(String::new()));
    assert!(matches!(p.get_attribute_value(0), AttributeValue::Text(ref t) if t == "7"));
    assert_eq!(p.get_prefix(), None);
    assert_eq!(p.get_text(), None);
    assert_eq!(p.next(), START_TAG);
    assert_eq!(p.get_depth(), 2);
    assert_eq!(p.next(), TEXT);
    assert_eq!(p.get_text(), Some(String::from("hello")));
    assert_eq!(p.get_name(), None);
    assert_eq!(p.get_attribute_count(), -1);
    assert_eq!(p.next(), END_TAG);
    assert_eq!(p.get_name(), Some(String::from("application")));
    assert_eq!(p.next(), END_TAG);
    assert_eq!(p.get_name(), Some(String::from("manifest")));
    assert_eq!(p.next(), END_DOCUMENT);
    assert_eq!(p.next(), END_DOCUMENT);
    assert_eq!(p.next(), END_DOCUMENT);
}

#[test]
fn end_document_is_final() {
    let data = sample();
    let mut p = AXmlParser::new();
    p.open(&data);
    let mut n = 0;
    while p.next() != END_DOCUMENT {
        n += 1;
    }
    assert_eq!(n, 6);
    for _ in 0..5 {
        assert_eq!(p.next(), END_DOCUMENT);
    }
}

#[test]
fn dimension_values_are_left_as_data() {
    let data = document(
        &["LinearLayout", "width", "height"],
        &[
            start_tag(NONE, 0, &[(NONE, 1, NONE, 5, 0x0000_1001), (NONE, 2, NONE, 6, 0x0000_0201)]),
            end_tag(NONE, 0),
        ],
    );
    let out = parse_android_manifest(&data).unwrap();
    assert_eq!(
        render(&out),
        "<?xml version=\"1.0\" encoding=\"utf-8\"?>\r\n<LinearLayout\r\n   width=\"#4097dip\"\r\n   height=\"#513%p\"\r\n   >\r\n</LinearLayout>\r\n"
    );
    assert!(matches!(out[2], ManifestPiece::Text(ref t) if t == "   width=\""));
    assert!(matches!(out[3], ManifestPiece::Complex(0x1001)));
    let bad_unit = document(&["a", "b"], &[start_tag(NONE, 0, &[(NONE, 1, NONE, 5, 0x0000_0108)]), end_tag(NONE, 0)]);
    assert_eq!(parse_android_manifest(&bad_unit).err(), Some(ManifestError::Malformed));
}

#[test]
fn typed_values_are_formatted() {
    let data = document(
        &["a", "b", "c", "d", "e", "f", "g", "h", "i"],
        &[
            start_tag(
                NONE,
                0,
                &[
                    (NONE, 1, NONE, 1, 0x0101_0001),
                    (NONE, 2, NONE, 2, 0x7F01_00AB),
                    (NONE, 3, NONE, 4, 0xFFFF_FFFE),
                    (NONE, 4, NONE, 17, 0x0000_00FF),
                    (NONE, 5, NONE, 18, 0),
                    (NONE, 6, NONE, 28, 0xFF00_0000),
                    (NONE, 7, NONE, 19, 0xFFFF_FFFF),
                    (NONE, 8, NONE, 7, 0xA),
                ],
            ),
            end_tag(NONE, 0),
        ],
    );
    let out = render(&parse_android_manifest(&data).unwrap());
    assert_eq!(
        out,
        "<?xml version=\"1.0\" encoding=\"utf-8\"?>\r\n<a\r\n   b=\"@android:1010001\"\r\n   c=\"?7F0100AB\"\r\n   d=\"-2\"\r\n   e=\"0x000000FF\"\r\n   f=\"false\"\r\n   g=\"0xFF000000\"\r\n   h=\"-1\"\r\n   i=\"<0xA, type 0x111>\"\r\n   >\r\n</a>\r\n"
    );
}

#[test]
fn refuses_malformed_documents() {
    assert_eq!(parse_android_manifest(&[1, 2, 3]).err(), Some(ManifestError::Malformed));
    assert_eq!(parse_android_manifest(&[]).err(), Some(ManifestError::Malformed));
    assert_eq!(parse_android_manifest(&bytes(&[0x1234, 0])).err(), Some(ManifestError::Malformed));
    let mut truncated = sample();
    truncated.truncate(truncated.len() - 24);
    assert_eq!(parse_android_manifest(&truncated).err(), Some(ManifestError::Malformed));
    let bad_chunk = document(&["a"], &[vec![0x0020_0000, 8]]);
    assert_eq!(parse_android_manifest(&bad_chunk).err(), Some(ManifestError::Malformed));
    let bad_ids = document(&["a"], &[vec![RES_IDS, 6], start_tag(NONE, 0, &[]), end_tag(NONE, 0)]);
    assert_eq!(parse_android_manifest(&bad_ids).err(), Some(ManifestError::Malformed));
}

#[test]
fn unbalanced_end_tag_is_refused() {
    let data = document(&["a"], &[start_tag(NONE, 0, &[]), end_tag(NONE, 0), end_tag(NONE, 0)]);
    let mut p = AXmlParser::new();
    p.open(&data);
    assert_eq!(p.next(), START_DOCUMENT);
    assert_eq!(p.next(), START_TAG);
    assert_eq!(p.next(), END_TAG);
    assert_eq!(p.next(), END_DOCUMENT);
    assert!(parse_android_manifest(&data).is_ok());
    let data2 = document(
        &["a"],
        &[start_ns(0, 0), start_tag(NONE, 0, &[]), end_tag(NONE, 0), end_tag(NONE, 0), end_ns(0, 0)],
    );
    let mut p2 = AXmlParser::new();
    p2.open(&data2);
    assert_eq!(p2.next(), START_DOCUMENT);
    assert_eq!(p2.next(), START_TAG);
    assert_eq!(p2.next(), END_TAG);
    assert_eq!(p2.next(), END_TAG);
    assert_eq!(p2.next(), END_DOCUMENT);
    assert_eq!(parse_android_manifest(&data2).err(), Some(ManifestError::Malformed));
}

#[test]
fn tag_in_namespace_gets_prefix() {
    let data = document(
        &["x", "urn:x", "item"],
        &[start_ns(0, 1), start_tag(1, 2, &[]), end_tag(1, 2), end_ns(0, 1)],
    );
    let out = render(&parse_android_manifest(&data).unwrap());
    assert_eq!(
        out,
        "<?xml version=\"1.0\" encoding=\"utf-8\"?>\r\n<x:item\r\n   xmlns:x=\"urn:x\"\r\n   >\r\n</x:item>\r\n"
    );
}

#[test]
fn declarations_before_a_child_tag_are_counted_at_its_depth() {
    let data = document(
        &["a", "urn:a", "root", "b", "urn:b", "c", "urn:c", "child"],
        &[
            start_ns(0, 1),
            start_tag(NONE, 2, &[]),
            start_ns(3, 4),
            start_ns(5, 6),
            start_tag(NONE, 7, &[]),
            end_tag(NONE, 7),
            end_ns(5, 6),
            end_ns(3, 4),
            end_tag(NONE, 2),
            end_ns(0, 1),
        ],
    );
    let mut p = AXmlParser::new();
    p.open(&data);
    assert_eq!(p.next(), START_DOCUMENT);
    assert_eq!(p.next(), START_TAG);
    assert_eq!(p.get_depth(), 1);
    assert_eq!(p.get_namespace_count(0), 0);
    assert_eq!(p.get_namespace_count(1), 1);
    assert_eq!(p.next(), START_TAG);
    assert_eq!(p.get_name(), Some(String::from("child")));
    assert_eq!(p.get_depth(), 2);
    assert_eq!(p.get_namespace_count(1), 1);
    assert_eq!(p.get_namespace_count(2), 3);
    assert_eq!(p.get_namespace_prefix(1), Some(String::from("b")));
    assert_eq!(p.get_namespace_uri(1), Some(String::from("urn:b")));
    assert_eq!(p.get_namespace_prefix(2), Some(String::from("c")));
    assert_eq!(p.get_namespace_uri(2), Some(String::from("urn:c")));
    assert_eq!(p.next(), END_TAG);
    assert_eq!(p.next(), END_TAG);
    assert_eq!(p.get_name(), Some(String::from("root")));
    assert_eq!(p.next(), END_DOCUMENT);
}

#[test]
fn document_ends_before_what_follows_the_last_end_chunk() {
    let mut data = document(
        &["a", "urn:a", "root"],
        &[start_ns(0, 1), start_tag(NONE, 2, &[]), end_tag(NONE, 2), end_ns(0, 1)],
    );
    // a chunk of a type out of range after the end: it is never read
    data.extend(bytes(&[0x0020_0000, 8]));
    let mut p = AXmlParser::new();
    p.open(&data);
    assert_eq!(p.next(), START_DOCUMENT);
    assert_eq!(p.next(), START_TAG);
    assert_eq!(p.next(), END_TAG);
    assert_eq!(p.next(), END_DOCUMENT);
    assert_eq!(p.get_depth(), 0);
    assert_eq!(p.get_namespace_count(1), 0);
    assert!(parse_android_manifest(&data).is_ok());
    // with the end chunk missing, the next chunk is read and refused
    let cut = document(&["a", "urn:a", "root"], &[start_ns(0, 1), start_tag(NONE, 2, &[]), end_tag(NONE, 2)]);
    let mut q = AXmlParser::new();
    q.open(&cut);
    assert_eq!(q.next(), START_DOCUMENT);
    assert_eq!(q.next(), START_TAG);
    assert_eq!(q.next(), END_TAG);
    assert_eq!(q.try_next(), None);
}

#[test]
fn attribute_count_is_the_low_half_of_its_word() {
    let mut tag = vec![START_EL, 56, 2, NONE, NONE, 0, 0x0014_0014, 0x0003_0001, 0];
    tag.extend([NONE, 1, NONE, 0x08 | (17 << 24) | 0x55, 0x0000_00AB]);
    let data = document(&["root", "flags"], &[tag, end_tag(NONE, 0)]);
    let mut p = AXmlParser::new();
    p.open(&data);
    assert_eq!(p.next(), START_DOCUMENT);
    assert_eq!(p.next(), START_TAG);
    assert_eq!(p.get_attribute_count(), 1);
    assert_eq!(p.get_attribute_value_type(0), 17);
    assert_eq!(p.get_attribute_value_data(0), 0xAB);
    assert_eq!(p.get_attribute_name(0), Some(String::from("flags")));
    assert!(matches!(p.get_attribute_value(0), AttributeValue::Text(ref t) if t == "0x000000AB"));
}
