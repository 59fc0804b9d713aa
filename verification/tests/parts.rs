use apkv::numbers::{push_binary, push_decimal, push_digits, push_hex8, push_upper_hex};
use apkv::version::version_lines;
use apkv::xml::constants::{dimension_unit, fraction_unit};
use apkv::xml::namespace_stack::NamespaceStack;
use apkv::xml::parser::get_package;
use apkv::xml::reader::IntReader;
use apkv::xml::str_block::StringBlock;

#[test]
fn namespace_push_pop_roundtrip() {
    let mut s = NamespaceStack::new();
    assert_eq!(s.get_depth(), 0);
    assert_eq!(s.get_current_count(), 0);
    assert!(!s.pop());
    s.push(10, 20);
    assert_eq!(s.get_depth(), 1);
    assert_eq!(s.get_current_count(), 1);
    assert_eq!(s.find_prefix(20), 10);
    assert_eq!(s.find(10, true), 20);
    assert!(s.pop());
    assert_eq!(s.get_current_count(), 0);
    assert_eq!(s.get_depth(), 1);
    assert_eq!(s.find_prefix(20), -1);
    assert!(!s.pop());
}

#[test]
fn namespace_scopes_and_counts() {
    let mut s = NamespaceStack::new();
    s.increase_depth();
    s.push(1, 2);
    s.push(3, 4);
    s.increase_depth();
    s.push(5, 2);
    assert_eq!(s.get_depth(), 2);
    assert_eq!(s.get_accumulated_count(-1), 0);
    assert_eq!(s.get_accumulated_count(0), 0);
    assert_eq!(s.get_accumulated_count(1), 2);
    assert_eq!(s.get_accumulated_count(2), 3);
    assert_eq!(s.get_accumulated_count(100), 3);
    assert_eq!(s.get_prefix(0), 1);
    assert_eq!(s.get_uri(1), 4);
    assert_eq!(s.get_prefix(2), 5);
    assert_eq!(s.get(3, true), -1);
    assert_eq!(s.get(-1, false), -1);
    // the latest declaration of uri 2 shadows the earlier one
    assert_eq!(s.find_prefix(2), 5);
    s.decrease_depth();
    assert_eq!(s.get_depth(), 1);
    assert_eq!(s.find_prefix(2), 1);
    assert_eq!(s.get_current_count(), 2);
    // the outermost scope is never closed
    s.decrease_depth();
    assert_eq!(s.get_depth(), 1);
    assert_eq!(s.get_accumulated_count(1), 2);
}

#[test]
fn namespace_open_then_close_restores() {
    let mut s = NamespaceStack::new();
    s.push(7, 8);
    s.increase_depth();
    s.decrease_depth();
    assert_eq!(s.get_depth(), 1);
    assert_eq!(s.get_current_count(), 1);
    assert_eq!(s.find_prefix(8), 7);
}

#[test]
fn namespace_stack_grows() {
    let mut s = NamespaceStack::new();
    for i in 0..100 {
        s.increase_depth();
        s.push(i, i + 1000);
    }
    assert_eq!(s.get_depth(), 100);
    assert_eq!(s.get_accumulated_count(100), 100);
    assert_eq!(s.get_prefix(42), 42);
    assert_eq!(s.get_uri(99), 1099);
    assert_eq!(s.find_prefix(1050), 50);
    for _ in 0..99 {
        s.decrease_depth();
    }
    assert_eq!(s.get_depth(), 1);
    assert_eq!(s.get_accumulated_count(5), 1);
}

#[test]
fn reader_reads_little_endian_words() {
    let mut r = IntReader::new(&[1, 0, 0, 0, 0xFF, 0xFF, 0xFF, 0xFF, 0x78, 0x56, 0x34, 0x12, 0, 0, 0, 0x80]);
    assert_eq!(r.len(), 4);
    assert_eq!(r.read_int(), 1);
    assert_eq!(r.read_int(), -1);
    r.skip_int();
    assert_eq!(r.position(), 3);
    assert_eq!(r.read_int_array(0), Vec::<i32>::new());
    assert_eq!(r.read_int_array(1), vec![i32::MIN]);
    assert_eq!(r.position(), 4);
    let mut r2 = IntReader::new(&[1, 0, 0, 0, 2, 0, 0, 0, 3, 0, 0, 0]);
    assert_eq!(r2.read_int_array(3), vec![1, 2, 3]);
    let mut r3 = IntReader::new(&[]);
    assert_eq!(r3.len(), 0);
    assert_eq!(r3.read_int_array(0), Vec::<i32>::new());
}

fn words_bytes(words: &[u32]) -> Vec<u8> {
    words.iter().flat_map(|w| w.to_le_bytes()).collect()
}

#[test]
fn string_block_reads_strings() {
    // two strings, "hi" at byte 0 and "\u{e9}\u{d800}" at byte 8
    let w = [
        0x001C_0001u32,
        28 + 8 + 16,
        2,
        0,
        0,
        28 + 8,
        0,
        0,
        8,
        0x0068_0002,
        0x0000_0069,
        0x00E9_0002,
        0x0000_D800,
    ];
    let mut r = IntReader::new(&words_bytes(&w));
    let mut b = StringBlock::read(&mut r).unwrap();
    assert_eq!(r.position(), 13);
    assert_eq!(b.get_string(0), Some(String::from("hi")));
    assert_eq!(b.get_string(1), Some(String::from("\u{e9} ")));
    assert_eq!(b.get_string(-1), None);
    assert_eq!(b.get_string(3), None);
}

#[test]
fn string_block_other_chunk() {
    let mut r = IntReader::new(&words_bytes(&[0x0010_0100, 0]));
    assert!(StringBlock::read(&mut r).is_none());
    assert_eq!(r.position(), 1);
}

#[test]
fn number_texts() {
    let mut s = String::new();
    push_decimal(&mut s, -2147483648);
    s.push(' ');
    push_decimal(&mut s, 0);
    s.push(' ');
    push_decimal(&mut s, 4096);
    s.push(' ');
    push_upper_hex(&mut s, -1);
    s.push(' ');
    push_upper_hex(&mut s, 0xabc);
    s.push(' ');
    push_hex8(&mut s, 0x1f);
    s.push(' ');
    push_hex8(&mut s, -16);
    s.push(' ');
    push_binary(&mut s, 5);
    s.push(' ');
    push_digits(&mut s, 255, 2);
    assert_eq!(s, "-2147483648 0 4096 FFFFFFFF ABC 0000001F FFFFFFF0 101 11111111");
}

#[test]
fn packages_and_units() {
    assert_eq!(get_package(0x0101_0000), "android:");
    assert_eq!(get_package(0x7F01_0000), "");
    assert_eq!(dimension_unit(0), "px");
    assert_eq!(dimension_unit(1), "dip");
    assert_eq!(dimension_unit(5), "mm");
    assert_eq!(dimension_unit(7), "");
    assert_eq!(fraction_unit(0), "%");
    assert_eq!(fraction_unit(1), "%p");
    assert_eq!(fraction_unit(2), "");
}

#[test]
fn version_lines_of_manifest() {
    let xml = "<manifest\r\n   android:versionCode=\"7\"\r\n   android:versionName=\"1.0\"\r\n   >\r\n";
    let (code, name) = version_lines(xml);
    assert_eq!(code, Some(String::from("   versionCode=\"7\"")));
    assert_eq!(name, Some(String::from("   versionName=\"1.0\"")));
}

#[test]
fn version_lines_take_the_last() {
    let xml = "versionName=a\r\nversionCode=1\r\nversionCode=2 versionName=b\r\nversionName=c";
    let (code, name) = version_lines(xml);
    assert_eq!(code, Some(String::from("versionCode=2 versionName=b")));
    assert_eq!(name, Some(String::from("versionName=c")));
    let (none_code, none_name) = version_lines("nothing here\r\n");
    assert_eq!(none_code, None);
    assert_eq!(none_name, None);
    let (c2, _) = version_lines("\r\r\nandroid:android:versionCode\r");
    assert_eq!(c2, Some(String::from("versionCode\r")));
}
