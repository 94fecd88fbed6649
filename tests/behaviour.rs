use smaps_watch::diff::diff_sorted;
use smaps_watch::memory_map::{Counters, MemoryMap, Numeric, Range};
use smaps_watch::parse::{parse, parse_memory_line, HeaderField, ParseErrorKind};
use smaps_watch::resident::resident_bytes;

fn mapping(from: usize, to: usize, size: usize, rss: usize) -> MemoryMap {
    MemoryMap {
        address_range: Range { from, to },
        permissions: "rw-p".to_string(),
        offset: "00000000".to_string(),
        device: "00:00".to_string(),
        inode: "0".to_string(),
        path: None,
        sizes: Counters::from_pairs(vec![
            ("Size".to_string(), Numeric::Kb(size)),
            ("Rss".to_string(), Numeric::Kb(rss)),
        ]),
        vm_flags: "rd wr".to_string(),
    }
}

#[test]
fn one_record_without_path() {
    let v = parse("1000-2000 r--p 00000000 00:00 0 \nSize: 4 kB\nVmFlags: rd\n").unwrap();
    assert_eq!(v.len(), 1);
    assert_eq!(v[0].address_range, Range { from: 0x1000, to: 0x2000 });
    assert_eq!(v[0].path, None);
    assert_eq!(v[0].sizes.get("Size"), Some(Numeric::Kb(4)));
    assert_eq!(v[0].size(), Some(4));
    assert_eq!(v[0].rss(), None);
    assert_eq!(v[0].vm_flags, "rd".to_string());
}

#[test]
fn changed_rss_is_one_changed_pair() {
    let a = vec![mapping(0x1000, 0x2000, 4, 4)];
    let b = vec![mapping(0x1000, 0x2000, 4, 0)];
    let d = diff_sorted(&a, &b);
    assert_eq!(d.changed.len(), 1);
    assert_eq!(d.added.len(), 0);
    assert_eq!(d.removed.len(), 0);
    assert_eq!(d.changed[0].0.rss(), Some(4));
    assert_eq!(d.changed[0].1.rss(), Some(0));
}

#[test]
fn removed_and_added() {
    let a = vec![mapping(0x1000, 0x2000, 4, 4), mapping(0x3000, 0x4000, 4, 4)];
    let b = vec![mapping(0x1000, 0x2000, 4, 4), mapping(0x9000, 0xa000, 4, 4)];
    let d = diff_sorted(&a, &b);
    assert_eq!(d.removed.len(), 1);
    assert_eq!(d.removed[0].address_range.from, 0x3000);
    assert_eq!(d.added.len(), 1);
    assert_eq!(d.added[0].address_range.from, 0x9000);
    assert_eq!(d.changed.len(), 0);
}

#[test]
fn malformed_address_is_header_error() {
    let e = parse("zzzz-2000 r--p 00000000 00:00 0\nSize: 4 kB\nVmFlags: rd\n").unwrap_err();
    assert_eq!(e.kind, ParseErrorKind::MalformedHeader(HeaderField::Address));
    assert_eq!(e.position, 0);
}

#[test]
fn empty_input_has_no_records() {
    assert_eq!(parse("").unwrap().len(), 0);
}

#[test]
fn diff_with_itself_is_empty() {
    let a = vec![mapping(0x1000, 0x2000, 4, 4), mapping(0x3000, 0x5000, 8, 0)];
    let d = diff_sorted(&a, &a);
    assert!(d.added.is_empty() && d.removed.is_empty() && d.changed.is_empty());
}

#[test]
fn diff_output_is_ordered() {
    let a = vec![mapping(0x1000, 0x2000, 4, 4), mapping(0x3000, 0x4000, 4, 4), mapping(0x5000, 0x6000, 4, 4)];
    let b = vec![mapping(0x2000, 0x3000, 4, 4), mapping(0x3000, 0x4800, 4, 4), mapping(0x7000, 0x8000, 4, 4)];
    let d = diff_sorted(&a, &b);
    let removed: Vec<usize> = d.removed.iter().map(|m| m.address_range.from).collect();
    let added: Vec<usize> = d.added.iter().map(|m| m.address_range.from).collect();
    assert_eq!(removed, vec![0x1000, 0x5000]);
    assert_eq!(added, vec![0x2000, 0x7000]);
    assert_eq!(d.changed.len(), 1);
    assert_eq!(d.changed[0].1.address_range.to, 0x4800);
}

#[test]
fn counter_units() {
    assert_eq!(parse_memory_line("THPeligible:    0\n").unwrap().1, ("THPeligible".to_string(), Numeric::Number(0)));
    let (used, (name, value)) = parse_memory_line("Rss: 1028 kB\nnext").unwrap();
    assert_eq!(used, 12);
    assert_eq!(name, "Rss".to_string());
    assert_eq!(value, Numeric::Kb(1028));
    assert_eq!(value.value(), 1028);
}

#[test]
fn counter_errors() {
    assert_eq!(parse_memory_line("Size: x kB\n").unwrap_err().kind, ParseErrorKind::MalformedCounter);
    assert_eq!(parse_memory_line("Size 4 kB\n").unwrap_err().kind, ParseErrorKind::MalformedCounter);
    assert_eq!(parse_memory_line("Size:4 kB\n").unwrap_err().kind, ParseErrorKind::MalformedCounter);
    assert_eq!(parse_memory_line("Size: 4 kB").unwrap_err().kind, ParseErrorKind::Truncated);
    assert_eq!(
        parse_memory_line("Size: 99999999999999999999999 kB\n").unwrap_err().kind,
        ParseErrorKind::MalformedCounter
    );
}

#[test]
fn header_field_errors() {
    let e = parse("1000-2000\nSize: 4 kB\nVmFlags: rd\n").unwrap_err();
    assert_eq!(e.kind, ParseErrorKind::MalformedHeader(HeaderField::Permissions));
    let e = parse("1000-2000 r--p 0 00:00\nSize: 4 kB\nVmFlags: rd\n").unwrap_err();
    assert_eq!(e.kind, ParseErrorKind::MalformedHeader(HeaderField::Inode));
    let e = parse("1000 r--p 0 00:00 0\nSize: 4 kB\nVmFlags: rd\n").unwrap_err();
    assert_eq!(e.kind, ParseErrorKind::MalformedHeader(HeaderField::Address));
}

#[test]
fn truncated_records() {
    assert_eq!(parse("1000-2000 r--p 0 00:00 0").unwrap_err().kind, ParseErrorKind::Truncated);
    assert_eq!(parse("1000-2000 r--p 0 00:00 0\nVmFlags: rd\n").unwrap_err().kind, ParseErrorKind::Truncated);
    assert_eq!(parse("1000-2000 r--p 0 00:00 0\nSize: 4 kB\n").unwrap_err().kind, ParseErrorKind::Truncated);
}

#[test]
fn two_records_with_blank_separator_and_path() {
    let text = "1000-2000 r-xp 00000000 fc:06 42   /usr/lib/a b.so  \nSize: 4 kB\nVmFlags: rd ex\n\n3000-4000 rw-p 00001000 fc:06 42 /usr/lib/a b.so\nSize: 4 kB\nRss: 8 kB\nRss: 12 kB\nVmFlags: rd wr\n";
    let v = parse(text).unwrap();
    assert_eq!(v.len(), 2);
    assert_eq!(v[0].path, Some("/usr/lib/a b.so".to_string()));
    assert_eq!(v[0].vm_flags, "rd ex".to_string());
    assert_eq!(v[1].address_range, Range { from: 0x3000, to: 0x4000 });
    assert_eq!(v[1].rss(), Some(12));
    assert_eq!(v[1].sizes.entries.len(), 2);
}

#[test]
fn range_from_text() {
    assert_eq!(Range::try_from("7a85b6dff000-7a85f6e00000").unwrap(), Range { from: 0x7a85b6dff000, to: 0x7a85f6e00000 });
    assert_eq!(Range::try_from("ABC-def").unwrap(), Range { from: 0xabc, to: 0xdef });
    assert!(Range::try_from("zz-10").is_err());
    assert!(Range::try_from("10").is_err());
    assert!(Range::try_from("10-").is_err());
    assert!(Range::try_from("10000000000000000-1").is_err());
}

#[test]
fn counters_replace_by_name() {
    let c = Counters::from_pairs(vec![
        ("Size".to_string(), Numeric::Kb(4)),
        ("Size".to_string(), Numeric::Kb(8)),
        ("Swap".to_string(), Numeric::Number(1)),
    ]);
    assert_eq!(c.entries.len(), 2);
    assert_eq!(c.get("Size"), Some(Numeric::Kb(8)));
    assert_eq!(c.get("Swap"), Some(Numeric::Number(1)));
    assert_eq!(c.get("Rss"), None);
}

#[test]
fn range_prints_and_reads_back() {
    let r = Range { from: 0x7a85b6dff000, to: 0x7a85f6e00000 };
    assert_eq!(r.to_text(), "7a85b6dff000-7a85f6e00000".to_string());
    assert_eq!(Range::try_from(r.to_text().as_str()).unwrap(), r);
    assert_eq!(Range { from: 0, to: 15 }.to_text(), "0-f".to_string());
    let v = parse("1000-2000 r--p 00000000 00:00 0 \nSize: 4 kB\nVmFlags: rd\n").unwrap();
    assert_eq!(v[0].address_range.to_text(), "1000-2000".to_string());
}

#[test]
fn numeric_and_record_text() {
    assert_eq!(Numeric::Kb(1028).to_text(), "1028 kB".to_string());
    assert_eq!(Numeric::Number(0).to_text(), "0".to_string());
    assert_eq!(Numeric::Number(907).to_text(), "907".to_string());
    let m = mapping(0x1000, 0x2000, 4, 0);
    assert_eq!(m.to_text(), "1000-2000 rw-p 00000000 00:00 0 rd wr \nSize=4 kB\n".to_string());
}

#[test]
fn starts_before_uses_start_only() {
    let a = mapping(0x1000, 0x9000, 4, 4);
    let b = mapping(0x2000, 0x3000, 4, 4);
    assert!(a.starts_before(&b));
    assert!(!b.starts_before(&a));
    assert!(!a.starts_before(&mapping(0x1000, 0x1800, 1, 1)));
}

#[test]
fn resident_total() {
    assert_eq!(resident_bytes("2873 1402 1080 5 0 232 0\n", 4096), Some(1402 * 4096));
    assert_eq!(resident_bytes("  12\t7 ", 10), Some(70));
    assert_eq!(resident_bytes("2873", 4096), None);
    assert_eq!(resident_bytes("2873 x1 3", 4096), None);
    assert_eq!(resident_bytes("1 18446744073709551615", 2), None);
}

#[test]
fn malformed_address_with_elided_fields() {
    let e = parse("zzzz-2000 r--p ...\n").unwrap_err();
    assert_eq!(e.kind, ParseErrorKind::MalformedHeader(HeaderField::Address));
    assert_eq!(e.position, 0);
}

#[test]
fn resident_total_unicode_space_and_sign() {
    assert_eq!(resident_bytes("1\u{a0}2", 3), Some(6));
    assert_eq!(resident_bytes("9 +5 1", 2), Some(10));
    assert_eq!(resident_bytes("9 + 1", 2), None);
}

#[test]
fn path_is_trimmed_of_all_whitespace() {
    let v = parse("1000-2000 r--p 0 00:00 0 \t/p\r\nSize: 4 kB\nVmFlags: rd\n").unwrap();
    assert_eq!(v[0].path, Some("/p".to_string()));
    let v = parse("1000-2000 r--p 0 00:00 0 \r\nSize: 4 kB\nVmFlags: rd\n").unwrap();
    assert_eq!(v[0].path, None);
}

#[test]
fn counter_line_leaves_line_break() {
    let (used, _) = parse_memory_line("Size:                  4 kB\n").unwrap();
    assert_eq!(used, 27);
}

#[test]
fn range_error_value() {
    assert_eq!(Range::try_from("q-1"), Err("cant parse"));
}

#[test]
fn counters_print_and_compare_in_name_order() {
    let mut m = mapping(0x1000, 0x2000, 4, 8);
    assert_eq!(m.to_text(), "1000-2000 rw-p 00000000 00:00 0 rd wr \nRss=8 kB\nSize=4 kB\n".to_string());
    m.sizes.insert("Anonymous".to_string(), Numeric::Number(3));
    let names: Vec<String> = m.sizes.entries.iter().map(|p| p.0.clone()).collect();
    assert_eq!(names, vec!["Anonymous".to_string(), "Rss".to_string(), "Size".to_string()]);
    let a = Counters::from_pairs(vec![("b".to_string(), Numeric::Kb(1)), ("a".to_string(), Numeric::Kb(2))]);
    let b = Counters::from_pairs(vec![("a".to_string(), Numeric::Kb(2)), ("b".to_string(), Numeric::Kb(1))]);
    assert_eq!(a, b);
    let c = Counters::from_pairs(vec![("ab".to_string(), Numeric::Kb(1)), ("a".to_string(), Numeric::Kb(2)), ("B".to_string(), Numeric::Kb(3))]);
    let names: Vec<String> = c.entries.iter().map(|p| p.0.clone()).collect();
    assert_eq!(names, vec!["B".to_string(), "a".to_string(), "ab".to_string()]);
}
