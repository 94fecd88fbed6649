use smaps_watch::memory_map::{Counters, MemoryMap, Numeric, Range};
use smaps_watch::parse::{parse_memory_line, parse_memory_map};

#[test]
fn test_parse_line() {
    assert_eq!(
        ("Size".to_string(), Numeric::Kb(4)),
        parse_memory_line("Size:                  4 kB\n").unwrap().1
    )
}

#[test]
fn test_parse_memory_map() {
    let input = r#"6ff1475c000-56ff1475d000 r--p 00000000 fc:06 13134476                   /home/stephenwakely/src/c/usememory/a.out
Size:                  4 kB
KernelPageSize:        4 kB
MMUPageSize:           4 kB
Rss:                   4 kB
Pss:                   4 kB
Pss_Dirty:             0 kB
Shared_Clean:          0 kB
Shared_Dirty:          0 kB
Private_Clean:         4 kB
Private_Dirty:         0 kB
Referenced:            4 kB
Anonymous:             0 kB
LazyFree:              0 kB
AnonHugePages:         0 kB
ShmemPmdMapped:        0 kB
FilePmdMapped:         0 kB
Shared_Hugetlb:        0 kB
Private_Hugetlb:       0 kB
Swap:                  0 kB
SwapPss:               0 kB
Locked:                0 kB
THPeligible:    0
ProtectionKey:         0
VmFlags: rd mr mw me sd"#;

    let result = parse_memory_map(input);

    let sizes = Counters::from_pairs(vec![
        ("Size".to_string(), Numeric::Kb(4)),
        ("KernelPageSize".to_string(), Numeric::Kb(4)),
        ("MMUPageSize".to_string(), Numeric::Kb(4)),
        ("Rss".to_string(), Numeric::Kb(4)),
        ("Pss".to_string(), Numeric::Kb(4)),
        ("Pss_Dirty".to_string(), Numeric::Kb(0)),
        ("Shared_Clean".to_string(), Numeric::Kb(0)),
        ("Shared_Dirty".to_string(), Numeric::Kb(0)),
        ("Private_Clean".to_string(), Numeric::Kb(4)),
        ("Private_Dirty".to_string(), Numeric::Kb(0)),
        ("Referenced".to_string(), Numeric::Kb(4)),
        ("Anonymous".to_string(), Numeric::Kb(0)),
        ("LazyFree".to_string(), Numeric::Kb(0)),
        ("AnonHugePages".to_string(), Numeric::Kb(0)),
        ("ShmemPmdMapped".to_string(), Numeric::Kb(0)),
        ("FilePmdMapped".to_string(), Numeric::Kb(0)),
        ("Shared_Hugetlb".to_string(), Numeric::Kb(0)),
        ("Private_Hugetlb".to_string(), Numeric::Kb(0)),
        ("Swap".to_string(), Numeric::Kb(0)),
        ("SwapPss".to_string(), Numeric::Kb(0)),
        ("Locked".to_string(), Numeric::Kb(0)),
        ("THPeligible".to_string(), Numeric::Number(0)),
        ("ProtectionKey".to_string(), Numeric::Number(0)),
    ]);

    let expected = MemoryMap {
        address_range: Range::try_from("6ff1475c000-56ff1475d000").unwrap(),
        permissions: "r--p".to_string(),
        offset: "00000000".to_string(),
        device: "fc:06".to_string(),
        inode: "13134476".to_string(),
        path: Some("/home/stephenwakely/src/c/usememory/a.out".to_string()),
        sizes,
        vm_flags: "rd mr mw me sd".to_string(),
    };

    assert_eq!(expected, result.unwrap().1);
}

#[test]
fn test_another() {
    let input = r#"7a85b6dff000-7a85f6e00000 rw-p 00000000 00:00 0 
Size:            1048580 kB
KernelPageSize:        4 kB
MMUPageSize:           4 kB
Rss:                1028 kB
Pss:                1028 kB
Pss_Dirty:          1028 kB
Shared_Clean:          0 kB
Shared_Dirty:          0 kB
Private_Clean:         0 kB
Private_Dirty:      1028 kB
Referenced:         1028 kB
Anonymous:          1028 kB
LazyFree:              0 kB
AnonHugePages:         0 kB
ShmemPmdMapped:        0 kB
FilePmdMapped:         0 kB
Shared_Hugetlb:        0 kB
Private_Hugetlb:       0 kB
Swap:                  0 kB
SwapPss:               0 kB
Locked:                0 kB
THPeligible:    0
ProtectionKey:         0
VmFlags: rd wr mr mw me ac sd"#;

    let sizes = Counters::from_pairs(vec![
        ("Size".to_string(), Numeric::Kb(1048580)),
        ("KernelPageSize".to_string(), Numeric::Kb(4)),
        ("MMUPageSize".to_string(), Numeric::Kb(4)),
        ("Rss".to_string(), Numeric::Kb(1028)),
        ("Pss".to_string(), Numeric::Kb(1028)),
        ("Pss_Dirty".to_string(), Numeric::Kb(1028)),
        ("Shared_Clean".to_string(), Numeric::Kb(0)),
        ("Shared_Dirty".to_string(), Numeric::Kb(0)),
        ("Private_Clean".to_string(), Numeric::Kb(0)),
        ("Private_Dirty".to_string(), Numeric::Kb(1028)),
        ("Referenced".to_string(), Numeric::Kb(1028)),
        ("Anonymous".to_string(), Numeric::Kb(1028)),
        ("LazyFree".to_string(), Numeric::Kb(0)),
        ("AnonHugePages".to_string(), Numeric::Kb(0)),
        ("ShmemPmdMapped".to_string(), Numeric::Kb(0)),
        ("FilePmdMapped".to_string(), Numeric::Kb(0)),
        ("Shared_Hugetlb".to_string(), Numeric::Kb(0)),
        ("Private_Hugetlb".to_string(), Numeric::Kb(0)),
        ("Swap".to_string(), Numeric::Kb(0)),
        ("SwapPss".to_string(), Numeric::Kb(0)),
        ("Locked".to_string(), Numeric::Kb(0)),
        ("THPeligible".to_string(), Numeric::Number(0)),
        ("ProtectionKey".to_string(), Numeric::Number(0)),
    ]);

    let expected = MemoryMap {
        address_range: Range::try_from("7a85b6dff000-7a85f6e00000").unwrap(),
        permissions: "rw-p".to_string(),
        path: None,
        offset: "00000000".to_string(),
        device: "00:00".to_string(),
        inode: "0".to_string(),
        sizes,
        vm_flags: "rd wr mr mw me ac sd".to_string(),
    };

    let result = parse_memory_map(input);

    assert_eq!(expected, result.unwrap().1);
}
