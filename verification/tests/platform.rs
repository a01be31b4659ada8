use shellcore::mm::device_tree::{
    check_head, device_tree_address, find_usable_end, is_memory, platform_memory_range, EfiTable,
    TreeError, EFI_SYSTEM_TABLE_SIGNATURE,
};

fn word(out: &mut Vec<u8>, n: u32) {
    out.extend_from_slice(&n.to_be_bytes());
}

fn begin(out: &mut Vec<u8>, name: &str) {
    word(out, 1);
    out.extend_from_slice(name.as_bytes());
    out.push(0);
    while out.len() % 4 != 0 {
        out.push(0);
    }
}

fn property(out: &mut Vec<u8>, name: u32, value: &[u8]) {
    word(out, 3);
    word(out, value.len() as u32);
    word(out, name);
    out.extend_from_slice(value);
    while out.len() % 4 != 0 {
        out.push(0);
    }
}

fn wide(n: u64) -> Vec<u8> {
    n.to_be_bytes().to_vec()
}

const NAMES: &[u8] = b"#address-cells\0#size-cells\0device_type\0reg\0";

fn tree(memory: (u64, u64), reserved: &[(u64, u64)]) -> Vec<u8> {
    let mut body = Vec::new();
    begin(&mut body, "");
    property(&mut body, 0, &2u32.to_be_bytes());
    property(&mut body, 15, &2u32.to_be_bytes());
    begin(&mut body, "memory@80000000");
    property(&mut body, 27, b"memory\0");
    let mut reg = wide(memory.0);
    reg.extend_from_slice(&wide(memory.1));
    property(&mut body, 39, &reg);
    word(&mut body, 2);
    word(&mut body, 2);
    word(&mut body, 9);
    let mut holes = Vec::new();
    for (start, size) in reserved {
        holes.extend_from_slice(&wide(*start));
        holes.extend_from_slice(&wide(*size));
    }
    holes.extend_from_slice(&[0u8; 16]);
    around(body, holes)
}

fn around(body: Vec<u8>, holes: Vec<u8>) -> Vec<u8> {
    let struct_at = 40 + holes.len() as u32;
    let names_at = struct_at + body.len() as u32;
    let mut out = Vec::new();
    for n in [
        0xd00d_feed,
        names_at + NAMES.len() as u32,
        struct_at,
        names_at,
        40,
        17,
        16,
        0,
        NAMES.len() as u32,
        body.len() as u32,
    ] {
        word(&mut out, n);
    }
    out.extend_from_slice(&holes);
    out.extend_from_slice(&body);
    out.extend_from_slice(NAMES);
    out
}

#[test]
fn the_memory_of_the_image_is_found() {
    let data = tree((0x8000_0000, 0x4000_0000), &[]);
    assert!(check_head(&data));
    assert_eq!(
        platform_memory_range(&data, 0x8020_0000, 0x8100_0000),
        Ok((0x8000_0000, 0xc000_0000, 0xc000_0000))
    );
    assert_eq!(
        platform_memory_range(&data, 0x4000_0000, 0x4100_0000),
        Err(TreeError::NoMemory)
    );
}

#[test]
fn reserved_memory_is_not_used() {
    let data = tree(
        (0x8000_0000, 0x4000_0000),
        &[(0x8000_0000, 0x10_0000), (0xb000_0000, 0x1000), (0xa000_0000, 0x1000)],
    );
    assert_eq!(
        platform_memory_range(&data, 0x8020_0000, 0x8100_0000),
        Ok((0x8000_0000, 0xc000_0000, 0xa000_0000))
    );
    assert_eq!(find_usable_end(&vec![], 5, 10), 10);
    assert_eq!(find_usable_end(&vec![4, 7, 12], 5, 10), 7);
}

#[test]
fn broken_trees_are_refused() {
    let good = tree((0x8000_0000, 0x4000_0000), &[]);
    assert_eq!(platform_memory_range(&vec![], 0, 0), Err(TreeError::BadTree));
    let mut bad = good.clone();
    bad[0] = 0;
    assert_eq!(platform_memory_range(&bad, 0, 0), Err(TreeError::BadTree));
    let mut short = good.clone();
    short.truncate(60);
    assert!(!check_head(&short));
    let mut nameless = good.clone();
    let root_name = 40 + 16 + 4;
    nameless[root_name] = 0xff;
    assert_eq!(
        platform_memory_range(&nameless, 0x8020_0000, 0x8100_0000),
        Err(TreeError::BadTree)
    );
}

#[test]
fn names_may_be_any_text() {
    let mut body = Vec::new();
    begin(&mut body, "");
    begin(&mut body, "m\u{e9}moire");
    property(&mut body, 27, b"memory\0");
    property(&mut body, 39, &[0, 0, 0, 0, 0x80, 0, 0, 0, 0x10, 0, 0, 0]);
    word(&mut body, 2);
    word(&mut body, 2);
    word(&mut body, 9);
    let data = around(body, vec![0u8; 16]);
    assert_eq!(
        platform_memory_range(&data, 0x8020_0000, 0x8100_0000),
        Ok((0x8000_0000, 0x9000_0000, 0x9000_0000))
    );
}

#[test]
fn only_the_node_around_the_memory_has_to_tell_sizes() {
    let range = [0, 0, 0, 0, 0x80, 0, 0, 0, 0x10, 0, 0, 0];
    for (outside, inside) in [(false, false), (true, false), (false, true)] {
        let mut body = Vec::new();
        begin(&mut body, "");
        if inside {
            property(&mut body, 0, &[2]);
        }
        begin(&mut body, "bus");
        if outside {
            property(&mut body, 15, &[]);
        }
        word(&mut body, 2);
        begin(&mut body, "memory");
        property(&mut body, 27, b"memory\0");
        property(&mut body, 39, &range);
        word(&mut body, 2);
        word(&mut body, 2);
        word(&mut body, 9);
        let found = platform_memory_range(&around(body, vec![0u8; 16]), 0x8020_0000, 0x8100_0000);
        if inside {
            assert_eq!(found, Err(TreeError::BadTree));
        } else {
            assert_eq!(found, Ok((0x8000_0000, 0x9000_0000, 0x9000_0000)));
        }
    }
}

#[test]
fn nothing_behind_the_memory_counts() {
    let mut body = Vec::new();
    begin(&mut body, "");
    begin(&mut body, "memory");
    property(&mut body, 27, b"memory\0");
    property(&mut body, 39, &[0, 0, 0, 0, 0x80, 0, 0, 0, 0x10, 0, 0, 0]);
    word(&mut body, 2);
    begin(&mut body, "broken");
    word(&mut body, 3);
    word(&mut body, 0xffff);
    word(&mut body, 0);
    let data = around(body, vec![0u8; 16]);
    assert_eq!(
        platform_memory_range(&data, 0x8020_0000, 0x8100_0000),
        Ok((0x8000_0000, 0x9000_0000, 0x9000_0000))
    );
    assert_eq!(
        platform_memory_range(&data, 0x4000_0000, 0x4100_0000),
        Err(TreeError::BadTree)
    );
}

#[test]
fn the_word_for_memory() {
    assert!(is_memory(&b"memory\0".to_vec()));
    assert!(is_memory(&b"memory".to_vec()));
    assert!(!is_memory(&b"memory2\0".to_vec()));
    assert!(!is_memory(&vec![]));
}

#[test]
fn the_tree_is_found_in_the_system_table() {
    let guid = vec![
        0xd5, 0x21, 0xb6, 0xb1, 0x9c, 0xf1, 0xa5, 0x41, 0x83, 0x0b, 0xd9, 0x15, 0x2c, 0x69, 0xaa,
        0xe0,
    ];
    let tables = vec![
        EfiTable { guid: vec![0; 16], address: 1 },
        EfiTable { guid: guid.clone(), address: 2 },
        EfiTable { guid, address: 3 },
    ];
    assert_eq!(device_tree_address(EFI_SYSTEM_TABLE_SIGNATURE, &tables), Some(2));
    assert_eq!(device_tree_address(0, &tables), None);
    assert_eq!(device_tree_address(EFI_SYSTEM_TABLE_SIGNATURE, &vec![]), None);
}

#[test]
fn a_bad_property_behind_those_that_are_read_does_not_count() {
    let mut body = Vec::new();
    begin(&mut body, "");
    property(&mut body, 0, &2u32.to_be_bytes());
    property(&mut body, 15, &2u32.to_be_bytes());
    begin(&mut body, "memory");
    property(&mut body, 27, b"memory\0");
    let mut reg = wide(0x8000_0000);
    reg.extend_from_slice(&wide(0x1000_0000));
    property(&mut body, 39, &reg);
    word(&mut body, 4);
    property(&mut body, 0xffff, &[]);
    word(&mut body, 2);
    word(&mut body, 2);
    word(&mut body, 9);
    let data = around(body, vec![0u8; 16]);
    assert_eq!(
        platform_memory_range(&data, 0x8020_0000, 0x8100_0000),
        Ok((0x8000_0000, 0x9000_0000, 0x9000_0000))
    );
}
