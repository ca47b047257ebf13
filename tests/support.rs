use imagetool::fat::ops::split_first_component;
use imagetool::fat::DirInfo;
use imagetool::fs_ops::new;
use imagetool::host_ops::MemDisk;
use imagetool::mem_pool::{CallBack, Empty, Pool};
use imagetool::utils::{ceil_div, size2bytes};
use imagetool::vfs::{fat_partitions, parse_partition_table, PtPosition};

#[test]
fn sizes_with_units() {
    assert_eq!(size2bytes("512"), Some(512));
    assert_eq!(size2bytes("+5"), Some(5));
    assert_eq!(size2bytes("64k"), Some(65536));
    assert_eq!(size2bytes("64KB"), Some(65536));
    assert_eq!(size2bytes("3m"), Some(3 << 20));
    assert_eq!(size2bytes("2GB"), Some(2 << 30));
    assert_eq!(size2bytes("1t"), Some(1 << 40));
    assert_eq!(size2bytes("1x"), None);
    assert_eq!(size2bytes(""), None);
    assert_eq!(size2bytes("kb"), None);
    assert_eq!(size2bytes("99999999999999999999"), None);
    assert_eq!(size2bytes("99999999999999999tb"), None);
}

#[test]
fn ceil_div_rounds_up() {
    assert_eq!(ceil_div(10000, 4096), 3);
    assert_eq!(ceil_div(8192, 4096), 2);
    assert_eq!(ceil_div(0, 4096), 0);
    assert_eq!(ceil_div(4096, 4096), 1);
    assert_eq!(ceil_div(u64::MAX - 1, 2), (1u64 << 63) - 1);
    assert_eq!(ceil_div(u64::MAX, 1), u64::MAX);
}

fn table() -> Vec<u8> {
    let mut t = vec![0u8; 64];
    t[0] = 0x80;
    t[4] = 0x0C;
    t[8..12].copy_from_slice(&2048u32.to_le_bytes());
    t[12..16].copy_from_slice(&1000u32.to_le_bytes());
    t[16] = 0x00;
    t[20] = 0x83;
    t[24..28].copy_from_slice(&5000u32.to_le_bytes());
    t[32] = 0x12;
    t[36] = 0x0B;
    t[48] = 0x00;
    t[52] = 0x06;
    t[56..60].copy_from_slice(&9000u32.to_le_bytes());
    t[60..64].copy_from_slice(&10u32.to_le_bytes());
    t
}

#[test]
fn partition_records_decode() {
    let items = parse_partition_table(&table());
    assert_eq!(items.len(), 4);
    assert_eq!(items[0].sign, 0x80);
    assert_eq!(items[0].fs_type, 0x0C);
    assert_eq!(items[0].start_lba, 2048);
    assert_eq!(items[0].size, 1000);
    assert_eq!(items[1].fs_type, 0x83);
}

#[test]
fn only_usable_fat_partitions_are_listed() {
    let parts = fat_partitions(&table());
    let got: Vec<(u64, u64)> = parts.iter().map(|p| (p.start, p.end)).collect();
    assert_eq!(got, vec![(2048, 3048), (9000, 9010)]);
}

#[test]
fn non_fat_partition_gets_no_engine() {
    let mut disk = MemDisk::new(1024);
    let r = new(&mut disk, &PtPosition { start: 0, end: 2 }, 0x83);
    assert!(matches!(r, Ok(None)));
}

fn node(name: &str) -> DirInfo {
    let mut d = DirInfo::new_empty();
    d.name = name.chars().collect();
    d
}

#[test]
fn pool_reuses_freed_indices() {
    let mut p: Pool<DirInfo> = Pool::new();
    assert_eq!(p.append(node("a")), 0);
    assert_eq!(p.append(node("b")), 1);
    assert_eq!(p.read(1).idx, 1);
    p.delete(0);
    assert_eq!(p.append(node("c")), 0);
    assert_eq!(p.read(0).name, vec!['c']);
    assert_eq!(p.read(0).idx, 0);
    let mut d = node("d");
    d.set_index(7);
    p.update(1, d);
    assert_eq!(p.read(1).idx, 7);
    assert!(p.read(1).is_empty());
}

#[test]
fn first_path_component_splits_off() {
    let path: Vec<char> = "//p0/dir/file.txt".chars().collect();
    let (first, rest) = split_first_component(&path).unwrap();
    assert_eq!(first, vec!['p', '0']);
    assert_eq!(rest, "/dir/file.txt".chars().collect::<Vec<char>>());
    assert!(split_first_component(&"///".chars().collect()).is_none());
    let (only, tail) = split_first_component(&"p1".chars().collect()).unwrap();
    assert_eq!(only, vec!['p', '1']);
    assert!(tail.is_empty());
}
