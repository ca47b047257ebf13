use imagetool::error::FsError;
use imagetool::fat::dir::find_entry;
use imagetool::fat::ops::choose_alias;
use imagetool::fat::long_name::{
    build_long_entries, decode_utf16, encode_utf16, long_name_from_entries, make_alias_field,
    make_numbered_field,
};
use imagetool::fat::short_name::{
    check_fname_caps, check_short_name, chksum, nt_res, short_display_name, ShortName,
};
use imagetool::fat::time::{
    from_fat32_date, from_fat32_time, to_fat32_date, to_fat32_time, to_fat32_time_tenth, FatDate,
    FatTime,
};
use imagetool::fat::{FatFs, FatFsType, BPB};
use imagetool::fs_ops::Request;
use imagetool::host_ops::{FileHandler, MemDisk};
use imagetool::vfs::{FileType, PtPosition};

const SECTOR: usize = 512;
const FAT_START: usize = 32;
const FAT_SIZE: usize = 1009;
const DATA_START: usize = FAT_START + 2 * FAT_SIZE;
const SEC_PER_CLUS: usize = 8;

fn chars(s: &str) -> Vec<char> {
    s.chars().collect()
}

fn put16(img: &mut [u8], at: usize, v: u16) {
    img[at..at + 2].copy_from_slice(&v.to_le_bytes());
}

fn put32(img: &mut [u8], at: usize, v: u32) {
    img[at..at + 4].copy_from_slice(&v.to_le_bytes());
}

fn get32(img: &[u8], at: usize) -> u32 {
    u32::from_le_bytes([img[at], img[at + 1], img[at + 2], img[at + 3]])
}

/// A FAT32 image whose boot sector describes a 512 MiB volume, with the root
/// directory in cluster 2, and room for the first clusters only.
fn fat32_image(total_bytes: usize) -> Vec<u8> {
    let mut img = vec![0u8; total_bytes];
    img[0] = 0xEB;
    put16(&mut img, 11, 512);
    img[13] = SEC_PER_CLUS as u8;
    put16(&mut img, 14, FAT_START as u16);
    img[16] = 2;
    put32(&mut img, 32, 1_048_576);
    put32(&mut img, 36, FAT_SIZE as u32);
    put32(&mut img, 44, 2);
    put16(&mut img, 510, 0xAA55);
    for k in 0..2 {
        let base = (FAT_START + k * FAT_SIZE) * SECTOR;
        if base + 12 > total_bytes {
            continue;
        }
        put32(&mut img, base, 0x0FFF_FFF8);
        put32(&mut img, base + 4, 0x0FFF_FFFF);
        put32(&mut img, base + 8, 0x0FFF_FFFF);
    }
    img
}

fn cluster_offset(c: usize) -> usize {
    (DATA_START + (c - 2) * SEC_PER_CLUS) * SECTOR
}

fn fat_cell(img: &[u8], copy: usize, c: usize) -> u32 {
    get32(img, (FAT_START + copy * FAT_SIZE) * SECTOR + 4 * c) & 0x0FFF_FFFF
}

fn mounted(size: usize) -> (FatFs, MemDisk) {
    let mut disk = MemDisk::from_bytes(fat32_image(size));
    let mut fs = FatFs::new_empty();
    fs.init(&mut disk, &PtPosition { start: 0, end: 1_048_576 }).unwrap();
    (fs, disk)
}

fn date(y: u32, m: u32, d: u32) -> FatDate {
    FatDate { year: y, month: m, day: d }
}

fn time(h: u32, m: u32, s: u32, ns: u32) -> FatTime {
    FatTime { hour: h, minute: m, second: s, nanosecond: ns }
}

fn create(fs: &mut FatFs, disk: &mut MemDisk, path: &str, size: u32) -> Result<Request, FsError> {
    let d = date(2024, 6, 1);
    let t = time(12, 34, 56, 700_000_000);
    fs.create_file(disk, path, FileType::File, 0o777, &d, &t, &d, &t, &d, size)
}

#[test]
fn bpb_geometry_is_fat32() {
    let (fs, _disk) = mounted(SECTOR);
    assert_eq!(fs.cluster_count(), 130815);
    assert_eq!(fs.fs_variant(), FatFsType::FAT32);
    assert_eq!(fs.bytes_per_cluster(), 4096);
    assert_eq!(fs.fat_start_sector(), 32);
    assert_eq!(fs.data_start_sector(), 2050);
}

#[test]
fn bpb_fields_decode() {
    let img = fat32_image(SECTOR);
    let b = BPB::from_sector(&img);
    assert_eq!(b.bytes_per_sec, 512);
    assert_eq!(b.sec_per_clus, 8);
    assert_eq!(b.rsvd_sec_cnt, 32);
    assert_eq!(b.num_fats, 2);
    assert_eq!(b.tot_sec32, 1_048_576);
    assert_eq!(b.fat_sz32, 1009);
    assert_eq!(b.root_clus, 2);
    assert_eq!(b.signature, 0xAA55);
}

#[test]
fn bad_sector_size_is_invalid_data() {
    let mut img = fat32_image(SECTOR);
    put16(&mut img, 11, 100);
    let mut disk = MemDisk::from_bytes(img);
    let mut fs = FatFs::new_empty();
    let r = fs.init(&mut disk, &PtPosition { start: 0, end: 10 });
    assert_eq!(r, Err(FsError::InvalidData));
}

#[test]
fn missing_boot_sector_is_io_error() {
    let mut disk = MemDisk::from_bytes(vec![0u8; 100]);
    let mut fs = FatFs::new_empty();
    let r = fs.init(&mut disk, &PtPosition { start: 0, end: 10 });
    assert_eq!(r, Err(FsError::Io));
}

#[test]
fn small_volume_is_fat12_and_refuses_allocation() {
    let mut img = fat32_image(SECTOR * 64);
    put32(&mut img, 32, 8000);
    put32(&mut img, 36, 4);
    let mut disk = MemDisk::from_bytes(img);
    let mut fs = FatFs::new_empty();
    fs.init(&mut disk, &PtPosition { start: 0, end: 8000 }).unwrap();
    assert_eq!(fs.fs_variant(), FatFsType::FAT12);
    assert_eq!(fs.alloc_clus(&mut disk, 0, true), Err(FsError::Unsupported));
}

#[test]
fn create_short_name_entry_bytes() {
    let (mut fs, mut disk) = mounted(2 << 20);
    let req = create(&mut fs, &mut disk, "/HELLO.TXT", 0).unwrap();
    assert_eq!(req.offset, 0);
    let img = disk.contents();
    let e = &img[cluster_offset(2)..cluster_offset(2) + 32];
    assert_eq!(&e[0..11], b"HELLO   TXT");
    assert_eq!(e[11], 0x20);
    assert_eq!(e[13], 7);
    assert_eq!(u16::from_le_bytes([e[14], e[15]]), (12 << 11) | (34 << 5) | 28);
    assert_eq!(u16::from_le_bytes([e[14], e[15]]), 0x645C);
    assert_eq!(u16::from_le_bytes([e[16], e[17]]), 0x58C1);
    assert_eq!(u16::from_le_bytes([e[26], e[27]]), 3);
    assert_eq!(fat_cell(img, 0, 3), 0x0FFF_FFFF);
    assert_eq!(fat_cell(img, 1, 3), 0x0FFF_FFFF);
}

#[test]
fn read_only_unless_world_writable() {
    let (mut fs, mut disk) = mounted(2 << 20);
    let d = date(2024, 6, 1);
    let t = time(1, 2, 3, 0);
    fs.create_file(&mut disk, "/RO.TXT", FileType::File, 0o644, &d, &t, &d, &t, &d, 0).unwrap();
    fs.create_file(&mut disk, "/SUB", FileType::Dir, 0o777, &d, &t, &d, &t, &d, 0).unwrap();
    let img = disk.contents();
    assert_eq!(img[cluster_offset(2) + 11], 0x21);
    assert_eq!(img[cluster_offset(2) + 32 + 11], 0x30);
}

#[test]
fn create_long_name_with_alias() {
    let (mut fs, mut disk) = mounted(2 << 20);
    create(&mut fs, &mut disk, "/файл.txt", 0).unwrap();
    let img = disk.contents();
    let long = &img[cluster_offset(2)..cluster_offset(2) + 32];
    let short = &img[cluster_offset(2) + 32..cluster_offset(2) + 64];
    assert_eq!(&short[0..11], b"____~1  TXT");
    let field = short[0..11].to_vec();
    assert_eq!(long[0], 0x41);
    assert_eq!(long[11], 0x0F);
    assert_eq!(long[12], 0);
    assert_eq!(long[13], chksum(&field));
    assert_eq!(u16::from_le_bytes([long[1], long[2]]), 'ф' as u16);
    assert_eq!(u16::from_le_bytes([long[9], long[10]]), '.' as u16);
    assert_eq!(u16::from_le_bytes([long[14], long[15]]), 't' as u16);
    assert_eq!(u16::from_le_bytes([long[30], long[31]]), 0xFFFF);
    assert!(fs.open(&mut disk, "/файл.TXT").is_ok());
    let mut fresh = FatFs::new_empty();
    fresh.init(&mut disk, &PtPosition { start: 0, end: 1_048_576 }).unwrap();
    assert!(fresh.open(&mut disk, "/ФАЙЛ.txt").is_ok());
    assert!(fresh.open(&mut disk, "/файл.TXT").is_ok());
}

#[test]
fn second_alias_gets_next_number() {
    let (mut fs, mut disk) = mounted(2 << 20);
    create(&mut fs, &mut disk, "/longfilename1.txt", 0).unwrap();
    create(&mut fs, &mut disk, "/longfilename2.txt", 0).unwrap();
    let img = disk.contents();
    let base = cluster_offset(2);
    // two long entries, then the short entry, for each name
    assert_eq!(&img[base + 2 * 32..base + 2 * 32 + 11], b"LONGFILETXT");
    assert_eq!(&img[base + 5 * 32..base + 5 * 32 + 11], b"LONGFI~1TXT");
}

#[test]
fn write_grows_chain_over_three_clusters() {
    let (mut fs, mut disk) = mounted(2 << 20);
    let mut req = create(&mut fs, &mut disk, "/DATA.BIN", 10000).unwrap();
    let ranges = fs.file_range(&mut disk, &req, 10000).unwrap();
    assert_eq!(ranges.len(), 3);
    assert_eq!(ranges[0], (cluster_offset(3) as u64, cluster_offset(3) as u64 + 4096));
    assert_eq!(ranges[2].1 - ranges[2].0, 10000 - 8192);
    let data: Vec<u8> = (0..10000u32).map(|i| (i % 251) as u8).collect();
    let n = fs.write(&mut disk, &mut req, &data, 10000).unwrap();
    assert_eq!(n, 10000);
    assert_eq!(req.offset, 10000);
    let img = disk.contents();
    assert_eq!(fat_cell(img, 0, 3), 4);
    assert_eq!(fat_cell(img, 0, 4), 5);
    assert!(fat_cell(img, 0, 5) >= 0x0FFF_FFF8);
    assert_eq!(fat_cell(img, 1, 4), 5);
    let mut back = vec![0u8; 10000];
    let mut rreq = Request { idx: req.idx, offset: 0 };
    let got = fs.read(&mut disk, &mut rreq, &mut back, 10000).unwrap();
    assert_eq!(got, 10000);
    assert_eq!(back, data);
}

#[test]
fn writing_twice_keeps_image() {
    let (mut fs, mut disk) = mounted(2 << 20);
    let req = create(&mut fs, &mut disk, "/TWICE.BIN", 5000).unwrap();
    let data: Vec<u8> = (0..5000u32).map(|i| (i % 7) as u8).collect();
    let mut r1 = Request { idx: req.idx, offset: 0 };
    fs.write(&mut disk, &mut r1, &data, 5000).unwrap();
    let first = disk.contents().clone();
    let mut r2 = Request { idx: req.idx, offset: 0 };
    fs.write(&mut disk, &mut r2, &data, 5000).unwrap();
    assert!(first == *disk.contents());
}

#[test]
fn delete_then_open_is_not_found() {
    let (mut fs, mut disk) = mounted(2 << 20);
    create(&mut fs, &mut disk, "/HELLO.TXT", 0).unwrap();
    let req = fs.open(&mut disk, "/HELLO.TXT").unwrap();
    fs.delete_file(&mut disk, &req).unwrap();
    assert_eq!(disk.contents()[cluster_offset(2)], 0xE5);
    assert_eq!(fs.open(&mut disk, "/HELLO.TXT").err(), Some(FsError::NotFound));
    let mut fresh = FatFs::new_empty();
    fresh.init(&mut disk, &PtPosition { start: 0, end: 1_048_576 }).unwrap();
    assert_eq!(fresh.open(&mut disk, "/HELLO.TXT").err(), Some(FsError::NotFound));
}

#[test]
fn created_file_is_found_after_remount() {
    let (mut fs, mut disk) = mounted(2 << 20);
    create(&mut fs, &mut disk, "/hello.txt", 0).unwrap();
    let mut fresh = FatFs::new_empty();
    fresh.init(&mut disk, &PtPosition { start: 0, end: 1_048_576 }).unwrap();
    let req = fresh.open(&mut disk, "/HELLO.TXT").unwrap();
    assert_eq!(req.offset, 0);
    let e = &disk.contents()[cluster_offset(2)..cluster_offset(2) + 32];
    assert_eq!(e[12], 0x18);
    assert_eq!(short_display_name(&e[0..11].to_vec(), e[12]), chars("hello.txt"));
}

#[test]
fn invalid_name_is_rejected() {
    let (mut fs, mut disk) = mounted(2 << 20);
    assert_eq!(create(&mut fs, &mut disk, "/bad[name].txt", 0).err(), Some(FsError::InvalidInput));
    assert_eq!(create(&mut fs, &mut disk, "/", 0).err(), Some(FsError::InvalidInput));
}

#[test]
fn open_missing_is_not_found() {
    let (mut fs, mut disk) = mounted(2 << 20);
    assert_eq!(fs.open(&mut disk, "/NOPE.TXT").err(), Some(FsError::NotFound));
}

#[test]
fn allocation_takes_lowest_free_cluster() {
    let (fs, mut disk) = mounted(2 << 20);
    let a = fs.alloc_clus(&mut disk, 0, true).unwrap();
    let b = fs.alloc_clus(&mut disk, a, false).unwrap();
    let c = fs.alloc_clus(&mut disk, b, false).unwrap();
    assert_eq!((a, b, c), (3, 4, 5));
    assert_eq!(fs.get_all_clus(&mut disk, 3).unwrap(), vec![3, 4, 5]);
    fs.free_clus(&mut disk, 3, 4).unwrap();
    assert_eq!(fs.alloc_clus(&mut disk, 0, true).unwrap(), 4);
    assert_eq!(fs.alloc_clus(&mut disk, 0, true).unwrap(), 6);
    assert_eq!(fs.free_clus(&mut disk, 0, 2), Err(FsError::InvalidInput));
}

#[test]
fn full_fat_is_out_of_space() {
    let mut img = fat32_image((FAT_START + FAT_SIZE) * SECTOR + SECTOR);
    for c in 3..(FAT_SIZE * SECTOR / 4) {
        put32(&mut img, FAT_START * SECTOR + 4 * c, 1);
    }
    let mut disk = MemDisk::from_bytes(img);
    let mut fs = FatFs::new_empty();
    fs.init(&mut disk, &PtPosition { start: 0, end: 1_048_576 }).unwrap();
    assert_eq!(fs.alloc_clus(&mut disk, 0, true), Err(FsError::OutOfSpace));
}

#[test]
fn cluster_numbers_below_two_are_invalid() {
    let (fs, _disk) = mounted(SECTOR);
    assert_eq!(fs.to_byte_cnt(1), Err(FsError::InvalidInput));
    assert_eq!(fs.to_byte_cnt(3), Ok(((2050 + 8) * 512) as u64));
}

#[test]
fn corrupt_long_entry_checksum_is_invalid_data() {
    let name = chars("Some Long Name.txt");
    let field = b"SOMELO~1TXT".to_vec();
    let mut d = build_long_entries(&name, chksum(&field).wrapping_add(1));
    let mut short = field.clone();
    short.extend_from_slice(&[0x20; 21]);
    d.extend_from_slice(&short);
    assert_eq!(find_entry(&d, &name), Err(FsError::InvalidData));
}

#[test]
fn short_name_round_trips() {
    for s in ["hello.txt", "README", "A1.B", "data.BIN", "x"] {
        let name = chars(s);
        assert!(check_short_name(&name));
        let sn = ShortName::new(&name).unwrap();
        assert_eq!(short_display_name(&sn.field, nt_res(&name)), name);
    }
    assert_eq!(ShortName::new(&chars("hello.txt")).unwrap().field, b"HELLO   TXT".to_vec());
    assert!(!check_short_name(&chars("Mixed.txt")));
    assert!(check_short_name(&chars("")));
    assert!(check_short_name(&chars(".TXT")));
    assert_eq!(ShortName::new(&chars(".TXT")).unwrap().field, b"        TXT".to_vec());
    assert!(!check_short_name(&chars("toolongname.txt")));
    assert!(!check_short_name(&chars("a~1.txt")));
    assert_eq!(ShortName::new(&chars("a.b.c")).err(), Some(FsError::InvalidInput));
    assert_eq!(check_fname_caps(&chars("aB.c")), 0b0111);
    assert_eq!(check_fname_caps(&chars("файл.TXT")), 0b1001);
    assert_eq!(check_fname_caps(&chars("Ф.x")), 0b0110);
}

#[test]
fn long_name_round_trips() {
    for s in ["Some Long Name.extension", "файл.txt", "exactly13char", "emoji😀name.txt"] {
        let name = chars(s);
        let chk = 0x5Au8;
        let entries = build_long_entries(&name, chk);
        assert_eq!(entries.len() % 32, 0);
        assert_eq!(long_name_from_entries(&entries), name);
        for e in entries.chunks(32) {
            assert_eq!(e[13], chk);
            assert_eq!(e[11], 0x0F);
        }
    }
    assert!(imagetool::fat::long_name::long_name_valid(&vec![]));
    assert!(!imagetool::fat::long_name::long_name_valid(&chars("a;b")));
    let e = build_long_entries(&chars("abcdefghijklmnopq"), 1);
    assert_eq!(e.len(), 64);
    assert_eq!(e[0], 0x01);
    assert_eq!(e[32], 0x42);
}

#[test]
fn utf16_codec_handles_surrogates() {
    let s = chars("a😀ф");
    let u = encode_utf16(&s);
    assert_eq!(u, vec![0x61, 0xD83D, 0xDE00, 0x444]);
    assert_eq!(decode_utf16(&u), s);
    assert_eq!(decode_utf16(&vec![0xD800, 0x41]), chars("\u{FFFD}A"));
}

#[test]
fn checksum_of_known_field() {
    let mut sum: u8 = 0;
    for &b in b"FAYL~1  TXT" {
        sum = (if sum & 1 != 0 { 0x80u8 } else { 0 }).wrapping_add(sum >> 1).wrapping_add(b);
    }
    assert_eq!(chksum(&b"FAYL~1  TXT".to_vec()), sum);
    assert_eq!(chksum(&vec![]), 0);
    assert_eq!(chksum(&vec![1, 2]), 0x82);
}

#[test]
fn alias_fields() {
    let (f, lossy) = make_alias_field(&chars("файл.txt"));
    assert_eq!(f, b"____    TXT".to_vec());
    assert!(lossy);
    let (g, lossy2) = make_alias_field(&chars("my.long.archive.tar.gz"));
    assert_eq!(g, b"MY      GZ ".to_vec());
    assert!(!lossy2);
    assert_eq!(make_numbered_field(&f, 1), b"____~1  TXT".to_vec());
    assert_eq!(make_numbered_field(&b"LONGFILETXT".to_vec(), 12), b"LONGF~12TXT".to_vec());
    assert_eq!(make_numbered_field(&b"LONGFILETXT".to_vec(), 999999), b"L~999999TXT".to_vec());
}

#[test]
fn date_time_packing_round_trips() {
    let d = date(2024, 6, 1);
    let t = time(12, 34, 56, 700_000_000);
    assert_eq!(to_fat32_date(&d), 0x58C1);
    assert_eq!(to_fat32_time(&t), 0x645C);
    assert_eq!(to_fat32_time_tenth(&t), 7);
    assert_eq!(from_fat32_date(0x58C1), d);
    assert_eq!(from_fat32_time(0x645C), time(12, 34, 56, 0));
    let late = date(2107, 12, 31);
    assert_eq!(from_fat32_date(to_fat32_date(&late)), late);
    assert_eq!(from_fat32_time(to_fat32_time(&time(23, 59, 59, 0))), time(23, 59, 58, 0));
    assert_eq!(to_fat32_date(&date(1980, 1, 1)), 0x21);
}

#[test]
fn mem_disk_transfers() {
    let mut disk = MemDisk::new(8);
    disk.seek(2);
    assert_eq!(disk.write(&vec![1, 2, 3]), Ok(3));
    disk.seek(1);
    let mut buf = vec![0u8; 4];
    assert_eq!(disk.read(&mut buf), Ok(4));
    assert_eq!(buf, vec![0, 1, 2, 3]);
    disk.seek(6);
    assert_eq!(disk.write(&vec![9, 9, 9]), Err(FsError::Io));
    assert_eq!(disk.create(4), Ok(()));
    assert_eq!(disk.contents().len(), 4);
}

#[test]
fn alias_choice_reports_taken_aliases() {
    let mut d = vec![0u8; 64];
    d[0..11].copy_from_slice(b"LONGFILETXT");
    d[11] = 0x20;
    let sn = choose_alias(&d, &chars("longfilename.txt")).unwrap();
    assert_eq!(sn.field, b"LONGFI~1TXT".to_vec());
    let fresh = choose_alias(&vec![0u8; 32], &chars("longfilename.txt")).unwrap();
    assert_eq!(fresh.field, b"LONGFILETXT".to_vec());
}

#[test]
fn long_name_with_six_entries_is_found_again() {
    let (mut fs, mut disk) = mounted(2 << 20);
    let name: String = std::iter::repeat("abcdefghij").take(7).collect();
    let path = format!("/{}.txt", name);
    create(&mut fs, &mut disk, &path, 0).unwrap();
    let base = cluster_offset(2);
    let img = disk.contents();
    assert_eq!(img[base + 4 * 32], 0x05);
    assert_eq!(img[base + 4 * 32 + 11], 0x0F);
    let mut fresh = FatFs::new_empty();
    fresh.init(&mut disk, &PtPosition { start: 0, end: 1_048_576 }).unwrap();
    assert!(fresh.open(&mut disk, &path).is_ok());
}

#[test]
fn failed_init_leaves_engine_empty() {
    let mut disk = MemDisk::from_bytes(vec![0u8; 512]);
    let mut fs = FatFs::new_empty();
    assert_eq!(fs.init(&mut disk, &PtPosition { start: 0, end: 1 }), Err(FsError::InvalidData));
    assert_eq!(fs.bytes_per_cluster(), 0);
    assert_eq!(fs.fat_start_sector(), 0);
}
