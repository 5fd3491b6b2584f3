use fat32_rs::blockdev::{BlockDevice, BlockError, MemDevice};
use fat32_rs::bpb::BiosParameterBlock;
use fat32_rs::dir::{eq_ignore_ascii_case, parse_dir_entry, short_name, DirEntry};
use fat32_rs::fat::FatTable;
use fat32_rs::fs::{Fat32, FsError};
use fat32_rs::path::normalize_path;

fn boot_sector(sectors_per_cluster: u8) -> [u8; 512] {
    let mut sector = [0u8; 512];
    sector[11..13].copy_from_slice(&512u16.to_le_bytes());
    sector[13] = sectors_per_cluster;
    sector[14..16].copy_from_slice(&1u16.to_le_bytes());
    sector[16] = 1;
    sector[36..40].copy_from_slice(&1u32.to_le_bytes());
    sector[44..48].copy_from_slice(&2u32.to_le_bytes());
    sector
}

fn dir_record(name: &str, ext: &str, attr: u8, cluster: u32, size: u32) -> [u8; 32] {
    let mut entry = [0u8; 32];
    let mut name_buf = [b' '; 8];
    let mut ext_buf = [b' '; 3];
    for (i, b) in name.as_bytes().iter().take(8).enumerate() {
        name_buf[i] = *b;
    }
    for (i, b) in ext.as_bytes().iter().take(3).enumerate() {
        ext_buf[i] = *b;
    }
    entry[0..8].copy_from_slice(&name_buf);
    entry[8..11].copy_from_slice(&ext_buf);
    entry[11] = attr;
    entry[20..22].copy_from_slice(&((cluster >> 16) as u16).to_le_bytes());
    entry[26..28].copy_from_slice(&(cluster as u16).to_le_bytes());
    entry[28..32].copy_from_slice(&size.to_le_bytes());
    entry
}

fn set_fat(image: &mut [u8], cluster: usize, value: u32) {
    let at = 512 + cluster * 4;
    image[at..at + 4].copy_from_slice(&value.to_le_bytes());
}

/// sectors: [boot][fat][2: root][3: FILE.TXT][4: DIR][5: DIR/NOTE.TXT part 1][6: part 2]
fn volume() -> MemDevice {
    let mut image = vec![0u8; 512 * 7];
    image[0..512].copy_from_slice(&boot_sector(1));
    set_fat(&mut image, 0, 0x0FFF_FFF8);
    set_fat(&mut image, 1, 0x0FFF_FFFF);
    set_fat(&mut image, 2, 0x0FFF_FFFF);
    set_fat(&mut image, 3, 0x0FFF_FFFF);
    set_fat(&mut image, 4, 0x0FFF_FFFF);
    set_fat(&mut image, 5, 6);
    set_fat(&mut image, 6, 0x0FFF_FFFF);
    let root = 1024;
    image[root..root + 32].copy_from_slice(&dir_record("FILE", "TXT", 0x20, 3, 5));
    image[root + 32..root + 64].copy_from_slice(&dir_record("OLD", "TXT", 0x20, 3, 5));
    image[root + 32] = 0xE5;
    image[root + 64..root + 96].copy_from_slice(&dir_record("DIR", "", 0x10, 4, 0));
    image[1536..1541].copy_from_slice(b"hello");
    let sub = 2048;
    image[sub..sub + 32].copy_from_slice(&dir_record("NOTE", "TXT", 0x20, 5, 600));
    for (i, b) in image[2560..3584].iter_mut().enumerate() {
        *b = (i % 251) as u8;
    }
    MemDevice::new(512, image).unwrap()
}

#[test]
fn mem_device_rejects_partial_sectors() {
    assert_eq!(MemDevice::new(512, vec![0u8; 100]).unwrap_err(), BlockError::BadBuffer);
    let dev = MemDevice::new(512, vec![7u8; 1024]).unwrap();
    assert_eq!(dev.sector_count(), 2);
    assert_eq!(dev.sector_size(), 512);
}

#[test]
fn mem_device_read_errors() {
    let dev = MemDevice::new(4, vec![1, 2, 3, 4, 5, 6, 7, 8]).unwrap();
    let mut buf = [0u8; 4];
    assert_eq!(dev.read_sector(1, &mut buf), Ok(()));
    assert_eq!(buf, [5, 6, 7, 8]);
    assert_eq!(dev.read_sector(2, &mut buf), Err(BlockError::IoError));
    assert_eq!(dev.read_sector(u64::MAX, &mut buf), Err(BlockError::IoError));
    let mut small = [0u8; 3];
    assert_eq!(dev.read_sector(0, &mut small), Err(BlockError::BadBuffer));
}

#[test]
fn bpb_needs_a_full_boot_sector() {
    assert_eq!(BiosParameterBlock::parse(&[0u8; 511]), Err(BlockError::BadBuffer));
}

#[test]
fn bpb_geometry() {
    let mut sector = boot_sector(4);
    sector[14..16].copy_from_slice(&32u16.to_le_bytes());
    sector[16] = 2;
    sector[36..40].copy_from_slice(&1000u32.to_le_bytes());
    let bpb = BiosParameterBlock::parse(&sector).unwrap();
    assert_eq!(bpb.cluster_size(), 2048);
    assert_eq!(bpb.first_data_sector(), 2032);
    assert_eq!(bpb.cluster_to_lba(2), 2032);
    assert_eq!(bpb.cluster_to_lba(10), 2064);
}

#[test]
fn fat_entry_ignores_reserved_bits() {
    let mut image = vec![0u8; 512 * 2];
    image[0..512].copy_from_slice(&boot_sector(1));
    set_fat(&mut image, 2, 0xF000_0003);
    set_fat(&mut image, 3, 0x0FFF_FFF7);
    let bpb = BiosParameterBlock::parse(&image[0..512]).unwrap();
    let table = FatTable { device: MemDevice::new(512, image).unwrap(), bpb, lba_start: 0 };
    assert_eq!(table.next_cluster(2), Ok(Some(3)));
    assert_eq!(table.next_cluster(3), Ok(Some(0x0FFF_FFF7)));
    assert_eq!(table.next_cluster(200), Err(BlockError::IoError));
}

#[test]
fn dir_entry_markers() {
    let mut raw = dir_record("A", "B", 0x20, 9, 1);
    assert!(parse_dir_entry(&raw[..31]).is_none());
    raw[0] = 0x00;
    assert!(parse_dir_entry(&raw).is_none());
    raw[0] = 0xE5;
    assert!(parse_dir_entry(&raw).is_none());
    let long = dir_record("LONG", "", 0x0F, 0, 0);
    assert!(parse_dir_entry(&long).is_none());
    let label = dir_record("LABEL", "", 0x08, 0, 0);
    assert!(parse_dir_entry(&label).is_none());
    let high = dir_record("BIG", "DAT", 0x20, 0x0012_0034, 7);
    let e = parse_dir_entry(&high).unwrap();
    assert_eq!(e.cluster, 0x0012_0034);
    assert_eq!(e.name, "BIG.DAT");
    assert!(!e.is_dir());
}

#[test]
fn short_names() {
    assert_eq!(short_name(b"README     "), "README");
    assert_eq!(short_name(b"A       B  "), "A.B");
    assert_eq!(short_name(b"  X     Y Z"), "  X.Y Z");
    assert_eq!(short_name(b"\xFFAB     TXT"), "\u{FFFD}AB.TXT");
}

#[test]
fn names_compare_without_ascii_case() {
    assert!(eq_ignore_ascii_case("File.Txt", "FILE.TXT"));
    assert!(!eq_ignore_ascii_case("FILE", "FILES"));
    assert!(!eq_ignore_ascii_case("A[", "a{"));
}

#[test]
fn paths_normalize() {
    let (abs, parts) = normalize_path("/a/./b/../c//");
    assert!(abs);
    assert_eq!(parts, vec!["a".to_string(), "c".to_string()]);
    let (abs, parts) = normalize_path("../x");
    assert!(!abs);
    assert_eq!(parts, vec!["x".to_string()]);
    let (abs, parts) = normalize_path("");
    assert!(!abs);
    assert!(parts.is_empty());
    let (abs, parts) = normalize_path("..");
    assert!(!abs);
    assert!(parts.is_empty());
}

#[test]
fn mount_errors() {
    let dev = MemDevice::new(256, vec![0u8; 512]).unwrap();
    assert_eq!(Fat32::mount(dev, 0).unwrap_err(), FsError::InvalidBpb);
    let dev = MemDevice::new(512, vec![0u8; 512]).unwrap();
    assert_eq!(Fat32::mount(dev, 1).unwrap_err(), FsError::Block(BlockError::IoError));
}

#[test]
fn listing_skips_deleted_and_keeps_order() {
    let fs = Fat32::mount(volume(), 0).unwrap();
    let list = fs.ls(None).unwrap();
    let names: Vec<&str> = list.iter().map(|e| e.name.as_str()).collect();
    assert_eq!(names, vec!["FILE.TXT", "DIR"]);
    assert!(!list[0].is_dir);
    assert!(list[1].is_dir);
    assert_eq!(list[0].size, 5);
}

#[test]
fn ls_dot_equals_ls_none() {
    let mut fs = Fat32::mount(volume(), 0).unwrap();
    assert_eq!(fs.ls(Some(".")).unwrap(), fs.ls(None).unwrap());
    fs.cd("dir").unwrap();
    assert_eq!(fs.ls(Some(".")).unwrap(), fs.ls(None).unwrap());
    let root = Fat32::mount(volume(), 0).unwrap();
    assert_eq!(fs.ls(Some("/")).unwrap(), root.ls(None).unwrap());
}

#[test]
fn cd_and_pwd() {
    let mut fs = Fat32::mount(volume(), 0).unwrap();
    assert_eq!(fs.pwd(), "/");
    fs.cd("dir").unwrap();
    assert_eq!(fs.pwd(), "/DIR");
    assert_eq!(fs.cd("NOTE.TXT"), Err(FsError::NotADirectory));
    assert_eq!(fs.pwd(), "/DIR");
    assert_eq!(fs.cd("missing"), Err(FsError::NotFound));
    assert_eq!(fs.pwd(), "/DIR");
    fs.cd("/").unwrap();
    assert_eq!(fs.pwd(), "/");
}

#[test]
fn cd_then_ls_lists_the_target() {
    let mut fs = Fat32::mount(volume(), 0).unwrap();
    let before = fs.ls(Some("./dir/../DIR")).unwrap();
    fs.cd("./dir/../DIR").unwrap();
    let after = fs.ls(None).unwrap();
    assert_eq!(before, after);
    assert_eq!(after.len(), 1);
    assert_eq!(after[0].name, "NOTE.TXT");
}

#[test]
fn cd_absolute_ignores_current_dir() {
    let mut a = Fat32::mount(volume(), 0).unwrap();
    let mut b = Fat32::mount(volume(), 0).unwrap();
    b.cd("/DIR").unwrap();
    a.cd("/DIR").unwrap();
    b.cd("/DIR").unwrap();
    assert_eq!(a.pwd(), b.pwd());
    assert_eq!(a.ls(None).unwrap(), b.ls(None).unwrap());
}

#[test]
fn read_file_errors() {
    let fs = Fat32::mount(volume(), 0).unwrap();
    assert_eq!(fs.read_file("/"), Err(FsError::NotAFile));
    assert_eq!(fs.read_file("/DIR"), Err(FsError::NotAFile));
    assert_eq!(fs.read_file("/NOPE.TXT"), Err(FsError::NotFound));
}

#[test]
fn read_file_follows_chain_and_stops_at_size() {
    let fs = Fat32::mount(volume(), 0).unwrap();
    let data = fs.read_file("/dir/note.txt").unwrap();
    assert_eq!(data.len(), 600);
    for (i, b) in data.iter().enumerate() {
        assert_eq!(*b, (i % 251) as u8);
    }
    let hello = fs.read_file("file.txt").unwrap();
    assert_eq!(hello, b"hello");
}

#[test]
fn dir_entry_is_dir_flag() {
    let e = DirEntry { name: "X".to_string(), attr: DirEntry::ATTR_DIRECTORY, cluster: 2, size: 0 };
    assert!(e.is_dir());
}

#[test]
fn normalizing_twice_changes_nothing() {
    for path in ["/a/./b/../c", "x//y/..", "../..", "", "/", "a/b/c/"] {
        let (abs, first) = normalize_path(path);
        let rejoined = format!("{}{}", if abs { "/" } else { "" }, first.join("/"));
        let (abs2, second) = normalize_path(&rejoined);
        assert_eq!(abs, abs2);
        assert_eq!(first, second);
    }
    let (abs, comps) = normalize_path("/a/./b/../c");
    assert!(abs);
    assert_eq!(comps, vec!["a".to_string(), "c".to_string()]);
}

#[test]
fn pwd_names_the_current_directory() {
    let mut fs = Fat32::mount(volume(), 0).unwrap();
    assert_eq!(fs.ls(Some("/")).unwrap(), fs.ls(None).unwrap());
    fs.cd("dir").unwrap();
    let here = fs.pwd();
    assert_eq!(fs.ls(Some(&here)).unwrap(), fs.ls(None).unwrap());
    fs.cd(&here).unwrap();
    assert_eq!(fs.pwd(), here);
    assert_eq!(fs.ls(Some("")).unwrap(), fs.ls(None).unwrap());
}

#[test]
fn ls_depends_on_the_normal_form() {
    let fs = Fat32::mount(volume(), 0).unwrap();
    assert_eq!(fs.ls(Some("/dir/./")).unwrap(), fs.ls(Some("/DIR")).unwrap());
    assert_eq!(fs.ls(Some("dir/../dir")).unwrap(), fs.ls(Some("dir")).unwrap());
}

#[test]
fn a_cloned_volume_keeps_its_directory() {
    let mut fs = Fat32::mount(volume(), 0).unwrap();
    fs.cd("dir").unwrap();
    let copy = fs.clone();
    assert_eq!(copy.pwd(), "/DIR");
    assert_eq!(copy.ls(None).unwrap(), fs.ls(None).unwrap());
}

#[test]
fn read_on_a_looping_chain_ends() {
    // sectors: [boot][fat][2: root][3: LOOP.TXT, whose FAT entry points back to itself]
    let mut image = vec![0u8; 512 * 4];
    image[0..512].copy_from_slice(&boot_sector(1));
    set_fat(&mut image, 2, 0x0FFF_FFFF);
    set_fat(&mut image, 3, 3);
    image[1024..1056].copy_from_slice(&dir_record("LOOP", "TXT", 0x20, 3, 1200));
    for b in image[1536..2048].iter_mut() {
        *b = b'a';
    }
    let fs = Fat32::mount(MemDevice::new(512, image).unwrap(), 0).unwrap();
    let data = fs.read_file("/loop.txt").unwrap();
    assert_eq!(data.len(), 1200);
    assert!(data.iter().all(|b| *b == b'a'));
}
