use rcore_os::fs::{link_file, open_file, unlink_file, FileSystem, Inode, OSInode, OpenFlags, StatMode};

fn name(s: &str) -> Vec<u8> {
    s.as_bytes().to_vec()
}

#[test]
fn create_find_and_list_names() {
    let mut fs = FileSystem::new();
    let root = Inode::root();
    assert!(root.find(&fs, &name("a")).is_none());
    let a = root.create(&mut fs, &name("a")).unwrap();
    let b = root.create(&mut fs, &name("b")).unwrap();
    assert_eq!((a.id, b.id), (1, 2));
    assert!(root.create(&mut fs, &name("a")).is_none());
    assert!(root.find(&fs, &name("b")) == Some(b));
    assert_eq!(root.ls(&fs), vec![name("a"), name("b")]);
    assert_eq!(a.stat(&fs), (1, 1, false));
}

#[test]
fn hard_links_share_the_file_and_count_names() {
    let mut fs = FileSystem::new();
    let root = Inode::root();
    let f = root.create(&mut fs, &name("orig")).unwrap();
    assert_eq!(f.write_at(&mut fs, 0, &name("data")), 4);
    assert_eq!(root.link(&mut fs, &name("orig"), &name("alias")), Some(()));
    assert_eq!(f.stat(&fs).1, 2);
    let alias = root.find(&fs, &name("alias")).unwrap();
    assert_eq!(alias.id, f.id);
    let mut buf = vec![0u8; 4];
    assert_eq!(alias.read_at(&fs, 0, &mut buf), 4);
    assert_eq!(buf, name("data"));
    assert_eq!(root.unlink(&mut fs, &name("orig")), Some(()));
    assert_eq!(alias.stat(&fs).1, 1);
    assert_eq!(root.ls(&fs), vec![name("alias")]);
    assert_eq!(root.unlink(&mut fs, &name("alias")), Some(()));
    assert!(root.ls(&fs).is_empty());
    let g = root.create(&mut fs, &name("new")).unwrap();
    assert_eq!(g.id, f.id);
    let mut empty = vec![9u8; 2];
    assert_eq!(g.read_at(&fs, 0, &mut empty), 0);
}

#[test]
fn link_rejects_bad_or_taken_names() {
    let mut fs = FileSystem::new();
    let root = Inode::root();
    root.create(&mut fs, &name("x")).unwrap();
    root.create(&mut fs, &name("y")).unwrap();
    assert_eq!(root.link(&mut fs, &name("x"), &name("y")), None);
    assert_eq!(root.link(&mut fs, &name("x"), &name("")), None);
    assert_eq!(root.link(&mut fs, &name("x"), &name(".")), None);
    assert_eq!(root.link(&mut fs, &name("x"), &name("a/b")), None);
    assert_eq!(root.link(&mut fs, &name("x"), &vec![b'a'; 28]), None);
    assert_eq!(root.link(&mut fs, &name("x"), &vec![b'a'; 27]), Some(()));
    assert_eq!(root.link(&mut fs, &name("missing"), &name("z")), None);
    let file = root.find(&fs, &name("x")).unwrap();
    assert_eq!(file.link(&mut fs, &name("x"), &name("w")), None);
    assert_eq!(file.unlink(&mut fs, &name("x")), None);
    assert_eq!(root.unlink(&mut fs, &name("nothing")), None);
}

#[test]
fn unlinked_slot_is_reused() {
    let mut fs = FileSystem::new();
    let root = Inode::root();
    root.create(&mut fs, &name("a")).unwrap();
    root.create(&mut fs, &name("b")).unwrap();
    assert_eq!(unlink_file(&mut fs, &name("a")), Some(()));
    assert_eq!(link_file(&mut fs, &name("b"), &name("c")), Some(()));
    assert_eq!(root.ls(&fs), vec![name("c"), name("b")]);
}

#[test]
fn write_at_extends_with_zeros_and_clear_truncates() {
    let mut fs = FileSystem::new();
    let f = Inode::root().create(&mut fs, &name("f")).unwrap();
    assert_eq!(f.write_at(&mut fs, 3, &name("ab")), 2);
    let mut buf = vec![7u8; 8];
    assert_eq!(f.read_at(&fs, 0, &mut buf), 5);
    assert_eq!(buf, vec![0, 0, 0, b'a', b'b', 7, 7, 7]);
    assert_eq!(f.write_at(&mut fs, 1, &name("Z")), 1);
    let mut small = vec![0u8; 2];
    assert_eq!(f.read_at(&fs, 3, &mut small), 2);
    assert_eq!(small, name("ab"));
    assert_eq!(f.read_at(&fs, 9, &mut small), 0);
    assert_eq!(f.write_at(&mut fs, 0, &Vec::new()), 0);
    f.clear(&mut fs);
    assert_eq!(f.read_at(&fs, 0, &mut buf), 0);
    assert_eq!(f.stat(&fs), (f.id, 1, false));
}

#[test]
fn open_flags_grant_access() {
    let rw = |bits: u32| OpenFlags::from_bits(bits).unwrap().read_write();
    assert_eq!(rw(OpenFlags::RDONLY), (true, false));
    assert_eq!(rw(OpenFlags::WRONLY), (false, true));
    assert_eq!(rw(OpenFlags::RDWR), (true, true));
    assert_eq!(rw(OpenFlags::CREATE | OpenFlags::WRONLY), (false, true));
    assert_eq!(rw(OpenFlags::CREATE), (true, true));
    assert!(OpenFlags::from_bits(4).is_none());
}

#[test]
fn open_file_creates_truncates_and_keeps_offsets_apart() {
    let mut fs = FileSystem::new();
    let create = OpenFlags::from_bits(OpenFlags::CREATE | OpenFlags::RDWR).unwrap();
    let plain = OpenFlags::from_bits(OpenFlags::RDONLY).unwrap();
    let trunc = OpenFlags::from_bits(OpenFlags::TRUNC | OpenFlags::RDWR).unwrap();
    assert!(open_file(&mut fs, &name("log"), plain).is_none());
    let mut w = open_file(&mut fs, &name("log"), create).unwrap();
    assert!(w.readable() && w.writable());
    assert_eq!(w.write(&mut fs, &name("hello")), 5);
    assert_eq!(w.write(&mut fs, &name(" world")), 6);
    let mut r1 = open_file(&mut fs, &name("log"), plain).unwrap();
    assert!(r1.readable() && !r1.writable());
    let mut part = vec![0u8; 5];
    assert_eq!(r1.read(&fs, &mut part), 5);
    assert_eq!(part, name("hello"));
    assert_eq!(r1.read_all(&fs), name(" world"));
    assert!(r1.read_all(&fs).is_empty());
    let mut r2 = open_file(&mut fs, &name("log"), plain).unwrap();
    assert_eq!(r2.read_all(&fs), name("hello world"));
    let mut again = open_file(&mut fs, &name("log"), trunc).unwrap();
    assert!(again.read_all(&fs).is_empty());
    assert_eq!(w.write(&mut fs, &name("!")), 1);
    let mut r3 = open_file(&mut fs, &name("log"), plain).unwrap();
    assert_eq!(r3.read_all(&fs), vec![0u8; 11].into_iter().chain(name("!")).collect::<Vec<u8>>());
    let _ = open_file(&mut fs, &name("log"), create).unwrap();
    let mut r4 = open_file(&mut fs, &name("log"), plain).unwrap();
    assert!(r4.read_all(&fs).is_empty());
}

#[test]
fn stat_reports_kind_and_links() {
    let mut fs = FileSystem::new();
    let create = OpenFlags::from_bits(OpenFlags::CREATE).unwrap();
    let f: OSInode = open_file(&mut fs, &name("s"), create).unwrap();
    assert_eq!(link_file(&mut fs, &name("s"), &name("t")), Some(()));
    let st = f.stat(&fs).unwrap();
    assert_eq!((st.dev, st.ino, st.nlink), (0, 1, 2));
    assert_eq!(st.mode.bits(), StatMode::FILE);
    assert_eq!(StatMode::of_kind(true).bits(), StatMode::DIR);
}
