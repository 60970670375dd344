use wasabio::fs::Fs;
use wasabio::ErrorCode;
use wasabio::node::FileData;

const T0: u64 = 1000;

#[test]
fn mkdir_recursive_builds_the_chain() {
    let mut fs = Fs::mount(T0);
    let r = fs.mkdir_sync("/a/b/c", true, 0o777, T0);
    assert!(r.is_ok());
    let names: Vec<String> = fs
        .readdir_sync("/", T0)
        .unwrap()
        .iter()
        .map(|d| d.name())
        .collect();
    assert_eq!(names, vec!["a".to_string()]);
    let names: Vec<String> = fs
        .readdir_sync("/a", T0)
        .unwrap()
        .iter()
        .map(|d| d.name())
        .collect();
    assert_eq!(names, vec!["b".to_string()]);
    let names: Vec<String> = fs
        .readdir_sync("/a/b", T0)
        .unwrap()
        .iter()
        .map(|d| d.name())
        .collect();
    assert_eq!(names, vec!["c".to_string()]);
}

#[test]
fn write_append_read_and_size() {
    let mut fs = Fs::mount(T0);
    fs.write_file_sync("/f", &b"hello".to_vec(), None, None, T0).unwrap();
    fs.append_file_sync("/f", &b" world".to_vec(), None, None, T0).unwrap();
    let data = fs.read_file_sync("/f", T0).unwrap();
    assert_eq!(data, b"hello world".to_vec());
    let st = fs.stat_sync("/f", T0).unwrap();
    assert_eq!(st.size, 11);
}

#[test]
fn open_write_seek_read_window() {
    let mut fs = Fs::mount(T0);
    let fd = fs.open_sync("/g", Some("w+"), None, T0).unwrap();
    let n = fs.write_sync(fd, &b"abcdef".to_vec(), None, None, None, T0).unwrap();
    assert_eq!(n, 6);
    assert_eq!(fs.lseek_sync(fd, 2, 0), Some(2));
    let mut buf = vec![0u8; 3];
    let got = fs.read_sync(fd, &mut buf, Some(0), Some(3), Some(-1), T0).unwrap();
    assert_eq!(got, 3);
    assert_eq!(&buf[0..3], b"cde");
    fs.close_sync(fd).unwrap();
}

#[test]
fn hardlink_shares_content_and_unlink_cascades() {
    let mut fs = Fs::mount(T0);
    fs.write_file_sync("/f", &b"one".to_vec(), None, None, T0).unwrap();
    fs.link_sync("/f", "/h", T0).unwrap();
    fs.write_file_sync("/f", &b"X".to_vec(), None, None, T0).unwrap();
    assert_eq!(fs.read_file_sync("/h", T0).unwrap(), b"X".to_vec());
    let sa = fs.stat_sync("/f", T0).unwrap();
    let sb = fs.stat_sync("/h", T0).unwrap();
    assert_eq!(sa.ino, sb.ino);
    fs.unlink_sync("/f", None).unwrap();
    assert!(!fs.exists_sync("/f"));
    assert!(!fs.exists_sync("/h"));
}

#[test]
fn symlink_is_transparent_but_lstat_sees_it() {
    let mut fs = Fs::mount(T0);
    fs.write_file_sync("/f", &b"abc".to_vec(), None, None, T0).unwrap();
    fs.symlink_sync("/f", "/s", T0).unwrap();
    assert_eq!(fs.readlink_sync("/s").unwrap(), "/f".to_string());
    assert_eq!(fs.read_file_sync("/s", T0).unwrap(), fs.read_file_sync("/f", T0).unwrap());
    let ls = fs.lstat_sync("/s", T0).unwrap();
    assert!(ls.isSymbolicLink());
    let ss = fs.stat_sync("/s", T0).unwrap();
    let sf = fs.stat_sync("/f", T0).unwrap();
    assert_eq!(ss.size, sf.size);
    assert_eq!(ss.ino, sf.ino);
}

#[test]
fn rename_moves_a_file() {
    let mut fs = Fs::mount(T0);
    fs.write_file_sync("/a", &b"v".to_vec(), None, None, T0).unwrap();
    assert_eq!(fs.rename_sync("/a", "/b", T0), Some(true));
    assert!(!fs.exists_sync("/a"));
    assert!(fs.exists_sync("/b"));
    assert_eq!(fs.read_file_sync("/b", T0).unwrap(), b"v".to_vec());
}

#[test]
fn rm_recursive_removes_the_tree() {
    let mut fs = Fs::mount(T0);
    fs.mkdir_sync("/d", false, 0o777, T0).unwrap();
    fs.write_file_sync("/d/x", &b"1".to_vec(), None, None, T0).unwrap();
    fs.mkdir_sync("/d/e", false, 0o777, T0).unwrap();
    fs.write_file_sync("/d/e/y", &b"2".to_vec(), None, None, T0).unwrap();
    fs.rm_sync("/d", true, true).unwrap();
    assert!(!fs.exists_sync("/d"));
    assert!(!fs.exists_sync("/d/x"));
    assert!(!fs.exists_sync("/d/e"));
    assert!(!fs.exists_sync("/d/e/y"));
}

#[test]
fn exists_agrees_with_stat() {
    let mut fs = Fs::mount(T0);
    assert!(fs.exists_sync("/"));
    assert!(fs.stat_sync("/", T0).is_some());
    assert!(!fs.exists_sync("/nope"));
    assert!(fs.stat_sync("/nope", T0).is_none());
    fs.write_file_sync("/f", &b"z".to_vec(), None, None, T0).unwrap();
    assert_eq!(fs.exists_sync("/f"), fs.stat_sync("/f", T0).is_some());
}

#[test]
fn mkdir_is_idempotent_on_dirs_and_fails_on_files() {
    let mut fs = Fs::mount(T0);
    fs.mkdir_sync("/d", true, 0o777, T0).unwrap();
    assert!(fs.mkdir_sync("/d", true, 0o777, T0).is_ok());
    fs.write_file_sync("/f", &b"x".to_vec(), None, None, T0).unwrap();
    assert_eq!(fs.mkdir_sync("/f", true, 0o777, T0), Err(ErrorCode::Exist));
}

#[test]
fn descriptors_start_at_three_and_are_reused() {
    let mut fs = Fs::mount(T0);
    let fd = fs.open_sync("/f", Some("w"), None, T0).unwrap();
    assert_eq!(fd, 3);
    let fd2 = fs.open_sync("/g", Some("w"), None, T0).unwrap();
    assert_eq!(fd2, 4);
    fs.close_sync(fd).unwrap();
    let fd3 = fs.open_sync("/h", Some("w"), None, T0).unwrap();
    assert_eq!(fd3, 3);
}

#[test]
fn access_follows_owner_bits() {
    let mut fs = Fs::mount(T0);
    fs.write_file_sync("/f", &b"x".to_vec(), None, None, T0).unwrap();
    fs.chmod_sync("/f", 0o600, T0).unwrap();
    assert!(fs.access_sync("/f", Some(4 | 2)).is_ok());
    assert_eq!(fs.access_sync("/f", Some(1)), Err(ErrorCode::Access));
    fs.chmod_sync("/f", 0o400, T0).unwrap();
    assert!(fs.access_sync("/f", Some(4)).is_ok());
    assert_eq!(fs.access_sync("/f", Some(2)), Err(ErrorCode::Access));
    assert_eq!(fs.access_sync("/nope", Some(0)), Err(ErrorCode::NoEnt));
}

#[test]
fn error_codes_come_where_promised() {
    let mut fs = Fs::mount(T0);
    assert_eq!(fs.link_sync("/missing", "/x", T0), Err(ErrorCode::NoEnt));
    fs.write_file_sync("/f", &b"x".to_vec(), None, None, T0).unwrap();
    fs.write_file_sync("/g", &b"y".to_vec(), None, None, T0).unwrap();
    assert_eq!(fs.link_sync("/f", "/g", T0), Err(ErrorCode::Exist));
    fs.mkdir_sync("/d", false, 0o777, T0).unwrap();
    assert_eq!(fs.unlink_sync("/d", None), Err(ErrorCode::IsDir));
    assert_eq!(fs.rmdir_sync("/f", None), Err(ErrorCode::NotDir));
    fs.write_file_sync("/d/inner", &b"1".to_vec(), None, None, T0).unwrap();
    assert_eq!(fs.rmdir_sync("/d", None), Err(ErrorCode::NotEmpty));
    let fd = fs.open_sync("/f", Some("r"), None, T0).unwrap();
    assert_eq!(fs.unlink_sync("/f", None), Err(ErrorCode::Busy));
    fs.close_sync(fd).unwrap();
    assert!(fs.unlink_sync("/f", None).is_ok());
    assert_eq!(fs.readlink_sync("/g"), Err(ErrorCode::Inval));
    assert_eq!(fs.readlink_sync("/proc/self/fd/99"), Err(ErrorCode::BadFd));
    assert_eq!(fs.mkdir_sync("/no/parent", false, 0o777, T0), Err(ErrorCode::NoEnt));
    fs.chmod_sync("/d", 0o555, T0).unwrap();
    assert_eq!(fs.mkdir_sync("/d/deny", false, 0o777, T0), Err(ErrorCode::Access));
}

#[test]
fn truncate_cuts_and_extends() {
    let mut fs = Fs::mount(T0);
    fs.write_file_sync("/f", &b"abcdef".to_vec(), None, None, T0).unwrap();
    fs.truncate_sync("/f", 3, T0).unwrap();
    assert_eq!(fs.read_file_sync("/f", T0).unwrap(), b"abc".to_vec());
    fs.truncate_sync("/f", 5, T0).unwrap();
    assert_eq!(fs.read_file_sync("/f", T0).unwrap(), vec![b'a', b'b', b'c', 0, 0]);
}

#[test]
fn copy_file_duplicates_bytes() {
    let mut fs = Fs::mount(T0);
    fs.write_file_sync("/src", &b"payload".to_vec(), None, None, T0).unwrap();
    fs.copy_file_sync("/src", "/dst", false, T0).unwrap();
    assert_eq!(fs.read_file_sync("/dst", T0).unwrap(), b"payload".to_vec());
    assert_eq!(fs.copy_file_sync("/src", "/dst", true, T0), Err(ErrorCode::Exist));
}

#[test]
fn proc_fd_readlink_names_the_open_path() {
    let mut fs = Fs::mount(T0);
    let fd = fs.open_sync("/file", Some("w"), None, T0).unwrap();
    assert_eq!(fs.readlink_sync("/proc/self/fd/3").unwrap(), "/file".to_string());
    fs.close_sync(fd).unwrap();
}

#[test]
fn realpath_resolves_symlink_chains() {
    let mut fs = Fs::mount(T0);
    fs.write_file_sync("/t", &b"x".to_vec(), None, None, T0).unwrap();
    fs.symlink_sync("/t", "/s1", T0).unwrap();
    fs.symlink_sync("/s1", "/s2", T0).unwrap();
    assert_eq!(fs.realpath_sync("/s2", None), Some("/t".to_string()));
    assert_eq!(fs.realpath_sync("/s1", None), Some("/t".to_string()));
}

#[test]
fn freaddir_walks_entries_in_order() {
    let mut fs = Fs::mount(T0);
    fs.mkdir_sync("/d", false, 0o777, T0).unwrap();
    fs.write_file_sync("/d/a", &b"1".to_vec(), None, None, T0).unwrap();
    fs.write_file_sync("/d/b", &b"2".to_vec(), None, None, T0).unwrap();
    let fd = fs.open_sync("/d", None, None, T0).unwrap();
    let e1 = fs.freaddir_sync(fd, T0).unwrap();
    assert_eq!(e1.name(), "a".to_string());
    assert!(e1.isFile());
    let e2 = fs.freaddir_sync(fd, T0).unwrap();
    assert_eq!(e2.name(), "b".to_string());
    assert!(fs.freaddir_sync(fd, T0).is_none());
    fs.close_sync(fd).unwrap();
}

#[test]
fn statfs_counts_nodes() {
    let mut fs = Fs::mount(T0);
    fs.mkdir_sync("/d", false, 0o777, T0).unwrap();
    fs.write_file_sync("/f", &b"x".to_vec(), None, None, T0).unwrap();
    let st = fs.statfs_sync(Some(true));
    assert_eq!(st.files, 1);
    assert_eq!(st.dirs, 2);
    assert_eq!(st.bsize, 512);
    let dump = st.dump.unwrap();
    assert_eq!(dump.len(), 3);
}

#[test]
fn fstat_and_fd_metadata_ops() {
    let mut fs = Fs::mount(T0);
    let fd = fs.open_sync("/f", Some("w"), None, T0).unwrap();
    let st = fs.fstat(fd, T0).unwrap();
    assert!(st.isFile());
    fs.fchmod(fd, 0o640, 2000).unwrap();
    let st2 = fs.fstat(fd, T0).unwrap();
    assert_eq!(st2.mode & 0o777, 0o640);
    fs.fchown(fd, 7, 8, 2000).unwrap();
    let st3 = fs.fstat(fd, T0).unwrap();
    assert_eq!((st3.uid, st3.gid), (7, 8));
    fs.futimes(fd, 5, 6).unwrap();
    let st4 = fs.fstat(fd, T0).unwrap();
    assert_eq!((st4.atimeMs, st4.mtimeMs), (5000, 6000));
    fs.ftruncate(fd, 4, T0).unwrap();
    let st5 = fs.fstat(fd, T0).unwrap();
    assert_eq!(st5.size, 4);
    assert!(fs.fsync(fd).is_some());
    assert!(fs.fdatasync(fd).is_some());
    fs.close_sync(fd).unwrap();
}

#[test]
fn mkdtemp_appends_the_time_suffix() {
    let mut fs = Fs::mount(T0);
    let name = fs.mkdtemp_sync("/tmp-", 123456).unwrap();
    assert!(name.starts_with("/tmp-"));
    assert_eq!(name.len(), "/tmp-".len() + 6);
    assert!(fs.exists_sync(&name));
    let again = wasabio::fs::rand_string(123456);
    assert_eq!(name, format!("/tmp-{}", again));
}

#[test]
fn rename_moves_a_directory_with_children() {
    let mut fs = Fs::mount(T0);
    fs.mkdir_sync("/d", false, 0o777, T0).unwrap();
    fs.write_file_sync("/d/x", &b"1".to_vec(), None, None, T0).unwrap();
    fs.mkdir_sync("/d/e", false, 0o777, T0).unwrap();
    fs.write_file_sync("/d/e/y", &b"2".to_vec(), None, None, T0).unwrap();
    assert_eq!(fs.rename_sync("/d", "/m", 2000), Some(true));
    assert!(!fs.exists_sync("/d"));
    assert!(!fs.exists_sync("/d/x"));
    assert!(fs.exists_sync("/m"));
    assert_eq!(fs.read_file_sync("/m/x", T0).unwrap(), b"1".to_vec());
    assert_eq!(fs.read_file_sync("/m/e/y", T0).unwrap(), b"2".to_vec());
    let st = fs.stat_sync("/m", T0).unwrap();
    assert_eq!(st.ctimeMs, 2000);
}

#[test]
fn readdir_distinguishes_its_errors_and_lists_names() {
    let mut fs = Fs::mount(T0);
    assert_eq!(fs.readdir_sync("/missing", T0).err(), Some(ErrorCode::NoEnt));
    fs.write_file_sync("/f", &b"x".to_vec(), None, None, T0).unwrap();
    assert_eq!(fs.readdir_sync("/f", T0).err(), Some(ErrorCode::NotDir));
    fs.mkdir_sync("/d", false, 0o777, T0).unwrap();
    fs.write_file_sync("/d/a", &b"1".to_vec(), None, None, T0).unwrap();
    assert_eq!(fs.readdir_names_sync("/d", T0).unwrap(), vec!["a".to_string()]);
}

#[test]
fn encoded_reads_decode_or_hand_bytes_back() {
    let mut fs = Fs::mount(T0);
    fs.write_file_sync("/t", &b"hello".to_vec(), None, None, T0).unwrap();
    match fs.read_file_encoded("/t", "utf8", T0).unwrap() {
        FileData::Text(s) => assert_eq!(s, "hello".to_string()),
        FileData::Bytes(_) => panic!("valid text must decode"),
    }
    match fs.read_file_encoded("/t", "buffer", T0).unwrap() {
        FileData::Bytes(v) => assert_eq!(v, b"hello".to_vec()),
        FileData::Text(_) => panic!("buffer keeps bytes"),
    }
    fs.write_file_sync("/b", &vec![0xff, 0xfe], None, None, T0).unwrap();
    match fs.read_file_encoded("/b", "utf8", T0).unwrap() {
        FileData::Bytes(v) => assert_eq!(v, vec![0xff, 0xfe]),
        FileData::Text(_) => panic!("bad utf8 stays raw"),
    }
    assert_eq!(fs.read_file_encoded("/t", "hex", T0).err(), Some(ErrorCode::Inval));
    fs.mkdir_sync("/dd", false, 0o777, T0).unwrap();
    assert_eq!(fs.read_file_encoded("/dd", "utf8", T0).err(), Some(ErrorCode::IsDir));
    assert_eq!(fs.read_file_encoded("/zz", "utf8", T0).err(), Some(ErrorCode::NoEnt));
}

#[test]
fn emitter_cap_refuses_exactly_at_the_limit() {
    let mut w = wasabio::facade::Wasabio::boot(1);
    let b1 = w.buses.sab_bus_new();
    let b2 = w.buses.sab_bus_new();
    w.emitter.set_max_listeners("fs", 1);
    assert_eq!(w.emitter.get_max_listeners("fs"), 1);
    assert!(w.emitter.on("fs", "rename", b1, false));
    assert!(!w.emitter.on("fs", "rename", b2, false));
    w.emitter.set_max_listeners("fs", 0);
    assert!(w.emitter.on("fs", "rename", b2, false));
}
