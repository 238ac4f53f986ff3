use psilo_vfs::Path;
use psilo_vfs::PathBuf;
use psilo_vfs::RomSource;
use psilo_vfs::SourceBox;
use psilo_vfs::VFS;
use psilo_vfs::VfsErrorKind;

fn entry(path: &str, data: &[u8]) -> (Path, Vec<u8>) {
    (Path::from_str(path), data.to_vec())
}

fn tree_a() -> RomSource {
    RomSource::new(&vec![
        entry("/bar/", b""),
        entry("/bar/baz", b"baz from A"),
        entry("/foo", b"foo from A"),
    ])
}

fn tree_b() -> RomSource {
    RomSource::new(&vec![
        entry("/bar/", b""),
        entry("/bar/bang", b"bang from B"),
        entry("/foo", b"foo from B"),
    ])
}

fn tree_c() -> RomSource {
    RomSource::new(&vec![entry("/foo/", b""), entry("/foo/barf", b"barf from C")])
}

fn check_file(vfs: &VFS, path: &str, content: &[u8]) {
    let mut file = match vfs.open(&Path::from_str(path)) {
        Ok(x) => x,
        Err(x) => panic!("{:?}: open: {:?}", path, x),
    };
    let buf = file.read_all().unwrap();
    if content != buf {
        panic!(
            "{:?}: bad content, wanted {:?}, got {:?}",
            path,
            String::from_utf8_lossy(content),
            String::from_utf8_lossy(&buf)
        );
    }
}

fn check_listing(vfs: &VFS, path: &str, expected: &[&str]) {
    let ls: Vec<String> = match vfs.ls(&Path::from_str(path)) {
        Ok(x) => x,
        Err(x) => panic!("{:?}: ls: {:?}", path, x),
    }
    .iter()
    .map(|p| p.as_str())
    .collect();
    let want: Vec<String> = expected.iter().map(|&x| x.to_string()).collect();
    if ls != want {
        panic!("{:?}: bad listing, wanted {:?}, got {:?}", path, want, ls);
    }
}

fn mount_at(vfs: &mut VFS, point: &str, source: RomSource) {
    vfs.mount(PathBuf::from_str(point), SourceBox::new(source))
        .unwrap();
}

#[test]
fn documented_unions() {
    // sanity check, each mount came through intact
    {
        let mut vfs = VFS::new();
        mount_at(&mut vfs, "/", tree_a());
        check_file(&vfs, "/bar/baz", b"baz from A");
        check_file(&vfs, "/foo", b"foo from A");
        check_listing(&vfs, "/", &["bar/", "foo"]);
        check_listing(&vfs, "/bar/", &["baz"]);
    }
    {
        let mut vfs = VFS::new();
        mount_at(&mut vfs, "/", tree_b());
        check_file(&vfs, "/bar/bang", b"bang from B");
        check_file(&vfs, "/foo", b"foo from B");
        check_listing(&vfs, "/", &["bar/", "foo"]);
        check_listing(&vfs, "/bar/", &["bang"]);
    }
    {
        let mut vfs = VFS::new();
        mount_at(&mut vfs, "/", tree_c());
        check_file(&vfs, "/foo/barf", b"barf from C");
        check_listing(&vfs, "/", &["foo/"]);
        check_listing(&vfs, "/foo/", &["barf"]);
    }
    // the documented unions
    {
        let mut vfs = VFS::new();
        mount_at(&mut vfs, "/", tree_a());
        mount_at(&mut vfs, "/", tree_b());
        check_file(&vfs, "/bar/baz", b"baz from A");
        check_file(&vfs, "/bar/bang", b"bang from B");
        check_file(&vfs, "/foo", b"foo from B");
        check_listing(&vfs, "/", &["bar/", "foo"]);
        check_listing(&vfs, "/bar/", &["bang", "baz"]);
    }
    {
        let mut vfs = VFS::new();
        mount_at(&mut vfs, "/", tree_a());
        mount_at(&mut vfs, "/plugins/fnord/", tree_b());
        check_file(&vfs, "/bar/baz", b"baz from A");
        check_file(&vfs, "/foo", b"foo from A");
        check_file(&vfs, "/plugins/fnord/bar/bang", b"bang from B");
        check_file(&vfs, "/plugins/fnord/foo", b"foo from B");
        check_listing(&vfs, "/", &["bar/", "foo", "plugins/"]);
        check_listing(&vfs, "/bar/", &["baz"]);
        check_listing(&vfs, "/plugins/", &["fnord/"]);
        check_listing(&vfs, "/plugins/fnord/", &["bar/", "foo"]);
        check_listing(&vfs, "/plugins/fnord/bar/", &["bang"]);
    }
    {
        let mut vfs = VFS::new();
        mount_at(&mut vfs, "/", tree_a());
        mount_at(&mut vfs, "/", tree_b());
        mount_at(&mut vfs, "/", tree_c());
        check_file(&vfs, "/bar/baz", b"baz from A");
        check_file(&vfs, "/bar/bang", b"bang from B");
        check_file(&vfs, "/foo/barf", b"barf from C");
        check_listing(&vfs, "/", &["bar/", "foo/"]);
        check_listing(&vfs, "/bar/", &["bang", "baz"]);
        check_listing(&vfs, "/foo/", &["barf"]);
    }
}

#[test]
fn engine_errors() {
    let mut vfs = VFS::new();
    assert_eq!(
        vfs.mount(PathBuf::from_str("relative/"), SourceBox::new(tree_a()))
            .unwrap_err(),
        VfsErrorKind::Other
    );
    assert_eq!(
        vfs.mount(PathBuf::from_str("/file"), SourceBox::new(tree_a()))
            .unwrap_err(),
        VfsErrorKind::NotADirectory
    );
    mount_at(&mut vfs, "/", tree_a());
    match vfs.open(&Path::from_str("relative")) {
        Err(e) => assert_eq!(e, VfsErrorKind::Other),
        Ok(_) => panic!("open of a relative path should fail"),
    }
    match vfs.open(&Path::from_str("/bar/")) {
        Err(e) => assert_eq!(e, VfsErrorKind::IsADirectory),
        Ok(_) => panic!("open of a directory should fail"),
    }
    match vfs.open(&Path::from_str("/nope")) {
        Err(e) => assert_eq!(e, VfsErrorKind::NotFound),
        Ok(_) => panic!("open of an unclaimed path should fail"),
    }
    assert_eq!(
        vfs.ls(&Path::from_str("relative/")).unwrap_err(),
        VfsErrorKind::Other
    );
    assert_eq!(
        vfs.ls(&Path::from_str("/foo")).unwrap_err(),
        VfsErrorKind::NotADirectory
    );
    assert_eq!(
        vfs.ls(&Path::from_str("/ghost/")).unwrap_err(),
        VfsErrorKind::NotFound
    );
    assert_eq!(
        vfs.ls(&Path::from_str("/foo/")).unwrap_err(),
        VfsErrorKind::NotADirectory
    );
    assert_eq!(
        vfs.update(&Path::from_str("/foo"), b"new").unwrap_err(),
        VfsErrorKind::ReadOnlyFilesystem
    );
    assert_eq!(
        vfs.update(&Path::from_str("relative"), b"new").unwrap_err(),
        VfsErrorKind::Other
    );
    assert_eq!(
        vfs.update(&Path::from_str("/dir/"), b"new").unwrap_err(),
        VfsErrorKind::IsADirectory
    );
}

#[test]
fn empty_engine() {
    let vfs = VFS::new();
    match vfs.open(&Path::from_str("/x")) {
        Err(e) => assert_eq!(e, VfsErrorKind::NotFound),
        Ok(_) => panic!("open on an empty engine should fail"),
    }
    assert_eq!(
        vfs.ls(&Path::from_str("/")).unwrap_err(),
        VfsErrorKind::NotFound
    );
    assert_eq!(
        vfs.update(&Path::from_str("/x"), b"y").unwrap_err(),
        VfsErrorKind::ReadOnlyFilesystem
    );
}

#[test]
fn phantom_only_mount() {
    // A mount anchored deep below the root makes the intermediate
    // directories appear even though no source contains them.
    let mut vfs = VFS::new();
    mount_at(&mut vfs, "/very/deep/anchor/", tree_a());
    check_listing(&vfs, "/", &["very/"]);
    check_listing(&vfs, "/very/", &["deep/"]);
    check_listing(&vfs, "/very/deep/", &["anchor/"]);
    check_listing(&vfs, "/very/deep/anchor/", &["bar/", "foo"]);
}
