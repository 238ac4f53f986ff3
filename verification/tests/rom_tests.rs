use psilo_vfs::Path;
use psilo_vfs::RomSource;
use psilo_vfs::VFSSource;
use psilo_vfs::VfsErrorKind;

fn entry(path: &str, data: &[u8]) -> (Path, Vec<u8>) {
    (Path::from_str(path), data.to_vec())
}

#[test]
fn some_stuff() {
    let listing = vec![
        entry("/Data/", b""),
        entry("/Data/Subdir/Pi", b"3.1415 etc."),
        entry("/Data/Subdir/lipsum", b"Lorem ipsum dolor sit amet?"),
        entry("/Data/freq", b"456"),
    ];
    let source = RomSource::new(&listing);
    for (path, data) in listing.iter() {
        if path.is_directory() {
            continue;
        }
        let mut file = source.open(path).unwrap();
        let buf = file.read_all().unwrap();
        assert_eq!(*data, buf);
    }
}

#[test]
fn listing_and_errors() {
    let listing = vec![
        entry("/Data/", b""),
        entry("/Data/Subdir/Pi", b"3.1415 etc."),
        entry("/Data/freq", b"456"),
    ];
    let source = RomSource::new(&listing);

    let ls: Vec<String> = source
        .ls(&Path::from_str("/Data/"))
        .unwrap()
        .iter()
        .map(|p| p.as_str())
        .collect();
    assert_eq!(ls, vec!["Subdir/".to_string(), "freq".to_string()]);

    match source.open(&Path::from_str("/missing")) {
        Err(e) => assert_eq!(e, VfsErrorKind::NotFound),
        Ok(_) => panic!("open of a missing file should fail"),
    }
    match source.open(&Path::from_str("/Data")) {
        Err(e) => assert_eq!(e, VfsErrorKind::IsADirectory),
        Ok(_) => panic!("open of a directory should fail"),
    }
    assert_eq!(
        source.ls(&Path::from_str("/Data/freq/")).unwrap_err(),
        VfsErrorKind::NotADirectory
    );
    assert_eq!(
        source.ls(&Path::from_str("/nothing/")).unwrap_err(),
        VfsErrorKind::NotFound
    );
    assert_eq!(
        source
            .update(&Path::from_str("/Data/freq"), b"789")
            .unwrap_err(),
        VfsErrorKind::ReadOnlyFilesystem
    );
}

#[test]
fn seeking() {
    let listing = vec![entry("/f", b"hello world")];
    let source = RomSource::new(&listing);
    let mut file = source.open(&Path::from_str("/f")).unwrap();
    file.seek_to(6).unwrap();
    assert_eq!(file.read_all().unwrap(), b"world".to_vec());
    assert_eq!(file.read_all().unwrap(), b"".to_vec());
    file.seek_to(0).unwrap();
    assert_eq!(file.read_all().unwrap(), b"hello world".to_vec());
    file.seek_to(999).unwrap();
    assert_eq!(file.read_all().unwrap(), b"".to_vec());
}

#[test]
fn listing_sorted() {
    // children come back sorted by name even when inserted out of order
    let listing = vec![
        entry("/zeta", b"z"),
        entry("/mid/", b""),
        entry("/alpha", b"a"),
        entry("/mid/deep", b"d"),
    ];
    let source = RomSource::new(&listing);
    let ls: Vec<String> = source
        .ls(&Path::from_str("/"))
        .unwrap()
        .iter()
        .map(|p| p.as_str())
        .collect();
    assert_eq!(
        ls,
        vec!["alpha".to_string(), "mid/".to_string(), "zeta".to_string()]
    );
}
