use psilo_vfs::Path;
use psilo_vfs::PathBuf;
use psilo_vfs::PathFromStrError;
use psilo_vfs::PathJoinError;

#[test]
fn components() {
    let collect = |p: &Path| -> Vec<String> {
        let mut out = Vec::new();
        let mut it = p.components();
        loop {
            match it.next() {
                Some(c) => out.push(c.as_str()),
                None => break,
            }
        }
        out
    };
    assert_eq!(
        collect(&Path::from_str_preverified("foo/bar/baz")),
        vec!["foo".to_string(), "bar".to_string(), "baz".to_string()]
    );
    assert_eq!(
        collect(&Path::from_str_preverified("/sora/donald/goofy")),
        vec!["sora".to_string(), "donald".to_string(), "goofy".to_string()]
    );
    assert_eq!(
        collect(&Path::from_str_preverified("x/zero/")),
        vec!["x".to_string(), "zero".to_string()]
    );
    // this is an invalid path but this is what should happen with it
    assert_eq!(
        collect(&Path::from_str_preverified("sword/go//")),
        vec!["sword".to_string(), "go".to_string(), "".to_string()]
    );
}

#[test]
fn components_backwards() {
    let p = Path::from_str_preverified("/sora/donald/goofy");
    let mut it = p.components();
    assert_eq!(it.next_back().unwrap().as_str(), "goofy");
    assert_eq!(it.next().unwrap().as_str(), "sora");
    assert_eq!(it.next_back().unwrap().as_str(), "donald");
    assert!(it.next().is_none());
    assert!(it.next_back().is_none());
}

#[test]
fn normalize_good() {
    const PAIRS_TO_CHECK: &[(&str, &str)] = &[
        ("foo/./bar", "foo/bar"),
        ("foo/../bar", "bar"),
        ("/foo/./bar", "/foo/bar"),
        ("/foo/../bar", "/bar"),
        ("foo/../../bar", "../bar"),
        ("tesuto/COM0", "tesuto/COM0"),
    ];
    for (big, small) in PAIRS_TO_CHECK.iter() {
        assert_eq!(&Path::from_str(big).as_str(), *small);
    }
}

#[test]
fn normalize_bad() {
    const PAIRS_TO_CHECK: &[(&str, PathFromStrError)] = &[
        ("/foo/../../bar", PathFromStrError::EscapedRoot),
        ("asdf/NUL", PathFromStrError::ReservedName),
        ("asdf/COM4", PathFromStrError::ReservedName),
        ("asdf/COM5.test", PathFromStrError::ReservedName),
        ("asdf/jkl/Lpt6.printer", PathFromStrError::ReservedName),
    ];
    for (big, small) in PAIRS_TO_CHECK.iter() {
        match Path::try_from_str(big) {
            Ok(_) => panic!("try_from_str on {:?} should fail", big),
            Err(x) => {
                if x != *small {
                    panic!(
                        "try_from_str on {:?} should fail with {:?}, \
			got {:?} instead",
                        big, small, x
                    );
                }
            }
        }
    }
}

#[test]
fn normalize_more_errors() {
    assert_eq!(
        Path::try_from_str("//").unwrap_err(),
        PathFromStrError::DoubleSlash
    );
    assert_eq!(
        Path::try_from_str("a//b").unwrap_err(),
        PathFromStrError::DoubleSlash
    );
    assert_eq!(
        Path::try_from_str(".hidden").unwrap_err(),
        PathFromStrError::InvalidStartChar
    );
    assert_eq!(
        Path::try_from_str("name~").unwrap_err(),
        PathFromStrError::InvalidEndChar
    );
    assert_eq!(
        Path::try_from_str("with space ").unwrap_err(),
        PathFromStrError::InvalidEndChar
    );
    assert_eq!(
        Path::try_from_str("a:b").unwrap_err(),
        PathFromStrError::InvalidChar
    );
    assert_eq!(
        Path::try_from_str("a\\b").unwrap_err(),
        PathFromStrError::InvalidChar
    );
    assert_eq!(
        Path::try_from_str("..").unwrap_err(),
        PathFromStrError::DotDotFile
    );
    assert_eq!(
        Path::try_from_str("a/..").unwrap_err(),
        PathFromStrError::DotDotFile
    );
    assert_eq!(
        Path::try_from_str("../.").unwrap_err(),
        PathFromStrError::DotDotFile
    );
}

#[test]
fn normalize_trivial() {
    assert_eq!(Path::from_str("").as_str(), "");
    assert_eq!(Path::from_str("/").as_str(), "/");
    assert_eq!(Path::from_str("../").as_str(), "../");
    assert_eq!(Path::from_str("a/b/").as_str(), "a/b/");
}

#[test]
fn normalize_idempotent() {
    for s in ["foo/./bar", "foo/../../bar", "/a/b/c/", "resum\u{00e9}", "x/y/z"] {
        let once = Path::from_str(s).as_str();
        let twice = Path::from_str(&once).as_str();
        assert_eq!(once, twice);
    }
}

#[test]
fn joins_good() {
    const JOINS_TO_CHECK: &[(&str, &str, &str)] = &[
        ("foo/", "bar", "foo/bar"),
        ("/george/michael/", "../maharris", "/george/maharris"),
        ("", "foo/bar", "foo/bar"),
        ("", "../../tesla", "../../tesla"),
        ("/seven/good/beers", "../../dwarves", "/seven/dwarves"),
        ("lorem/ipsum/dolor/sit", "../../../../../rock", "../rock"),
        ("mune/ni/kokoro", "../rocks", "mune/ni/rocks"),
    ];
    for (a, b, r) in JOINS_TO_CHECK.iter() {
        let mut a = PathBuf::from_str(a);
        let b = Path::from_str(b);
        a.join(&b);
        assert_eq!(&a.as_str(), *r);
    }
}

#[test]
fn joins_bad() {
    const JOINS_TO_CHECK: &[(&str, &str, PathJoinError)] = &[
        ("/test/toast", "natto", PathJoinError::BasePathNotDir),
        ("/supreme", "../../ilpallazzo", PathJoinError::EscapedRoot),
        ("/dinner", "/breakfast", PathJoinError::PathNotRelative),
    ];
    for (a, b, e) in JOINS_TO_CHECK.iter() {
        let mut buf = PathBuf::from_str(a);
        let moar = Path::from_str(b);
        match buf.try_join(&moar) {
            Ok(_) => panic!(
                "Joining {:?} and {:?} is supposed to fail, ends up with {:?} instead",
                a,
                b,
                buf.as_str()
            ),
            Err(x) => {
                if x != *e {
                    panic!(
                        "Joining {:?} and {:?} is supposed to fail with {:?}, gets {:?} instead",
                        a, b, e, x
                    );
                }
            }
        }
    }
}

#[test]
fn copies_vs_keeps() {
    // Inputs already in canonical form need no fresh buffer; the others
    // only yield their canonical form by rebuilding.
    const PATHS_TO_CHECK: &[(&str, bool)] = &[
        ("/asdf", true),
        ("/asdf/truth", true),
        ("/asdf/../foxes", false),
        ("resume\u{0301}", true),
        ("resum\u{00e9}", false),
        ("../foxes", true),
    ];
    for (src, kept) in PATHS_TO_CHECK.iter() {
        if Path::is_canonical(src) != *kept {
            if *kept {
                panic!("{:?} is supposed to be borrowed but is copied.", src);
            } else {
                panic!("{:?} is supposed to be copied but is borrowed.", src);
            }
        }
    }
}

#[test]
fn join_results_valid() {
    // A successful join yields a path that validation accepts unchanged.
    const JOINS_TO_CHECK: &[(&str, &str)] = &[
        ("foo/", "bar"),
        ("/george/michael/", "../maharris"),
        ("", "../../tesla"),
        ("mune/ni/kokoro", "../rocks"),
    ];
    for (a, b) in JOINS_TO_CHECK.iter() {
        let mut buf = PathBuf::from_str(a);
        buf.join(&Path::from_str(b));
        let text = buf.as_str();
        assert_eq!(Path::try_from_str(&text).unwrap().as_str(), text);
    }
}

#[test]
fn accent() {
    assert_eq!(
        Path::from_str("resume\u{0301}"),
        Path::from_str("resum\u{00e9}")
    );
    // both canonicalize to the six-codepoint decomposed form
    assert_eq!(Path::from_str("resum\u{00e9}").as_str(), "resume\u{0301}");
}

#[test]
fn predicates() {
    assert!(Path::from_str("/a").is_absolute());
    assert!(!Path::from_str("/a").is_relative());
    assert!(Path::from_str("a").is_relative());
    assert!(!Path::from_str("a").is_absolute());
    assert!(Path::from_str("").is_relative());
    assert!(Path::from_str("").is_directory());
    assert!(Path::from_str("/").is_absolute());
    assert!(Path::from_str("/").is_directory());
    assert!(Path::from_str("a/").is_directory());
    assert!(!Path::from_str("a").is_directory());
}

#[test]
fn parents() {
    assert_eq!(Path::from_str("/a/b").parent().as_str(), "/a/");
    assert_eq!(Path::from_str("/a/b/").parent().as_str(), "/a/");
    assert_eq!(Path::from_str("/a").parent().as_str(), "/");
    assert_eq!(Path::from_str("a").parent().as_str(), "");
    assert_eq!(Path::from_str("/").parent().as_str(), "/");
    assert_eq!(Path::from_str("").parent().as_str(), "");
}

#[test]
fn extensions() {
    assert_eq!(
        Path::from_str("a/b.tar.gz").extension(),
        Some("gz".to_string())
    );
    assert_eq!(Path::from_str("a/plain").extension(), Some("plain".to_string()));
    assert_eq!(Path::from_str("").extension(), None);
    assert_eq!(Path::from_str("/").extension(), None);
}

#[test]
fn prefixes() {
    let p = Path::from_str("/foo/bar");
    assert_eq!(
        p.with_prefix_absolute(&Path::from_str("/foo/"))
            .unwrap()
            .as_str(),
        "/bar"
    );
    assert_eq!(
        p.with_prefix_absolute(&Path::from_str("/")).unwrap().as_str(),
        "/foo/bar"
    );
    assert!(p.with_prefix_absolute(&Path::from_str("/foo/bar/")).is_none());
    assert!(p.with_prefix_absolute(&Path::from_str("/fo/")).is_none());
    assert!(p.with_prefix_absolute(&Path::from_str("/foo")).is_none());
}

#[test]
fn buf_editing() {
    let mut b = PathBuf::from_str("/a/b/c");
    assert!(b.up_one_level());
    assert_eq!(b.as_str(), "/a/b/");
    assert!(b.up_one_level());
    assert_eq!(b.as_str(), "/a/");
    let mut root = PathBuf::from_str("/");
    assert!(!root.up_one_level());
    assert_eq!(root.as_str(), "/");
    let mut empty = PathBuf::new();
    assert!(!empty.up_one_level());
    assert_eq!(empty.as_str(), "");

    let mut f = PathBuf::from_str("foo");
    f.make_file_into_dir();
    assert_eq!(f.as_str(), "foo/");

    let mut j = PathBuf::from_str("/a/");
    j.join_or_replace(&Path::from_str("/z"));
    assert_eq!(j.as_str(), "/z");
    let mut j2 = PathBuf::from_str("/a/");
    j2.join_or_replace(&Path::from_str("b"));
    assert_eq!(j2.as_str(), "/a/b");

    let mut c = PathBuf::with_capacity(16);
    c.reserve(8);
    c.reserve_exact(4);
    c.shrink_to_fit();
    assert_eq!(c.as_str(), "");
}

#[test]
fn error_messages() {
    assert_eq!(PathFromStrError::DoubleSlash.message(), "double slash in path");
    assert_eq!(
        PathFromStrError::ReservedName.message(),
        "reserved name in path"
    );
    assert_eq!(
        PathJoinError::BasePathNotDir.message(),
        "called join on a path that was not a dir"
    );
}
