use judim::error::Error;
use judim::file_arg::FileArg;

#[test]
fn image_arguments() {
    match FileArg::parse("3:foo.txt").unwrap() {
        FileArg::Image { owner, name } => {
            assert_eq!(owner, 3);
            assert_eq!(name.as_deref(), Some("foo.txt"));
        },
        _ => panic!("not an image argument"),
    }
    match FileArg::parse(": *.bas ").unwrap() {
        FileArg::Image { owner, name } => {
            assert_eq!(owner, 0);
            assert_eq!(name.as_deref(), Some("*.bas"));
        },
        _ => panic!("not an image argument"),
    }
    let dir = FileArg::parse("015:").unwrap();
    assert!(dir.is_dir(false));
    assert!(!dir.is_local());
    match dir {
        FileArg::Image { owner, name } => {
            assert_eq!(owner, 15);
            assert!(name.is_none());
        },
        _ => panic!("not an image argument"),
    }
    assert_eq!(FileArg::parse("16:a").err(), Some(Error::InvalidOwner));
    assert_eq!(FileArg::parse("300:a").err(), Some(Error::InvalidOwner));
}

#[test]
fn local_arguments() {
    match FileArg::parse(" some/dir ").unwrap() {
        FileArg::Local { path } => assert_eq!(path, "some/dir"),
        _ => panic!("not a local argument"),
    }
    let a = FileArg::parse("1a:x").unwrap();
    assert!(a.is_local());
    assert!(a.is_dir(true));
    assert!(!a.is_dir(false));
    assert!(FileArg::parse("1:a\nb").unwrap().is_local());
}
