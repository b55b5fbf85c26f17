use robrowser_remoteclient::paths::{find_extension, find_file_name};

fn name(p: &[u8]) -> Option<&[u8]> {
    find_file_name(p).map(|(s, e)| &p[s..e])
}

fn ext(p: &[u8]) -> Option<&[u8]> {
    find_extension(p).map(|(s, e)| &p[s..e])
}

#[test]
fn file_names_skip_empty_and_current_segments() {
    assert_eq!(name(b"data/foo.txt"), Some(&b"foo.txt"[..]));
    assert_eq!(name(b"data/foo.txt//"), Some(&b"foo.txt"[..]));
    assert_eq!(name(b"data/foo.txt/./"), Some(&b"foo.txt"[..]));
    assert_eq!(name(b"data/.."), None);
    assert_eq!(name(b"/"), None);
    assert_eq!(name(b"."), None);
    assert_eq!(name(b""), None);
    assert_eq!(name(b"..."), Some(&b"..."[..]));
}

#[test]
fn extensions_follow_the_last_dot() {
    assert_eq!(ext(b"a/b.tar.gz"), Some(&b"gz"[..]));
    assert_eq!(ext(b"a/.hidden"), None);
    assert_eq!(ext(b"a/..x"), Some(&b"x"[..]));
    assert_eq!(ext(b"a/noext"), None);
    assert_eq!(ext(b"a/trailing."), Some(&b""[..]));
    assert_eq!(ext(b"a.d/file"), None);
}
