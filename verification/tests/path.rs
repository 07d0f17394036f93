use bashman::err::BashManError;
use bashman::pack::{gzip, packed};
use bashman::path::relative_path;

fn shown(dir: Option<&str>, full: &str) -> String {
    String::from_utf8(relative_path(dir.map(str::as_bytes), full.as_bytes())).expect("Not UTF-8.")
}

#[test]
fn paths_below_the_directory() {
    assert_eq!(shown(Some("/home/user/proj"), "/home/user/proj/CREDITS.md"), "./CREDITS.md");
    assert_eq!(shown(Some("/home/user/proj/"), "/home/user/proj/man/app.1"), "./man/app.1");
    assert_eq!(shown(Some("/a"), "/a/b"), "./b");
    assert_eq!(shown(Some("/a"), "/a/"), "./");

    // Nothing is saved.
    assert_eq!(shown(Some("/"), "/a"), "/a");
    assert_eq!(shown(Some("/"), "/ab"), "/ab");
    assert_eq!(shown(Some("/"), "/abc"), "/abc");
    assert_eq!(shown(Some("a"), "a/b"), "a/b");
}

#[test]
fn paths_beside_the_directory() {
    assert_eq!(shown(Some("/home/user/proj"), "/home/user/other/x.md"), "../other/x.md");
    assert_eq!(shown(Some("/home/user/proj/deep"), "/home/user/other/x.md"), "../../other/x.md");
    assert_eq!(shown(Some("/home/user/proj"), "/home/user/project/x.md"), "../project/x.md");
    assert_eq!(shown(Some("/home/user/proj"), "/home/user/proj.md"), "../proj.md");

    // Too far up, or nothing saved.
    assert_eq!(shown(Some("/a/b/c/d/e/f"), "/x/y"), "/x/y");
    assert_eq!(shown(Some("/a-long-directory-name/b/c/d/e"), "/a-long-directory-name/x"), "../../../../x");
    assert_eq!(shown(Some("/a-long-directory-name/b/c/d/e/f"), "/a-long-directory-name/x"), "/a-long-directory-name/x");
    assert_eq!(shown(Some("/a/b/c/d/e"), "/a/x.txt"), "/a/x.txt");
    assert_eq!(shown(Some("/a/b"), "/c"), "/c");
    assert_eq!(shown(Some("relative/dir"), "/abs/file"), "/abs/file");
}

#[test]
fn paths_with_no_directory() {
    assert_eq!(shown(None, "/home/user/proj/CREDITS.md"), "/home/user/proj/CREDITS.md");
    assert_eq!(shown(None, ""), "");
    assert_eq!(shown(Some(""), "/a/b/c"), "/a/b/c");
    assert_eq!(shown(Some("/a"), ""), "");
    assert_eq!(shown(Some("/tmp/ä"), "/tmp/ä/ö.md"), "./ö.md");
}

#[test]
fn pages_are_compressed() {
    let page = b".TH \"APP\" \"1\" \"May 2025\" \"app v1.2.3\" \"User Commands\"\n.SH NAME\napp app app app app app app app\n";
    let out = gzip(page).expect("No data.");
    assert_eq!(&out[..2], [0x1f, 0x8b]);
    assert_ne!(out.as_slice(), page.as_slice());

    let mut back = vec![0_u8; page.len()];
    let n = libdeflater::Decompressor::new().gzip_decompress(&out, &mut back).expect("Not gzip data.");
    assert_eq!(n, page.len());
    assert_eq!(back.as_slice(), page.as_slice());

    // Nothing at all can be compressed too.
    let out = gzip(b"").expect("No data.");
    assert_eq!(&out[..2], [0x1f, 0x8b]);
}

#[test]
fn what_is_kept_of_a_buffer() {
    assert_eq!(packed(vec![1, 2, 3, 0, 0], Some(3)), Ok(vec![1, 2, 3]));
    assert_eq!(packed(vec![1, 2, 3], Some(3)), Ok(vec![1, 2, 3]));
    assert_eq!(packed(vec![1, 2, 3], Some(0)), Ok(Vec::new()));
    assert_eq!(packed(vec![1, 2, 3], Some(7)), Ok(vec![1, 2, 3]));
    assert_eq!(packed(vec![1, 2, 3], None), Err(BashManError::Man));
}
