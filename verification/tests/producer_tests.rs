use servefs::producer::{get_ext, producer_plan, Producer, EXEC_POLL_MS, EXEC_TIMEOUT_MS};
use servefs::vfs::FileType;

#[test]
fn plans_follow_the_kind() {
    match producer_plan("hello\n", FileType::Text) {
        Producer::Inline(b) => assert_eq!(b, b"hello\n".to_vec()),
        _ => panic!("text is inline"),
    }
    match producer_plan("/srv/img.png", FileType::File) {
        Producer::HostFile(p) => assert_eq!(p, "/srv/img.png"),
        _ => panic!("a host-backed file is read from its path"),
    }
    match producer_plan("echo hello", FileType::Exec) {
        Producer::Command(c) => assert_eq!(c, "echo hello"),
        _ => panic!("an exec producer runs its command line"),
    }
}

#[test]
fn exec_budget_is_one_second() {
    assert_eq!(EXEC_TIMEOUT_MS, 1000);
    assert_eq!(EXEC_POLL_MS, 100);
}

#[test]
fn extensions_come_from_the_basename() {
    assert_eq!(get_ext("img.png"), "png");
    assert_eq!(get_ext("script.sh"), "sh");
    assert_eq!(get_ext("archive.tar.gz"), "gz");
    assert_eq!(get_ext("file"), "");
    assert_eq!(get_ext(".hidden"), "");
    assert_eq!(get_ext("cmd"), "");
    assert_eq!(get_ext("a."), "");
    assert_eq!(get_ext("/a/b.c/name.txt"), "txt");
    assert_eq!(get_ext("/a/b.c/name"), "");
    assert_eq!(get_ext(""), "");
}
