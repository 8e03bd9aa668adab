use fs_jcb::vfs::{find_byte, FileType, FsError, Timespec};

#[test]
fn find_byte_first_slash() {
    assert_eq!(find_byte(b"usr/bin/ls", b'/'), 3);
    assert_eq!(find_byte(b"/root", b'/'), 0);
    assert_eq!(find_byte(b"name", b'/'), 4);
    assert_eq!(find_byte(b"", b'/'), 0);
}

#[test]
fn plain_values() {
    let t = Timespec { sec: 3, nsec: 4 };
    assert!(t < Timespec { sec: 3, nsec: 5 });
    assert_ne!(FileType::Dir, FileType::File);
    assert_ne!(FsError::NotDir, FsError::NotFile);
}
