//! End-to-end exercises of the translation engine: building the tree from
//! mailbox listings, resolving and listing entries, and the lazy read path
//! with the real header and date parsers linked in.

use remailfs::attr::{AttrUpdate, FileKind, TimeSpec, ROOT_HANDLE};
use remailfs::error::Error;
use remailfs::fs::{read_slice, REmailFS, ReadStep};
use remailfs::sort::sort_names;
use remailfs::strutil::{join_path, split_last, str_le, u32_string};
use remailfs::types::{Email, Mailbox, MailboxInfo};

fn now() -> TimeSpec {
    TimeSpec { sec: 1_700_000_000, nsec: 0 }
}

fn new_fs() -> REmailFS {
    REmailFS::new(1000, 1000, now())
}

fn empty_info() -> MailboxInfo {
    MailboxInfo {
        flags: Vec::new(),
        permanent_flags: Vec::new(),
        exists: 0,
        recent: 0,
        unseen: None,
        uid_next: None,
        uid_validity: None,
    }
}

#[test]
fn root_attributes_are_fixed() {
    let fs = new_fs();
    let a = fs.getattr(ROOT_HANDLE).expect("root must have attributes");
    assert_eq!(a.ino, 1);
    assert!(matches!(a.kind, FileKind::Directory));
    assert_eq!(a.size, 4096);
    assert_eq!(a.perm, 0o444);
    assert_eq!(a.uid, 1000);
    assert_eq!(a.gid, 1000);
    assert_eq!(a.atime, now());
    assert_eq!(a.mtime, now());
    assert_eq!(a.ctime, TimeSpec { sec: 0, nsec: 0 });
    assert_eq!(a.crtime, TimeSpec { sec: 0, nsec: 0 });
}

#[test]
fn unknown_handles_and_names_are_not_found() {
    let fs = new_fs();
    assert!(fs.getattr(2).is_none());
    assert!(fs.getattr(999).is_none());
    assert!(fs.lookup(1, "INBOX").is_none());
    assert!(fs.lookup(7, "x").is_none());
    assert!(fs.readdir(2).is_none());
}

#[test]
fn listed_mailboxes_get_deterministic_handles() {
    // list() answered ["INBOX", "INBOX/Sent"], no messages in either.
    let mut fs = new_fs();
    let names = sort_names(&vec!["INBOX".to_string(), "INBOX/Sent".to_string()]);
    assert_eq!(names, vec!["INBOX".to_string(), "INBOX/Sent".to_string()]);
    let no_uids: Vec<u32> = Vec::new();
    let h1 = fs.add_mailbox(&names[0], Some(empty_info()), &no_uids).unwrap();
    let h2 = fs.add_mailbox(&names[1], Some(empty_info()), &no_uids).unwrap();
    assert_eq!(h1, 2);
    assert_eq!(h2, 3);
    assert!(matches!(fs.getattr(2).unwrap().kind, FileKind::Directory));
    assert!(matches!(fs.getattr(3).unwrap().kind, FileKind::Directory));
    let (ino, attr) = fs.lookup(1, "INBOX").unwrap();
    assert_eq!(ino, 2);
    assert_eq!(attr.ino, 2);
    let (ino2, _) = fs.lookup(2, "Sent").unwrap();
    assert_eq!(ino2, 3);
}

#[test]
fn readdir_lists_dot_entries_and_children() {
    let mut fs = new_fs();
    let no_uids: Vec<u32> = Vec::new();
    fs.add_mailbox("INBOX", Some(empty_info()), &no_uids).unwrap();
    fs.add_mailbox("INBOX/Sent", Some(empty_info()), &no_uids).unwrap();
    fs.add_mailbox("Drafts", Some(empty_info()), &no_uids).unwrap();

    let root = fs.readdir(1).unwrap();
    assert_eq!(root.len(), 4);
    assert_eq!(root[0].name, ".");
    assert_eq!(root[1].name, "..");
    assert_eq!(root[2].name, "INBOX");
    assert_eq!(root[2].ino, 2);
    assert_eq!(root[3].name, "Drafts");
    assert_eq!(root[3].ino, 4);

    let inbox = fs.readdir(2).unwrap();
    assert_eq!(inbox.len(), 3);
    assert_eq!(inbox[2].name, "Sent");
    assert_eq!(inbox[2].ino, 3);

    // Every listed name resolves back to the listed handle.
    for entry in root.iter().skip(2) {
        let (ino, _) = fs.lookup(1, &entry.name).unwrap();
        assert_eq!(ino, entry.ino);
    }
}

#[test]
fn messages_take_the_following_handles() {
    let mut fs = new_fs();
    let uids: Vec<u32> = vec![7, 3];
    fs.add_mailbox("INBOX", Some(empty_info()), &uids).unwrap();
    // INBOX takes 2; the messages take 3 and 4 in list order.
    let listing = fs.readdir(2).unwrap();
    assert_eq!(listing.len(), 4);
    assert_eq!(listing[2].name, "7");
    assert_eq!(listing[2].ino, 3);
    assert!(matches!(listing[2].kind, FileKind::RegularFile));
    assert_eq!(listing[3].name, "3");
    assert_eq!(listing[3].ino, 4);
    let (ino, attr) = fs.lookup(2, "7").unwrap();
    assert_eq!(ino, 3);
    assert!(matches!(attr.kind, FileKind::RegularFile));
}

#[test]
fn open_failure_leaves_mailbox_empty_but_navigable() {
    let mut fs = new_fs();
    let uids: Vec<u32> = vec![1, 2, 3];
    // The open failed: no metadata came back, so the UIDs are not used.
    fs.add_mailbox("Broken", None, &uids).unwrap();
    let listing = fs.readdir(2).unwrap();
    assert_eq!(listing.len(), 2);
    assert!(fs.getattr(3).is_none());
}

#[test]
fn duplicate_name_is_rejected() {
    let mut fs = new_fs();
    let no_uids: Vec<u32> = Vec::new();
    fs.add_mailbox("INBOX", Some(empty_info()), &no_uids).unwrap();
    let r = fs.add_mailbox("INBOX", Some(empty_info()), &no_uids);
    assert_eq!(r, Err(Error::DuplicatePath));
}

#[test]
fn missing_parent_is_rejected() {
    let mut fs = new_fs();
    let no_uids: Vec<u32> = Vec::new();
    let r = fs.add_mailbox("Absent/Child", Some(empty_info()), &no_uids);
    assert_eq!(r, Err(Error::MissingParent));
}

#[test]
fn read_parses_date_and_renames_after_subject() {
    let mut fs = new_fs();
    let uids: Vec<u32> = vec![42];
    fs.add_mailbox("INBOX", Some(empty_info()), &uids).unwrap();
    let msg = 3;

    match fs.read_step(msg) {
        ReadStep::Fetch(mailbox, uid) => {
            assert_eq!(mailbox, "INBOX");
            assert_eq!(uid, "42");
        },
        _ => panic!("an unfetched message must ask for a fetch"),
    }

    let body = b"Date: Mon, 15 Apr 2019 17:49:15 -0500 (CDT)\r\n\
Subject: Hello\r\n\
From: someone@example.com\r\n\
X-Other: ignored\r\n\
\r\n\
The body text is not part of the digest.\r\n"
        .to_vec();
    let digest = fs.complete_fetch(msg, Some(body)).unwrap();
    assert_eq!(
        digest,
        "Date: Mon, 15 Apr 2019 17:49:15 -0500 (CDT)\nSubject: Hello\nFrom: someone@example.com\n"
    );

    // The parsed instant lands on all four timestamps.
    let a = fs.getattr(msg).unwrap();
    assert_eq!(a.atime.sec, 1_555_350_555);
    assert_eq!(a.mtime.sec, 1_555_350_555);
    assert_eq!(a.ctime.sec, 1_555_350_555);
    assert_eq!(a.crtime.sec, 1_555_350_555);

    // The old path is gone; the subject path reaches the same handle.
    assert!(fs.lookup(2, "42").is_none());
    let (ino, _) = fs.lookup(2, "Hello").unwrap();
    assert_eq!(ino, msg);
    let listing = fs.readdir(2).unwrap();
    assert_eq!(listing[2].name, "Hello");
    assert_eq!(listing[2].ino, msg);
}

#[test]
fn read_is_idempotent_after_the_first_fetch() {
    let mut fs = new_fs();
    let uids: Vec<u32> = vec![5];
    fs.add_mailbox("INBOX", Some(empty_info()), &uids).unwrap();
    let msg = 3;
    let body = b"Subject: Once\r\n\r\nbody\r\n".to_vec();
    let first = fs.complete_fetch(msg, Some(body)).unwrap();
    let second = match fs.read_step(msg) {
        ReadStep::Ready(d) => d,
        _ => panic!("the second read must not fetch"),
    };
    let third = match fs.read_step(msg) {
        ReadStep::Ready(d) => d,
        _ => panic!("the third read must not fetch"),
    };
    assert_eq!(first, second);
    assert_eq!(second, third);
}

#[test]
fn message_without_date_keeps_timestamps() {
    let mut fs = new_fs();
    let uids: Vec<u32> = vec![9];
    fs.add_mailbox("INBOX", Some(empty_info()), &uids).unwrap();
    let msg = 3;
    let before = fs.getattr(msg).unwrap();
    fs.complete_fetch(msg, Some(b"Subject: NoDate\r\n\r\nx\r\n".to_vec())).unwrap();
    let after = fs.getattr(msg).unwrap();
    assert_eq!(before.atime, after.atime);
    assert_eq!(before.mtime, after.mtime);
    assert_eq!(before.ctime, after.ctime);
    assert_eq!(before.crtime, after.crtime);
}

#[test]
fn unparsable_date_keeps_timestamps() {
    let mut fs = new_fs();
    let uids: Vec<u32> = vec![9];
    fs.add_mailbox("INBOX", Some(empty_info()), &uids).unwrap();
    let msg = 3;
    let before = fs.getattr(msg).unwrap();
    let digest = fs
        .complete_fetch(msg, Some(b"Date: not a real date\r\n\r\nx\r\n".to_vec()))
        .unwrap();
    assert_eq!(digest, "Date: not a real date\n");
    let after = fs.getattr(msg).unwrap();
    assert_eq!(before.mtime, after.mtime);
}

#[test]
fn invalid_encoding_reads_as_empty_digest() {
    let mut fs = new_fs();
    let uids: Vec<u32> = vec![1];
    fs.add_mailbox("INBOX", Some(empty_info()), &uids).unwrap();
    let msg = 3;
    let digest = fs.complete_fetch(msg, Some(vec![0xff, 0xfe, 0x00, 0x80])).unwrap();
    assert_eq!(digest, "");
    match fs.read_step(msg) {
        ReadStep::Ready(d) => assert_eq!(d, ""),
        _ => panic!("the read must be cached even for undecodable bytes"),
    }
}

#[test]
fn empty_body_reads_as_empty_digest() {
    let mut fs = new_fs();
    let uids: Vec<u32> = vec![1];
    fs.add_mailbox("INBOX", Some(empty_info()), &uids).unwrap();
    let digest = fs.complete_fetch(3, None).unwrap();
    assert_eq!(digest, "");
}

#[test]
fn complete_fetch_of_non_message_is_not_found() {
    let mut fs = new_fs();
    let no_uids: Vec<u32> = Vec::new();
    fs.add_mailbox("INBOX", Some(empty_info()), &no_uids).unwrap();
    assert!(fs.complete_fetch(1, Some(b"Subject: x\r\n\r\n".to_vec())).is_none());
    assert!(fs.complete_fetch(2, Some(b"Subject: x\r\n\r\n".to_vec())).is_none());
    assert!(fs.complete_fetch(99, None).is_none());
}

#[test]
fn setattr_changes_only_the_allowed_fields() {
    let mut fs = new_fs();
    let no_uids: Vec<u32> = Vec::new();
    fs.add_mailbox("INBOX", Some(empty_info()), &no_uids).unwrap();
    let update = AttrUpdate {
        uid: Some(7),
        gid: None,
        size: Some(123),
        atime: None,
        mtime: Some(TimeSpec { sec: 9, nsec: 1 }),
        ctime: None,
        crtime: None,
        flags: Some(4),
    };
    let a = fs.setattr(2, update).unwrap();
    assert_eq!(a.uid, 7);
    assert_eq!(a.gid, 1000);
    assert_eq!(a.size, 123);
    assert_eq!(a.mtime, TimeSpec { sec: 9, nsec: 1 });
    assert_eq!(a.flags, 4);
    assert!(matches!(a.kind, FileKind::Directory));
    assert!(fs.setattr(55, update).is_none());
}

#[test]
fn sort_names_sorts_lexicographically() {
    let names = vec![
        "Work".to_string(),
        "INBOX/Sent".to_string(),
        "INBOX".to_string(),
        "Archive".to_string(),
    ];
    let sorted = sort_names(&names);
    assert_eq!(
        sorted,
        vec![
            "Archive".to_string(),
            "INBOX".to_string(),
            "INBOX/Sent".to_string(),
            "Work".to_string(),
        ]
    );
}

#[test]
fn str_le_is_lexicographic() {
    assert!(str_le("a", "b"));
    assert!(!str_le("b", "a"));
    assert!(str_le("INBOX", "INBOX"));
    assert!(str_le("INBOX", "INBOX/Sent"));
    assert!(str_le("", "anything"));
}

#[test]
fn uid_strings_render_in_decimal() {
    assert_eq!(u32_string(0), "0");
    assert_eq!(u32_string(7), "7");
    assert_eq!(u32_string(42), "42");
    assert_eq!(u32_string(4294967295), "4294967295");
}

#[test]
fn paths_split_at_the_last_separator() {
    let (parent, leaf) = split_last("INBOX/Sent/12");
    assert_eq!(parent.as_deref(), Some("INBOX/Sent"));
    assert_eq!(leaf, "12");
    let (parent2, leaf2) = split_last("INBOX");
    assert!(parent2.is_none());
    assert_eq!(leaf2, "INBOX");
    assert_eq!(join_path("INBOX", "42"), "INBOX/42");
}

#[test]
fn read_replies_are_sliced_by_offset_and_size() {
    assert_eq!(read_slice("abcdef", 0, 6), b"abcdef".to_vec());
    assert_eq!(read_slice("abcdef", 2, 3), b"cde".to_vec());
    assert_eq!(read_slice("abcdef", 4, 100), b"ef".to_vec());
    assert_eq!(read_slice("abcdef", 6, 1), Vec::<u8>::new());
    assert_eq!(read_slice("abcdef", 100, 1), Vec::<u8>::new());
    assert_eq!(read_slice("", 0, 8), Vec::<u8>::new());
}

#[test]
fn fresh_messages_start_with_zero_timestamps() {
    let mut fs = new_fs();
    let uids: Vec<u32> = vec![8];
    fs.add_mailbox("INBOX", Some(empty_info()), &uids).unwrap();
    let a = fs.getattr(3).unwrap();
    assert_eq!(a.atime, TimeSpec { sec: 0, nsec: 0 });
    assert_eq!(a.mtime, TimeSpec { sec: 0, nsec: 0 });
    assert_eq!(a.ctime, TimeSpec { sec: 0, nsec: 0 });
    assert_eq!(a.crtime, TimeSpec { sec: 0, nsec: 0 });
    assert!(matches!(a.kind, FileKind::RegularFile));
    assert_eq!(a.size, 4096);
}

#[test]
fn mailbox_metadata_getters_reflect_the_snapshot() {
    let mut m = Mailbox::new("INBOX");
    assert!(!m.has_info());
    assert_eq!(m.exists_count(), 0);
    assert_eq!(m.recent(), 0);
    assert!(m.unseen().is_none());
    m.set_info(MailboxInfo {
        flags: vec!["Seen".to_string()],
        permanent_flags: Vec::new(),
        exists: 12,
        recent: 2,
        unseen: Some(5),
        uid_next: Some(100),
        uid_validity: Some(77),
    });
    assert!(m.has_info());
    assert_eq!(m.exists_count(), 12);
    assert_eq!(m.recent(), 2);
    assert_eq!(m.unseen(), Some(5));
    assert_eq!(m.uid_next(), Some(100));
    assert_eq!(m.uid_validity(), Some(77));
    assert_eq!(m.flags(), Some(vec!["Seen".to_string()]));
    assert_eq!(m.permanent_flags(), Some(Vec::new()));
}

#[test]
fn email_fields_hold_what_was_set() {
    let mut e = Email::new("INBOX/1");
    assert!(e.contents_as_bytes().is_empty());
    e.set_contents("hello".to_string());
    e.set_subject("s".to_string());
    e.set_from("f".to_string());
    e.set_date("d".to_string());
    assert_eq!(e.contents_as_bytes(), b"hello".to_vec());
}
