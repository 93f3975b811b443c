//! Per-handle attribute records: kind, size, ownership, permissions and the
//! four timestamps the kernel interface reports for a directory or a file.

use vstd::prelude::*;

verus! {

/// The handle of the root directory. It is reserved before any other handle
/// is given out, and every later handle is strictly greater.
pub const ROOT_HANDLE: u64 = 1;

/// The handle the first mailbox receives; allocation counts up from here.
pub const FIRST_ALLOCATED_HANDLE: u64 = 2;

/// A point in time: seconds and nanoseconds since the Unix epoch.
#[derive(Clone, Copy, PartialEq, Eq, Structural, Debug)]
pub struct TimeSpec {
    pub sec: i64,
    pub nsec: i32,
}

impl TimeSpec {
    /// The zero instant, used for the change and creation times of freshly
    /// created entries.
    pub fn zero() -> (t: TimeSpec)
        ensures
            t == (TimeSpec { sec: 0, nsec: 0 }),
    {
        TimeSpec { sec: 0, nsec: 0 }
    }
}

/// Whether a handle names a directory (a mailbox) or a regular file
/// (a message).
#[derive(Clone, Copy, PartialEq, Eq, Structural, Debug)]
pub enum FileKind {
    Directory,
    RegularFile,
}

/// The attribute record kept for every allocated handle.
#[derive(Clone, Copy, PartialEq, Eq, Structural, Debug)]
pub struct FileAttr {
    pub ino: u64,
    pub size: u64,
    pub blocks: u64,
    pub atime: TimeSpec,
    pub mtime: TimeSpec,
    pub ctime: TimeSpec,
    pub crtime: TimeSpec,
    pub kind: FileKind,
    pub perm: u16,
    pub nlink: u32,
    pub uid: u32,
    pub gid: u32,
    pub rdev: u32,
    pub flags: u32,
}

/// The attribute record every directory entry starts with: a fixed small
/// size, read-only permissions, access and modification times taken from the
/// mount instant, zero change and creation times.
pub open spec fn spec_directory_attr(ino: u64, uid: u32, gid: u32, now: TimeSpec) -> FileAttr {
    FileAttr {
        ino,
        size: 4096,
        blocks: 1,
        atime: now,
        mtime: now,
        ctime: TimeSpec { sec: 0, nsec: 0 },
        crtime: TimeSpec { sec: 0, nsec: 0 },
        kind: FileKind::Directory,
        perm: 0o444,
        nlink: 1,
        uid,
        gid,
        rdev: 0,
        flags: 0,
    }
}

/// The attribute record every message starts with: the placeholder size,
/// file kind, and all four timestamps zero until the first read of the
/// message discovers a date.
pub open spec fn spec_file_attr(ino: u64, uid: u32, gid: u32, now: TimeSpec) -> FileAttr {
    FileAttr {
        kind: FileKind::RegularFile,
        atime: TimeSpec { sec: 0, nsec: 0 },
        mtime: TimeSpec { sec: 0, nsec: 0 },
        ..spec_directory_attr(ino, uid, gid, now)
    }
}

/// Builds the fixed attribute record of a fresh directory.
pub fn directory_attr(ino: u64, uid: u32, gid: u32, now: TimeSpec) -> (a: FileAttr)
    ensures
        a == spec_directory_attr(ino, uid, gid, now),
{
    FileAttr {
        ino,
        size: 4096,
        blocks: 1,
        atime: now,
        mtime: now,
        ctime: TimeSpec::zero(),
        crtime: TimeSpec::zero(),
        kind: FileKind::Directory,
        perm: 0o444,
        nlink: 1,
        uid,
        gid,
        rdev: 0,
        flags: 0,
    }
}

/// Builds the placeholder attribute record of a fresh message.
pub fn file_attr(ino: u64, uid: u32, gid: u32, now: TimeSpec) -> (a: FileAttr)
    ensures
        a == spec_file_attr(ino, uid, gid, now),
{
    let mut a = directory_attr(ino, uid, gid, now);
    a.kind = FileKind::RegularFile;
    a.atime = TimeSpec::zero();
    a.mtime = TimeSpec::zero();
    a
}

/// The fields an attribute-setting call may change: ownership, size, the
/// four timestamps and the flag word. A field left `None` stays as it is;
/// the handle, kind, permissions and link count are never changed this way.
#[derive(Clone, Copy, PartialEq, Eq, Structural, Debug)]
pub struct AttrUpdate {
    pub uid: Option<u32>,
    pub gid: Option<u32>,
    pub size: Option<u64>,
    pub atime: Option<TimeSpec>,
    pub mtime: Option<TimeSpec>,
    pub ctime: Option<TimeSpec>,
    pub crtime: Option<TimeSpec>,
    pub flags: Option<u32>,
}

impl AttrUpdate {
    /// An update that changes nothing.
    pub fn none() -> (u: AttrUpdate)
        ensures
            u == (AttrUpdate {
                uid: None,
                gid: None,
                size: None,
                atime: None,
                mtime: None,
                ctime: None,
                crtime: None,
                flags: None,
            }),
    {
        AttrUpdate {
            uid: None,
            gid: None,
            size: None,
            atime: None,
            mtime: None,
            ctime: None,
            crtime: None,
            flags: None,
        }
    }
}

/// The record `a` with the set fields of `u` written over it.
pub open spec fn spec_apply_update(a: FileAttr, u: AttrUpdate) -> FileAttr {
    FileAttr {
        uid: match u.uid {
            Some(x) => x,
            None => a.uid,
        },
        gid: match u.gid {
            Some(x) => x,
            None => a.gid,
        },
        size: match u.size {
            Some(x) => x,
            None => a.size,
        },
        atime: match u.atime {
            Some(x) => x,
            None => a.atime,
        },
        mtime: match u.mtime {
            Some(x) => x,
            None => a.mtime,
        },
        ctime: match u.ctime {
            Some(x) => x,
            None => a.ctime,
        },
        crtime: match u.crtime {
            Some(x) => x,
            None => a.crtime,
        },
        flags: match u.flags {
            Some(x) => x,
            None => a.flags,
        },
        ..a
    }
}

/// Applies `u` to `a`.
pub fn apply_update(a: FileAttr, u: AttrUpdate) -> (r: FileAttr)
    ensures
        r == spec_apply_update(a, u),
{
    let mut r = a;
    if let Some(x) = u.uid {
        r.uid = x;
    }
    if let Some(x) = u.gid {
        r.gid = x;
    }
    if let Some(x) = u.size {
        r.size = x;
    }
    if let Some(x) = u.atime {
        r.atime = x;
    }
    if let Some(x) = u.mtime {
        r.mtime = x;
    }
    if let Some(x) = u.ctime {
        r.ctime = x;
    }
    if let Some(x) = u.crtime {
        r.crtime = x;
    }
    if let Some(x) = u.flags {
        r.flags = x;
    }
    r
}

/// The root directory's attributes: handle 1, directory kind, and the fixed
/// fields of every directory. Nothing the server reports enters this record.
pub open spec fn spec_root_attr(uid: u32, gid: u32, now: TimeSpec) -> FileAttr {
    spec_directory_attr(ROOT_HANDLE, uid, gid, now)
}

/// Builds the root directory's attribute record.
pub fn root_attr(uid: u32, gid: u32, now: TimeSpec) -> (a: FileAttr)
    ensures
        a == spec_root_attr(uid, gid, now),
        a.ino == ROOT_HANDLE,
        a.kind == FileKind::Directory,
{
    directory_attr(ROOT_HANDLE, uid, gid, now)
}

} // verus!
