//! The two kinds of entries the tree holds: mailboxes (directories) and
//! messages (files), together with the metadata snapshot a mailbox may carry.

use vstd::prelude::*;
use vstd::utf8::encode_utf8;

verus! {

/// The metadata the server reports when a mailbox is opened read-only:
/// flag lists, message counts and the UID bookkeeping values.
pub struct MailboxInfo {
    pub flags: Vec<String>,
    pub permanent_flags: Vec<String>,
    pub exists: u32,
    pub recent: u32,
    pub unseen: Option<u32>,
    pub uid_next: Option<u32>,
    pub uid_validity: Option<u32>,
}

/// A mailbox: its absolute path, the metadata snapshot if opening it
/// succeeded, and the handles of the entries it directly contains.
///
/// `contents` is kept strictly increasing. Children are only ever appended,
/// and always under a handle larger than every handle already allocated, so
/// appending keeps the order; read out in order, it lists the children as a
/// sorted set.
pub struct Mailbox {
    pub abs_path: String,
    pub info: Option<MailboxInfo>,
    pub contents: Vec<u64>,
}

impl Mailbox {
    /// A fresh mailbox at `abs_path`: no metadata, no children.
    pub fn new(abs_path: &str) -> (m: Mailbox)
        ensures
            m.abs_path@ == abs_path@,
            m.info is None,
            m.contents@ == Seq::<u64>::empty(),
    {
        Mailbox { abs_path: abs_path.to_owned(), info: None, contents: Vec::new() }
    }

    /// Appends a child handle. The handle must exceed every child already
    /// present, which keeps `contents` strictly increasing.
    pub fn add_content(&mut self, inode: u64)
        requires
            forall|k: int| 0 <= k < old(self).contents@.len() ==> old(self).contents@[k] < inode,
        ensures
            final(self).contents@ == old(self).contents@.push(inode),
            final(self).abs_path == old(self).abs_path,
            final(self).info == old(self).info,
    {
        self.contents.push(inode);
    }

    /// Records the server's metadata snapshot.
    pub fn set_info(&mut self, info: MailboxInfo)
        ensures
            final(self).info == Some(info),
            final(self).abs_path == old(self).abs_path,
            final(self).contents == old(self).contents,
    {
        self.info = Some(info);
    }

    /// Whether a metadata snapshot was recorded.
    pub fn has_info(&self) -> (r: bool)
        ensures
            r == (self.info is Some),
    {
        self.info.is_some()
    }

    /// The flag list of the snapshot, when one was recorded.
    pub fn flags(&self) -> (r: Option<Vec<String>>)
        ensures
            r is Some <==> self.info is Some,
            r is Some ==> r->0.deep_view() == self.info->0.flags.deep_view(),
    {
        match &self.info {
            Some(i) => {
                let v = i.flags.clone();
                proof {
                    assert(v.deep_view() =~= self.info->0.flags.deep_view());
                }
                Some(v)
            },
            None => None,
        }
    }

    /// The permanent-flag list of the snapshot, when one was recorded.
    pub fn permanent_flags(&self) -> (r: Option<Vec<String>>)
        ensures
            r is Some <==> self.info is Some,
            r is Some ==> r->0.deep_view() == self.info->0.permanent_flags.deep_view(),
    {
        match &self.info {
            Some(i) => {
                let v = i.permanent_flags.clone();
                proof {
                    assert(v.deep_view() =~= self.info->0.permanent_flags.deep_view());
                }
                Some(v)
            },
            None => None,
        }
    }

    /// The server's message count; zero when no snapshot was recorded.
    pub fn exists_count(&self) -> (r: u32)
        ensures
            r == (match self.info {
                Some(i) => i.exists,
                None => 0,
            }),
    {
        match &self.info {
            Some(i) => i.exists,
            None => 0,
        }
    }

    /// The server's recent-message count; zero when no snapshot was
    /// recorded.
    pub fn recent(&self) -> (r: u32)
        ensures
            r == (match self.info {
                Some(i) => i.recent,
                None => 0,
            }),
    {
        match &self.info {
            Some(i) => i.recent,
            None => 0,
        }
    }

    /// The server's unseen-message report, when one was recorded.
    pub fn unseen(&self) -> (r: Option<u32>)
        ensures
            r == (match self.info {
                Some(i) => i.unseen,
                None => None::<u32>,
            }),
    {
        match &self.info {
            Some(i) => i.unseen,
            None => None,
        }
    }

    /// The next UID the server predicts, when one was recorded.
    pub fn uid_next(&self) -> (r: Option<u32>)
        ensures
            r == (match self.info {
                Some(i) => i.uid_next,
                None => None::<u32>,
            }),
    {
        match &self.info {
            Some(i) => i.uid_next,
            None => None,
        }
    }

    /// The server's UID-validity value, when one was recorded.
    pub fn uid_validity(&self) -> (r: Option<u32>)
        ensures
            r == (match self.info {
                Some(i) => i.uid_validity,
                None => None::<u32>,
            }),
    {
        match &self.info {
            Some(i) => i.uid_validity,
            None => None,
        }
    }
}

/// A message: its current absolute path, the decoded text of its fetched
/// body once a read retrieved it, the header digest a read renders from that
/// text, and the header fields the parse discovered.
pub struct Email {
    pub abs_path: String,
    pub contents: Option<String>,
    pub digest: Option<String>,
    pub subject: Option<String>,
    pub from: Option<String>,
    pub date: Option<String>,
}

impl Email {
    /// A fresh message at `abs_path`: nothing fetched, nothing parsed.
    pub fn new(abs_path: &str) -> (e: Email)
        ensures
            e.abs_path@ == abs_path@,
            e.contents is None,
            e.digest is None,
            e.subject is None,
            e.from is None,
            e.date is None,
    {
        Email {
            abs_path: abs_path.to_owned(),
            contents: None,
            digest: None,
            subject: None,
            from: None,
            date: None,
        }
    }

    /// Stores the decoded text of the fetched body.
    pub fn set_contents(&mut self, contents: String)
        ensures
            *final(self) == (Email { contents: Some(contents), ..*old(self) }),
    {
        self.contents = Some(contents);
    }

    /// Stores the discovered subject line.
    pub fn set_subject(&mut self, subject: String)
        ensures
            *final(self) == (Email { subject: Some(subject), ..*old(self) }),
    {
        self.subject = Some(subject);
    }

    /// Stores the discovered sender line.
    pub fn set_from(&mut self, from: String)
        ensures
            *final(self) == (Email { from: Some(from), ..*old(self) }),
    {
        self.from = Some(from);
    }

    /// Stores the discovered date line.
    pub fn set_date(&mut self, date: String)
        ensures
            *final(self) == (Email { date: Some(date), ..*old(self) }),
    {
        self.date = Some(date)
    }

    /// The UTF-8 bytes of the fetched text, empty while nothing was fetched.
    pub fn contents_as_bytes(&self) -> (r: Vec<u8>)
        ensures
            r@ == (match self.contents {
                Some(c) => encode_utf8(c@),
                None => Seq::<u8>::empty(),
            }),
    {
        if let Some(c) = &self.contents {
            c.as_str().as_bytes_vec()
        } else {
            Vec::new()
        }
    }
}

} // verus!
