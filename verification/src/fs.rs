//! The translation engine itself: the tree of mailboxes and messages over
//! the inode table, built once from the server's mailbox listing, and the
//! dispatch of filesystem calls onto it.
//!
//! Network work stays outside. The caller hands in what the server answered
//! — the mailbox names, one opened mailbox's metadata and message UIDs at a
//! time, one fetched message body at a time — and every decision about
//! paths, handles, children and caches is made and verified here.

use vstd::prelude::*;
use crate::attr::{FileAttr, FileKind, TimeSpec, ROOT_HANDLE, FIRST_ALLOCATED_HANDLE};
use crate::attr::{directory_attr, file_attr, spec_directory_attr, spec_file_attr, spec_root_attr};
use crate::attr::{apply_update, spec_apply_update, AttrUpdate};
use crate::error::Error;
use crate::inode::InodeTable;
use crate::strutil::{dec_str, last_slash, leaf_of, root_path};
use crate::types::{Email, Mailbox, MailboxInfo};
use crate::headers::{digest_of, header_line, last_date_instant, last_value_of, special_key};
use crate::headers::{date_key, from_key, subject_key};
use crate::headers::{date_literal, from_literal, subject_literal};
use crate::headers::{decode_text, lemma_digest_push, parse_headers, parse_mail_date};
use crate::headers::parsed_headers;
use vstd::string::StringSliceAdditionalSpecFns;
use vstd::utf8::{decode_utf8, encode_utf8, valid_utf8};

verus! {

/// A mailbox and the handle it lives under.
pub struct MailboxSlot {
    pub handle: u64,
    pub mailbox: Mailbox,
}

/// A message and the handle it lives under.
pub struct EmailSlot {
    pub handle: u64,
    pub email: Email,
}

/// The mailbox some slot holds under handle `h`, if any slot does.
pub open spec fn slot_mailbox(s: Seq<MailboxSlot>, h: u64) -> Option<Mailbox> {
    if exists|i: int| 0 <= i < s.len() && s[i].handle == h {
        let i = choose|i: int| 0 <= i < s.len() && s[i].handle == h;
        Some(s[i].mailbox)
    } else {
        None
    }
}

/// The message some slot holds under handle `h`, if any slot does.
pub open spec fn slot_email(s: Seq<EmailSlot>, h: u64) -> Option<Email> {
    if exists|i: int| 0 <= i < s.len() && s[i].handle == h {
        let i = choose|i: int| 0 <= i < s.len() && s[i].handle == h;
        Some(s[i].email)
    } else {
        None
    }
}

/// No two mailbox slots share a handle.
pub open spec fn mb_handles_distinct(s: Seq<MailboxSlot>) -> bool {
    forall|i: int, j: int|
        0 <= i < j < s.len() ==> #[trigger] s[i].handle != #[trigger] s[j].handle
}

/// No two message slots share a handle.
pub open spec fn em_handles_distinct(s: Seq<EmailSlot>) -> bool {
    forall|i: int, j: int|
        0 <= i < j < s.len() ==> #[trigger] s[i].handle != #[trigger] s[j].handle
}

/// With distinct handles, the slot at `i` answers for its own handle.
pub proof fn lemma_slot_mailbox_at(s: Seq<MailboxSlot>, i: int)
    requires
        mb_handles_distinct(s),
        0 <= i < s.len(),
    ensures
        slot_mailbox(s, s[i].handle) == Some(s[i].mailbox),
{
    let h = s[i].handle;
    let j = choose|j: int| 0 <= j < s.len() && s[j].handle == h;
    assert(j == i);
}

/// When no slot carries `h`, the answer is `None`.
pub proof fn lemma_slot_mailbox_absent(s: Seq<MailboxSlot>, h: u64)
    requires
        forall|i: int| 0 <= i < s.len() ==> #[trigger] s[i].handle != h,
    ensures
        slot_mailbox(s, h) is None,
{
}

/// Appending a slot with a fresh handle answers for that handle and leaves
/// every other handle's answer as it was.
pub proof fn lemma_slot_mailbox_push(s: Seq<MailboxSlot>, slot: MailboxSlot)
    requires
        mb_handles_distinct(s),
        forall|i: int| 0 <= i < s.len() ==> #[trigger] s[i].handle != slot.handle,
    ensures
        mb_handles_distinct(s.push(slot)),
        slot_mailbox(s.push(slot), slot.handle) == Some(slot.mailbox),
        forall|g: u64| g != slot.handle ==> slot_mailbox(s.push(slot), g) == slot_mailbox(s, g),
{
    let t = s.push(slot);
    assert(mb_handles_distinct(t)) by {
        assert forall|i: int, j: int| 0 <= i < j < t.len() implies #[trigger] t[i].handle
            != #[trigger] t[j].handle by {
            if j == t.len() - 1 {
                assert(t[i] == s[i]);
            } else {
                assert(t[i] == s[i]);
                assert(t[j] == s[j]);
            }
        }
    }
    lemma_slot_mailbox_at(t, t.len() - 1);
    assert forall|g: u64| g != slot.handle implies slot_mailbox(t, g) == slot_mailbox(s, g) by {
        if exists|i: int| 0 <= i < s.len() && s[i].handle == g {
            let i = choose|i: int| 0 <= i < s.len() && s[i].handle == g;
            assert(t[i] == s[i]);
            lemma_slot_mailbox_at(t, i);
            lemma_slot_mailbox_at(s, i);
        } else {
            assert forall|i: int| 0 <= i < t.len() implies #[trigger] t[i].handle != g by {
                if i < t.len() - 1 {
                    assert(t[i] == s[i]);
                }
            }
            lemma_slot_mailbox_absent(t, g);
            lemma_slot_mailbox_absent(s, g);
        }
    }
}

/// Replacing the mailbox in slot `i` changes that handle's answer and no
/// other's.
pub proof fn lemma_slot_mailbox_update(s: Seq<MailboxSlot>, i: int, m: Mailbox)
    requires
        mb_handles_distinct(s),
        0 <= i < s.len(),
    ensures
        mb_handles_distinct(s.update(i, MailboxSlot { handle: s[i].handle, mailbox: m })),
        slot_mailbox(
            s.update(i, MailboxSlot { handle: s[i].handle, mailbox: m }),
            s[i].handle,
        ) == Some(m),
        forall|g: u64|
            g != s[i].handle ==> slot_mailbox(
                s.update(i, MailboxSlot { handle: s[i].handle, mailbox: m }),
                g,
            ) == slot_mailbox(s, g),
{
    let t = s.update(i, MailboxSlot { handle: s[i].handle, mailbox: m });
    assert(mb_handles_distinct(t)) by {
        assert forall|a: int, b: int| 0 <= a < b < t.len() implies #[trigger] t[a].handle
            != #[trigger] t[b].handle by {
            assert(t[a].handle == s[a].handle);
            assert(t[b].handle == s[b].handle);
        }
    }
    lemma_slot_mailbox_at(t, i);
    assert forall|g: u64| g != s[i].handle implies slot_mailbox(t, g) == slot_mailbox(s, g) by {
        if exists|j: int| 0 <= j < s.len() && s[j].handle == g {
            let j = choose|j: int| 0 <= j < s.len() && s[j].handle == g;
            assert(j != i);
            assert(t[j] == s[j]);
            lemma_slot_mailbox_at(t, j);
            lemma_slot_mailbox_at(s, j);
        } else {
            assert forall|j: int| 0 <= j < t.len() implies #[trigger] t[j].handle != g by {
                assert(t[j].handle == s[j].handle);
            }
            lemma_slot_mailbox_absent(t, g);
            lemma_slot_mailbox_absent(s, g);
        }
    }
}

/// With distinct handles, the slot at `i` answers for its own handle.
pub proof fn lemma_slot_email_at(s: Seq<EmailSlot>, i: int)
    requires
        em_handles_distinct(s),
        0 <= i < s.len(),
    ensures
        slot_email(s, s[i].handle) == Some(s[i].email),
{
    let h = s[i].handle;
    let j = choose|j: int| 0 <= j < s.len() && s[j].handle == h;
    assert(j == i);
}

/// When no slot carries `h`, the answer is `None`.
pub proof fn lemma_slot_email_absent(s: Seq<EmailSlot>, h: u64)
    requires
        forall|i: int| 0 <= i < s.len() ==> #[trigger] s[i].handle != h,
    ensures
        slot_email(s, h) is None,
{
}

/// Appending a slot with a fresh handle answers for that handle and leaves
/// every other handle's answer as it was.
pub proof fn lemma_slot_email_push(s: Seq<EmailSlot>, slot: EmailSlot)
    requires
        em_handles_distinct(s),
        forall|i: int| 0 <= i < s.len() ==> #[trigger] s[i].handle != slot.handle,
    ensures
        em_handles_distinct(s.push(slot)),
        slot_email(s.push(slot), slot.handle) == Some(slot.email),
        forall|g: u64| g != slot.handle ==> slot_email(s.push(slot), g) == slot_email(s, g),
{
    let t = s.push(slot);
    assert(em_handles_distinct(t)) by {
        assert forall|i: int, j: int| 0 <= i < j < t.len() implies #[trigger] t[i].handle
            != #[trigger] t[j].handle by {
            if j == t.len() - 1 {
                assert(t[i] == s[i]);
            } else {
                assert(t[i] == s[i]);
                assert(t[j] == s[j]);
            }
        }
    }
    lemma_slot_email_at(t, t.len() - 1);
    assert forall|g: u64| g != slot.handle implies slot_email(t, g) == slot_email(s, g) by {
        if exists|i: int| 0 <= i < s.len() && s[i].handle == g {
            let i = choose|i: int| 0 <= i < s.len() && s[i].handle == g;
            assert(t[i] == s[i]);
            lemma_slot_email_at(t, i);
            lemma_slot_email_at(s, i);
        } else {
            assert forall|i: int| 0 <= i < t.len() implies #[trigger] t[i].handle != g by {
                if i < t.len() - 1 {
                    assert(t[i] == s[i]);
                }
            }
            lemma_slot_email_absent(t, g);
            lemma_slot_email_absent(s, g);
        }
    }
}

/// Replacing the message in slot `i` changes that handle's answer and no
/// other's.
pub proof fn lemma_slot_email_update(s: Seq<EmailSlot>, i: int, e: Email)
    requires
        em_handles_distinct(s),
        0 <= i < s.len(),
    ensures
        em_handles_distinct(s.update(i, EmailSlot { handle: s[i].handle, email: e })),
        slot_email(s.update(i, EmailSlot { handle: s[i].handle, email: e }), s[i].handle) == Some(
            e,
        ),
        forall|g: u64|
            g != s[i].handle ==> slot_email(
                s.update(i, EmailSlot { handle: s[i].handle, email: e }),
                g,
            ) == slot_email(s, g),
{
    let t = s.update(i, EmailSlot { handle: s[i].handle, email: e });
    assert(em_handles_distinct(t)) by {
        assert forall|a: int, b: int| 0 <= a < b < t.len() implies #[trigger] t[a].handle
            != #[trigger] t[b].handle by {
            assert(t[a].handle == s[a].handle);
            assert(t[b].handle == s[b].handle);
        }
    }
    lemma_slot_email_at(t, i);
    assert forall|g: u64| g != s[i].handle implies slot_email(t, g) == slot_email(s, g) by {
        if exists|j: int| 0 <= j < s.len() && s[j].handle == g {
            let j = choose|j: int| 0 <= j < s.len() && s[j].handle == g;
            assert(j != i);
            assert(t[j] == s[j]);
            lemma_slot_email_at(t, j);
            lemma_slot_email_at(s, j);
        } else {
            assert forall|j: int| 0 <= j < t.len() implies #[trigger] t[j].handle != g by {
                assert(t[j].handle == s[j].handle);
            }
            lemma_slot_email_absent(t, g);
            lemma_slot_email_absent(s, g);
        }
    }
}

/// How a child's path relates to its parent's: a child of the root is named
/// by a bare segment (no separator at all), and a child of any other mailbox
/// is the parent's path, the separator, and a segment with no separator in
/// it.
pub open spec fn child_link_ok(pp: Seq<char>, cp: Seq<char>) -> bool {
    if pp == root_path() {
        last_slash(cp) == -1
    } else {
        last_slash(cp) == pp.len() && cp.subrange(0, pp.len() as int) == pp
    }
}

/// The path a message with UID `uid` is created under in the mailbox at
/// `name`: the mailbox path, the separator, and the UID in decimal.
pub open spec fn spec_msg_path(name: Seq<char>, uid: u32) -> Seq<char> {
    name + seq!['/'] + dec_str(uid as nat)
}

/// Message paths under one mailbox differ when their UIDs differ.
pub proof fn lemma_msg_path_injective(name: Seq<char>, u1: u32, u2: u32)
    requires
        u1 != u2,
    ensures
        spec_msg_path(name, u1) != spec_msg_path(name, u2),
{
    crate::strutil::lemma_dec_str_injective(u1 as nat, u2 as nat);
    assert(spec_msg_path(name, u1).subrange(
        (name.len() + 1) as int,
        spec_msg_path(name, u1).len() as int,
    ) =~= dec_str(u1 as nat));
    assert(spec_msg_path(name, u2).subrange(
        (name.len() + 1) as int,
        spec_msg_path(name, u2).len() as int,
    ) =~= dec_str(u2 as nat));
}

/// A message path is strictly longer than its mailbox's path.
pub proof fn lemma_msg_path_ne_name(name: Seq<char>, u: u32)
    ensures
        spec_msg_path(name, u) != name,
{
    crate::strutil::lemma_dec_str_digits(u as nat);
    assert(spec_msg_path(name, u).len() > name.len());
}

/// The text the fetched bytes decode to: their UTF-8 reading when they are
/// valid, the empty text otherwise (and when the fetch carried no body).
#[verifier::opaque]
pub open spec fn spec_decoded(body: Option<Seq<u8>>) -> Seq<char> {
    match body {
        Some(b) => if valid_utf8(b) {
            decode_utf8(b)
        } else {
            Seq::empty()
        },
        None => Seq::empty(),
    }
}

/// The header list a read parses out of a fetched body: what the header
/// parser reads from the decoded text, or nothing when it rejects it.
#[verifier::opaque]
pub open spec fn spec_body_headers(body: Option<Seq<u8>>) -> Seq<(Seq<char>, Seq<char>)> {
    match parsed_headers(encode_utf8(spec_decoded(body))) {
        Some(hs) => hs,
        None => Seq::empty(),
    }
}

/// What a read of a handle asks for next.
pub enum ReadStep {
    /// The handle is no message: the not-found reply.
    Unknown,
    /// The digest is cached: this is the text to answer with, and no
    /// network work is needed.
    Ready(String),
    /// Nothing is cached yet: the caller must select the first-named
    /// mailbox on its session, fetch the full body of the message under the
    /// second-named identifier, and hand the outcome to `complete_fetch`.
    Fetch(String, String),
}

/// The slice of a read reply the caller asked for: the digest's bytes from
/// `offset`, at most `size` of them, clamped to the digest's end; an offset
/// at or past the end yields nothing. The cached digest is one in-memory
/// blob, and this is the only slicing a read reply needs.
pub fn read_slice(digest: &str, offset: u64, size: u32) -> (r: Vec<u8>)
    ensures
        ({
            let b = digest.spec_bytes();
            let o = if offset <= b.len() {
                offset as int
            } else {
                b.len() as int
            };
            let e = if o + size <= b.len() {
                o + size
            } else {
                b.len() as int
            };
            r@ == b.subrange(o, e)
        }),
{
    let bytes = digest.as_bytes();
    let n = bytes.len();
    let o: usize = if offset > n as u64 {
        n
    } else {
        offset as usize
    };
    let e: usize = if (size as u64) > ((n - o) as u64) {
        n
    } else {
        o + (size as usize)
    };
    vstd::slice::slice_to_vec(vstd::slice::slice_subrange(bytes, o, e))
}

/// Renders the header digest and picks out the header fields: the digest
/// line for every `Subject`, `From` and `Date` header in order, the last
/// value under each of those keys, and the instant of the last `Date`
/// value the date parser accepts.
fn render_headers(hs_vec: &Vec<(String, String)>) -> (r: (
    String,
    Option<String>,
    Option<String>,
    Option<String>,
    Option<(i64, i32)>,
))
    ensures
        ({
            let hs = hs_vec.deep_view();
            &&& r.0@ == digest_of(hs)
            &&& (match last_value_of(hs, subject_key()) {
                Some(v) => r.1 is Some && r.1->0@ == v,
                None => r.1 is None,
            })
            &&& (match last_value_of(hs, from_key()) {
                Some(v) => r.2 is Some && r.2->0@ == v,
                None => r.2 is None,
            })
            &&& (match last_value_of(hs, date_key()) {
                Some(v) => r.3 is Some && r.3->0@ == v,
                None => r.3 is None,
            })
            &&& r.4 == last_date_instant(hs)
        }),
{
    let ghost hs = hs_vec.deep_view();
    let subject_lit = subject_literal();
    let from_lit = from_literal();
    let date_lit = date_literal();
    let mut built = String::new();
    let mut subj: Option<String> = None;
    let mut from_v: Option<String> = None;
    let mut date_v: Option<String> = None;
    let mut parsed: Option<(i64, i32)> = None;
    let n = hs_vec.len();
    let mut i: usize = 0;
    proof {
        assert(hs.take(0) =~= Seq::<(Seq<char>, Seq<char>)>::empty());
        assert(digest_of(Seq::<(Seq<char>, Seq<char>)>::empty()) == Seq::<char>::empty());
    }
    while i < n
        invariant
            i <= n,
            n == hs.len(),
            hs == hs_vec.deep_view(),
            subject_lit@ == subject_key(),
            from_lit@ == from_key(),
            date_lit@ == date_key(),
            built@ == digest_of(hs.take(i as int)),
            (match last_value_of(hs.take(i as int), subject_key()) {
                Some(v) => subj is Some && subj->0@ == v,
                None => subj is None,
            }),
            (match last_value_of(hs.take(i as int), from_key()) {
                Some(v) => from_v is Some && from_v->0@ == v,
                None => from_v is None,
            }),
            (match last_value_of(hs.take(i as int), date_key()) {
                Some(v) => date_v is Some && date_v->0@ == v,
                None => date_v is None,
            }),
            parsed == last_date_instant(hs.take(i as int)),
        decreases n - i,
    {
        let k = hs_vec[i].0.clone();
        let v = hs_vec[i].1.clone();
        proof {
            assert(hs[i as int] == (hs_vec@[i as int].0@, hs_vec@[i as int].1@));
            assert(hs[i as int].0 == k@);
            assert(hs[i as int].1 == v@);
            assert(hs.take(i + 1) =~= hs.take(i as int).push(hs[i as int]));
            assert(hs.take(i + 1).drop_last() =~= hs.take(i as int));
            assert(hs.take(i + 1).last() == hs[i as int]);
            lemma_digest_push(hs.take(i as int), hs[i as int]);
            reveal_strlit(": ");
            reveal_strlit("\n");
            assert(": "@ =~= seq![':', ' ']);
            assert("\n"@ =~= seq!['\n']);
        }
        let is_subject = k == subject_lit;
        let is_from = k == from_lit;
        let is_date = k == date_lit;
        if is_subject || is_from || is_date {
            built.append(k.as_str());
            built.append(": ");
            built.append(v.as_str());
            built.append("\n");
            proof {
                assert(built@ =~= digest_of(hs.take(i as int)) + header_line(k@, v@));
            }
        } else {
            proof {
                assert(!special_key(hs[i as int].0));
            }
        }
        if is_subject {
            subj = Some(v);
        } else if is_from {
            from_v = Some(v);
        } else if is_date {
            match parse_mail_date(v.as_str()) {
                Some(t) => {
                    parsed = Some(t);
                },
                None => {},
            }
            date_v = Some(v);
        }
        i = i + 1;
    }
    proof {
        assert(hs.take(n as int) =~= hs);
    }
    (built, subj, from_v, date_v, parsed)
}

/// The filesystem model: the path/handle table and the entities behind the
/// handles. All state the dispatch reads lives here; the network session
/// does not.
pub struct REmailFS {
    table: InodeTable,
    mailboxes: Vec<MailboxSlot>,
    emails: Vec<EmailSlot>,
    owner_uid: u32,
    owner_gid: u32,
    mounted_at: TimeSpec,
}

impl REmailFS {
    /// The mailbox slots, as the specifications see them.
    pub closed spec fn mb_slots(self) -> Seq<MailboxSlot> {
        self.mailboxes@
    }

    /// The message slots, as the specifications see them.
    pub closed spec fn em_slots(self) -> Seq<EmailSlot> {
        self.emails@
    }

    /// The inode table.
    pub closed spec fn spec_table(self) -> InodeTable {
        self.table
    }

    /// The uid every attribute record carries.
    pub closed spec fn spec_uid(self) -> u32 {
        self.owner_uid
    }

    /// The gid every attribute record carries.
    pub closed spec fn spec_gid(self) -> u32 {
        self.owner_gid
    }

    /// The instant the mount was created, used for fresh timestamps.
    pub closed spec fn spec_now(self) -> TimeSpec {
        self.mounted_at
    }

    /// The handle registered for a path.
    pub open spec fn spec_resolve(self, p: Seq<char>) -> Option<u64> {
        self.spec_table().spec_resolve(p)
    }

    /// The attribute record of a handle.
    pub open spec fn spec_attr(self, h: u64) -> Option<FileAttr> {
        self.spec_table().spec_attr(h)
    }

    /// The next handle an allocation returns.
    pub open spec fn spec_next(self) -> u64 {
        self.spec_table().spec_next()
    }

    /// The mailbox under handle `h`, if one is.
    pub open spec fn spec_mailbox(self, h: u64) -> Option<Mailbox> {
        slot_mailbox(self.mb_slots(), h)
    }

    /// The message under handle `h`, if one is.
    pub open spec fn spec_email(self, h: u64) -> Option<Email> {
        slot_email(self.em_slots(), h)
    }

    /// The path of the entity under `h`, mailbox or message.
    pub open spec fn spec_entity_path(self, h: u64) -> Option<Seq<char>> {
        match self.spec_mailbox(h) {
            Some(m) => Some(m.abs_path@),
            None => match self.spec_email(h) {
                Some(e) => Some(e.abs_path@),
                None => None,
            },
        }
    }

    /// Slot soundness: mailbox handles and message handles name no handle
    /// twice and never each other; the root mailbox sits first, under the
    /// root handle and the root path.
    pub closed spec fn wf_slots(self) -> bool {
        &&& mb_handles_distinct(self.mb_slots())
        &&& em_handles_distinct(self.em_slots())
        &&& forall|i: int, j: int|
            0 <= i < self.mb_slots().len() && 0 <= j < self.em_slots().len()
                ==> #[trigger] self.mb_slots()[i].handle != #[trigger] self.em_slots()[j].handle
        &&& self.mb_slots().len() >= 1
        &&& self.mb_slots()[0].handle == ROOT_HANDLE
        &&& self.mb_slots()[0].mailbox.abs_path@ == root_path()
    }

    /// Path soundness: every entity's stored path resolves back to its
    /// handle, directories to mailboxes and files to messages.
    pub closed spec fn wf_paths(self) -> bool {
        &&& forall|i: int|
            0 <= i < self.mb_slots().len() ==> #[trigger] self.table.spec_resolve(
                self.mb_slots()[i].mailbox.abs_path@,
            ) == Some(self.mb_slots()[i].handle)
        &&& forall|i: int|
            0 <= i < self.mb_slots().len() ==> (#[trigger] self.table.spec_attr(
                self.mb_slots()[i].handle,
            )) is Some && self.table.spec_attr(self.mb_slots()[i].handle)->0.kind
                == FileKind::Directory
        &&& forall|i: int|
            0 <= i < self.em_slots().len() ==> #[trigger] self.table.spec_resolve(
                self.em_slots()[i].email.abs_path@,
            ) == Some(self.em_slots()[i].handle)
        &&& forall|i: int|
            0 <= i < self.em_slots().len() ==> (#[trigger] self.table.spec_attr(
                self.em_slots()[i].handle,
            )) is Some && self.table.spec_attr(self.em_slots()[i].handle)->0.kind
                == FileKind::RegularFile
    }

    /// Completeness: every allocated handle belongs to an entity.
    pub closed spec fn wf_complete(self) -> bool {
        forall|h: u64|
            (#[trigger] self.table.spec_attr(h)) is Some ==> (self.spec_mailbox(h) is Some
                || self.spec_email(h) is Some)
    }

    /// Child soundness: every child list is strictly increasing, free of the
    /// root, and holds only entities whose paths extend the parent's path by
    /// one separator-free segment.
    pub closed spec fn wf_children(self) -> bool {
        forall|i: int, k: int|
            0 <= i < self.mb_slots().len() && 0 <= k
                < self.mb_slots()[i].mailbox.contents@.len() ==> {
                let c = #[trigger] self.mb_slots()[i].mailbox.contents@[k];
                &&& c != ROOT_HANDLE
                &&& self.spec_entity_path(c) is Some
                &&& child_link_ok(self.mb_slots()[i].mailbox.abs_path@, self.spec_entity_path(c)->0)
                &&& (k > 0 ==> self.mb_slots()[i].mailbox.contents@[k - 1] < c)
            }
    }

    /// Well-formedness of the whole model: the table is a bijection and the
    /// four soundness conditions above hold.
    pub closed spec fn wf(self) -> bool {
        &&& self.table.wf()
        &&& self.wf_slots()
        &&& self.wf_paths()
        &&& self.wf_complete()
        &&& self.wf_children()
    }

    /// The mailbox that a mailbox named `name` becomes a child of: the root
    /// for a name without a separator; otherwise the mailbox registered
    /// under the name's leading segment — missing when that segment resolves
    /// to nothing, to a message, or to the root path itself (the root is
    /// reached only by names without a separator).
    pub open spec fn spec_parent_of(self, name: Seq<char>) -> Option<u64> {
        if last_slash(name) == -1 {
            Some(ROOT_HANDLE)
        } else {
            match self.spec_resolve(name.subrange(0, last_slash(name))) {
                Some(ph) => if ph != ROOT_HANDLE && self.spec_mailbox(ph) is Some {
                    Some(ph)
                } else {
                    None
                },
                None => None,
            }
        }
    }

    /// Whether a UID list can collide with nothing: the UIDs are pairwise
    /// distinct and none of the message paths they name is registered yet.
    pub open spec fn spec_uids_clean(self, name: Seq<char>, uids: Seq<u32>) -> bool {
        &&& forall|k1: int, k2: int| 0 <= k1 < k2 < uids.len() ==> uids[k1] != uids[k2]
        &&& forall|k: int|
            0 <= k < uids.len() ==> self.spec_resolve(
                #[trigger] spec_msg_path(name, uids[k]),
            ) is None
    }

    /// A fresh, empty filesystem: only the root directory, under handle 1
    /// and the root path, with its fixed attributes; allocation starts at 2.
    pub fn new(uid: u32, gid: u32, now: TimeSpec) -> (fs: REmailFS)
        ensures
            fs.wf(),
            fs.spec_next() == FIRST_ALLOCATED_HANDLE,
            fs.spec_resolve(root_path()) == Some(ROOT_HANDLE),
            fs.spec_attr(ROOT_HANDLE) == Some(spec_root_attr(uid, gid, now)),
            forall|p: Seq<char>| p != root_path() ==> fs.spec_resolve(p) is None,
            forall|h: u64| h != ROOT_HANDLE ==> fs.spec_attr(h) is None,
            fs.spec_mailbox(ROOT_HANDLE) is Some,
            fs.spec_mailbox(ROOT_HANDLE)->0.info is None,
            fs.spec_mailbox(ROOT_HANDLE)->0.contents@ == Seq::<u64>::empty(),
            forall|h: u64| fs.spec_email(h) is None,
            fs.spec_uid() == uid,
            fs.spec_gid() == gid,
            fs.spec_now() == now,
    {
        let table = InodeTable::new(uid, gid, now);
        let root_str = String::from_str("/");
        proof {
            reveal_strlit("/");
            assert(root_str@ =~= root_path());
        }
        let root_mailbox = Mailbox::new(root_str.as_str());
        let mut mailboxes: Vec<MailboxSlot> = Vec::new();
        mailboxes.push(MailboxSlot { handle: ROOT_HANDLE, mailbox: root_mailbox });
        let fs = REmailFS {
            table,
            mailboxes,
            emails: Vec::new(),
            owner_uid: uid,
            owner_gid: gid,
            mounted_at: now,
        };
        proof {
            assert(fs.mb_slots().len() == 1);
            assert(fs.spec_mailbox(ROOT_HANDLE) == Some(fs.mb_slots()[0].mailbox));
        }
        fs
    }

    /// Appends the entity under `h` to the child list of the mailbox in
    /// slot `parent_index`. Nothing else changes: no path, no attribute
    /// record, no message, no other mailbox.
    #[verifier::rlimit(100)]
    fn link_child(&mut self, parent_index: usize, h: u64)
        requires
            old(self).wf(),
            parent_index < old(self).mb_slots().len(),
            old(self).mb_slots()[parent_index as int].handle != h,
            h != ROOT_HANDLE,
            old(self).spec_entity_path(h) is Some,
            child_link_ok(
                old(self).mb_slots()[parent_index as int].mailbox.abs_path@,
                old(self).spec_entity_path(h)->0,
            ),
            forall|q: int|
                0 <= q < old(self).mb_slots()[parent_index as int].mailbox.contents@.len()
                    ==> #[trigger] old(self).mb_slots()[parent_index as int].mailbox.contents@[q]
                    < h,
        ensures
            final(self).wf(),
            final(self).spec_uid() == old(self).spec_uid(),
            final(self).spec_gid() == old(self).spec_gid(),
            final(self).spec_now() == old(self).spec_now(),
            final(self).spec_next() == old(self).spec_next(),
            forall|q: Seq<char>| final(self).spec_resolve(q) == old(self).spec_resolve(q),
            forall|g: u64| final(self).spec_attr(g) == old(self).spec_attr(g),
            forall|g: u64| final(self).spec_email(g) == old(self).spec_email(g),
            final(self).mb_slots().len() == old(self).mb_slots().len(),
            forall|j: int|
                0 <= j < old(self).mb_slots().len() && j != parent_index ==> final(self).mb_slots(
                )[j] == old(self).mb_slots()[j],
            final(self).mb_slots()[parent_index as int].handle == old(self).mb_slots()[
                parent_index as int
            ].handle,
            final(self).mb_slots()[parent_index as int].mailbox.abs_path == old(self).mb_slots()[
                parent_index as int
            ].mailbox.abs_path,
            final(self).mb_slots()[parent_index as int].mailbox.info == old(self).mb_slots()[
                parent_index as int
            ].mailbox.info,
            final(self).mb_slots()[parent_index as int].mailbox.contents@ == old(self).mb_slots()[
                parent_index as int
            ].mailbox.contents@.push(h),
            forall|g: u64|
                g != old(self).mb_slots()[parent_index as int].handle ==> final(self).spec_mailbox(
                    g,
                ) == old(self).spec_mailbox(g),
            final(self).spec_mailbox(old(self).mb_slots()[parent_index as int].handle) == Some(
                final(self).mb_slots()[parent_index as int].mailbox,
            ),
    {
        let ghost pre2 = *old(self);
        let ghost parent_handle = old(self).mb_slots()[parent_index as int].handle;
        let ghost cp = old(self).spec_entity_path(h)->0;
        self.mailboxes[parent_index].mailbox.add_content(h);
        proof {
            assert(self.mb_slots() =~= pre2.mb_slots().update(
                parent_index as int,
                MailboxSlot {
                    handle: parent_handle,
                    mailbox: self.mb_slots()[parent_index as int].mailbox,
                },
            ));
            lemma_slot_mailbox_update(
                pre2.mb_slots(),
                parent_index as int,
                self.mb_slots()[parent_index as int].mailbox,
            );
            assert(self.wf_children()) by {
                assert forall|i: int, k2: int|
                    0 <= i < self.mb_slots().len() && 0 <= k2
                        < self.mb_slots()[i].mailbox.contents@.len() implies {
                    let c = #[trigger] self.mb_slots()[i].mailbox.contents@[k2];
                    &&& c != ROOT_HANDLE
                    &&& self.spec_entity_path(c) is Some
                    &&& child_link_ok(
                        self.mb_slots()[i].mailbox.abs_path@,
                        self.spec_entity_path(c)->0,
                    )
                    &&& (k2 > 0 ==> self.mb_slots()[i].mailbox.contents@[k2 - 1] < c)
                } by {
                    let c = self.mb_slots()[i].mailbox.contents@[k2];
                    if i == parent_index && k2 == self.mb_slots()[i].mailbox.contents@.len() - 1 {
                        assert(c == h);
                        assert(self.spec_mailbox(h) == pre2.spec_mailbox(h));
                        assert(self.spec_email(h) == pre2.spec_email(h));
                        assert(self.spec_entity_path(c) == Some(cp));
                    } else {
                        assert(pre2.mb_slots()[i].mailbox.contents@[k2] == c);
                        assert(self.spec_entity_path(c) == pre2.spec_entity_path(c)) by {
                            if pre2.spec_mailbox(c) is Some {
                                if c == parent_handle {
                                    assert(self.spec_mailbox(c)->0.abs_path@ == pre2.spec_mailbox(
                                        c,
                                    )->0.abs_path@);
                                } else {
                                    assert(self.spec_mailbox(c) == pre2.spec_mailbox(c));
                                }
                            } else {
                                assert(self.spec_mailbox(c) is None) by {
                                    if self.spec_mailbox(c) is Some {
                                        if c != parent_handle {
                                            assert(pre2.spec_mailbox(c) is Some);
                                        }
                                    }
                                }
                                assert(self.spec_email(c) == pre2.spec_email(c));
                            }
                        }
                        if i == parent_index {
                            assert(child_link_ok(
                                pre2.mb_slots()[i].mailbox.abs_path@,
                                pre2.spec_entity_path(c)->0,
                            ));
                        }
                    }
                }
            }
            assert(self.wf_complete()) by {
                assert forall|g: u64| (#[trigger] self.table.spec_attr(g)) is Some implies (
                self.spec_mailbox(g) is Some || self.spec_email(g) is Some) by {
                    assert(pre2.spec_mailbox(g) is Some || pre2.spec_email(g) is Some);
                    if pre2.spec_mailbox(g) is Some {
                        if g == parent_handle {
                            assert(self.spec_mailbox(g) is Some);
                        } else {
                            assert(self.spec_mailbox(g) == pre2.spec_mailbox(g));
                        }
                    }
                }
            }
            assert(self.wf());
        }
    }

    /// Adds one message to the mailbox in slot `mi_exec` (the slot that
    /// `add_mailbox` just created): if the message path is still free, the
    /// message takes the next handle and is appended to the mailbox's
    /// children; a path already registered creates nothing and changes
    /// nothing.
    #[verifier::rlimit(100)]
    fn add_message(&mut self, mi_exec: usize, name: &str, uid: u32) -> (created: bool)
        requires
            old(self).wf(),
            1 <= mi_exec,
            mi_exec + 1 == old(self).mb_slots().len(),
            old(self).mb_slots()[mi_exec as int].mailbox.abs_path@ == name@,
            old(self).spec_next() < u64::MAX,
        ensures
            final(self).wf(),
            final(self).spec_uid() == old(self).spec_uid(),
            final(self).spec_gid() == old(self).spec_gid(),
            final(self).spec_now() == old(self).spec_now(),
            created <==> old(self).spec_resolve(spec_msg_path(name@, uid)) is None,
            !created ==> *final(self) == *old(self),
            created ==> {
                let mh = old(self).spec_next();
                let mslot = old(self).mb_slots()[mi_exec as int];
                &&& final(self).spec_next() == mh + 1
                &&& final(self).spec_resolve(spec_msg_path(name@, uid)) == Some(mh)
                &&& forall|q: Seq<char>|
                    q != spec_msg_path(name@, uid) ==> final(self).spec_resolve(q) == old(
                        self,
                    ).spec_resolve(q)
                &&& final(self).spec_attr(mh) == Some(
                    spec_file_attr(
                        mh,
                        old(self).spec_uid(),
                        old(self).spec_gid(),
                        old(self).spec_now(),
                    ),
                )
                &&& forall|g: u64|
                    g != mh ==> final(self).spec_attr(g) == old(self).spec_attr(g)
                &&& final(self).spec_email(mh) is Some
                &&& final(self).spec_email(mh)->0.abs_path@ == spec_msg_path(name@, uid)
                &&& final(self).spec_email(mh)->0.contents is None
                &&& final(self).spec_email(mh)->0.digest is None
                &&& forall|g: u64|
                    g != mh ==> final(self).spec_email(g) == old(self).spec_email(g)
                &&& forall|g: u64|
                    g != mslot.handle ==> final(self).spec_mailbox(g) == old(self).spec_mailbox(g)
                &&& final(self).mb_slots().len() == old(self).mb_slots().len()
                &&& final(self).mb_slots()[mi_exec as int].handle == mslot.handle
                &&& final(self).mb_slots()[mi_exec as int].mailbox.abs_path
                    == mslot.mailbox.abs_path
                &&& final(self).mb_slots()[mi_exec as int].mailbox.info == mslot.mailbox.info
                &&& final(self).mb_slots()[mi_exec as int].mailbox.contents@
                    == mslot.mailbox.contents@.push(mh)
                &&& final(self).spec_mailbox(mslot.handle) == Some(
                    final(self).mb_slots()[mi_exec as int].mailbox,
                )
                &&& forall|j: int|
                    0 <= j < old(self).mb_slots().len() && j != mi_exec ==> final(self).mb_slots()[
                        j
                    ] == old(self).mb_slots()[j]
            },
    {
        let ghost pre = *old(self);
        let uid_str = crate::strutil::u32_string(uid);
        let msg_path = crate::strutil::join_path(name, uid_str.as_str());
        proof {
            assert(msg_path@ == spec_msg_path(name@, uid));
        }
        if self.table.resolve(msg_path.as_str()).is_some() {
            return false;
        }
        let mh = self.table.next_handle();
        proof {
            let mi = mi_exec as int;
            pre.table.lemma_handles_bounded();
            assert forall|q: int| 0 <= q < pre.mb_slots()[mi].mailbox.contents@.len()
                implies #[trigger] pre.mb_slots()[mi].mailbox.contents@[q] < mh by {
                let c = pre.mb_slots()[mi].mailbox.contents@[q];
                assert(pre.spec_entity_path(c) is Some);
                if pre.spec_mailbox(c) is Some {
                    let j = choose|j: int|
                        0 <= j < pre.mb_slots().len() && pre.mb_slots()[j].handle == c;
                    assert(pre.table.spec_resolve(pre.mb_slots()[j].mailbox.abs_path@) == Some(
                        c,
                    ));
                } else {
                    let j = choose|j: int|
                        0 <= j < pre.em_slots().len() && pre.em_slots()[j].handle == c;
                    assert(pre.table.spec_resolve(pre.em_slots()[j].email.abs_path@) == Some(c));
                }
            }
        }
        let mattr = file_attr(mh, self.owner_uid, self.owner_gid, self.mounted_at);
        self.table.allocate(msg_path.clone(), mattr);
        let email = Email::new(msg_path.as_str());
        self.emails.push(EmailSlot { handle: mh, email });
        self.mailboxes[mi_exec].mailbox.add_content(mh);
        proof {
            let mi = mi_exec as int;
            pre.table.lemma_handles_bounded();
            assert(self.em_slots() =~= pre.em_slots().push(
                self.em_slots()[self.em_slots().len() - 1],
            ));
            assert forall|j: int| 0 <= j < pre.em_slots().len()
                implies #[trigger] pre.em_slots()[j].handle != mh by {
                assert(pre.table.spec_resolve(pre.em_slots()[j].email.abs_path@) == Some(
                    pre.em_slots()[j].handle,
                ));
            }
            lemma_slot_email_push(pre.em_slots(), self.em_slots()[self.em_slots().len() - 1]);
            assert forall|j: int| 0 <= j < pre.mb_slots().len()
                implies #[trigger] pre.mb_slots()[j].handle != mh by {
                assert(pre.table.spec_resolve(pre.mb_slots()[j].mailbox.abs_path@) == Some(
                    pre.mb_slots()[j].handle,
                ));
            }
            assert(self.mb_slots() =~= pre.mb_slots().update(
                mi,
                MailboxSlot { handle: pre.mb_slots()[mi].handle, mailbox: self.mb_slots()[mi].mailbox },
            ));
            lemma_slot_mailbox_update(pre.mb_slots(), mi, self.mb_slots()[mi].mailbox);
            // The new message's path extends the mailbox's path by one
            // separator-free segment.
            crate::strutil::lemma_dec_str_digits(uid as nat);
            crate::strutil::lemma_join_split(name@, dec_str(uid as nat));
            assert(child_link_ok(name@, msg_path@)) by {
                assert(name@ != root_path()) by {
                    if name@ == root_path() {
                        pre.table.lemma_root();
                        assert(pre.table.spec_resolve(name@) == Some(
                            pre.mb_slots()[mi].handle,
                        ));
                        assert(pre.mb_slots()[mi].handle == ROOT_HANDLE);
                        assert(pre.mb_slots()[0].handle == ROOT_HANDLE);
                    }
                }
                assert(msg_path@.subrange(0, name@.len() as int) =~= name@);
            }
            // Well-formedness clause by clause.
            assert(self.wf_slots());
            assert(self.wf_paths()) by {
                assert forall|i: int| 0 <= i < self.mb_slots().len()
                    implies #[trigger] self.table.spec_resolve(
                    self.mb_slots()[i].mailbox.abs_path@,
                ) == Some(self.mb_slots()[i].handle) && self.table.spec_attr(
                    self.mb_slots()[i].handle,
                ) is Some && self.table.spec_attr(self.mb_slots()[i].handle)->0.kind
                    == FileKind::Directory by {
                    assert(self.mb_slots()[i].handle == pre.mb_slots()[i].handle);
                    assert(self.mb_slots()[i].mailbox.abs_path@ == pre.mb_slots()[
                        i
                    ].mailbox.abs_path@);
                    assert(pre.table.spec_resolve(pre.mb_slots()[i].mailbox.abs_path@) == Some(
                        pre.mb_slots()[i].handle,
                    ));
                    assert(pre.mb_slots()[i].handle != mh);
                }
            }
            assert(self.wf_complete()) by {
                assert forall|g: u64| (#[trigger] self.table.spec_attr(g)) is Some implies (
                self.spec_mailbox(g) is Some || self.spec_email(g) is Some) by {
                    if g == mh {
                        assert(self.spec_email(mh) is Some);
                    } else {
                        assert(pre.table.spec_attr(g) == self.table.spec_attr(g));
                        assert(pre.spec_mailbox(g) is Some || pre.spec_email(g) is Some);
                        if pre.spec_mailbox(g) is Some {
                            if g == pre.mb_slots()[mi].handle {
                                assert(self.spec_mailbox(g) is Some);
                            } else {
                                assert(self.spec_mailbox(g) == pre.spec_mailbox(g));
                            }
                        } else {
                            assert(self.spec_email(g) == pre.spec_email(g));
                        }
                    }
                }
            }
            assert(self.wf_children()) by {
                assert forall|i: int, k2: int|
                    0 <= i < self.mb_slots().len() && 0 <= k2
                        < self.mb_slots()[i].mailbox.contents@.len() implies {
                    let c = #[trigger] self.mb_slots()[i].mailbox.contents@[k2];
                    &&& c != ROOT_HANDLE
                    &&& self.spec_entity_path(c) is Some
                    &&& child_link_ok(
                        self.mb_slots()[i].mailbox.abs_path@,
                        self.spec_entity_path(c)->0,
                    )
                    &&& (k2 > 0 ==> self.mb_slots()[i].mailbox.contents@[k2 - 1] < c)
                } by {
                    let c = self.mb_slots()[i].mailbox.contents@[k2];
                    if i == mi && k2 == self.mb_slots()[mi].mailbox.contents@.len() - 1 {
                        assert(c == mh);
                        assert(self.spec_email(mh) is Some);
                        assert(self.spec_mailbox(mh) is None) by {
                            lemma_slot_mailbox_absent(self.mb_slots(), mh);
                        }
                        assert(self.spec_entity_path(c) == Some(msg_path@));
                    } else {
                        assert(pre.mb_slots()[i].mailbox.contents@[k2] == c);
                        assert(c != ROOT_HANDLE);
                        assert(pre.spec_entity_path(c) is Some);
                        assert(c != mh) by {
                            if pre.spec_mailbox(c) is Some {
                                let j = choose|j: int|
                                    0 <= j < pre.mb_slots().len() && pre.mb_slots()[j].handle
                                        == c;
                            } else {
                                let j = choose|j: int|
                                    0 <= j < pre.em_slots().len() && pre.em_slots()[j].handle
                                        == c;
                            }
                        }
                        assert(self.spec_entity_path(c) == pre.spec_entity_path(c)) by {
                            if c == pre.mb_slots()[mi].handle {
                                assert(self.spec_mailbox(c) is Some);
                                assert(self.spec_mailbox(c)->0.abs_path@ == pre.spec_mailbox(
                                    c,
                                )->0.abs_path@);
                            } else {
                                assert(self.spec_mailbox(c) == pre.spec_mailbox(c));
                                assert(self.spec_email(c) == pre.spec_email(c));
                            }
                        }
                    }
                }
            }
            assert(self.wf());
        }
        true
    }

    /// Adds one server-reported mailbox to the tree, with the metadata the
    /// open call answered (absent when it failed) and the UIDs the message
    /// search returned. The mailbox takes the next handle; when metadata is
    /// present, each UID whose path is still free takes the following
    /// handles in list order, one message each; and the new mailbox is
    /// registered as a child of the mailbox its name's leading segment
    /// names (the root for a name with no separator). A name already
    /// registered, or one whose parent segment names no mailbox, is
    /// rejected and nothing changes.
    #[verifier::rlimit(100)]
    pub fn add_mailbox(&mut self, name: &str, info: Option<MailboxInfo>, uids: &Vec<u32>) -> (r:
        Result<u64, Error>)
        requires
            old(self).wf(),
            old(self).spec_next() + 1 + uids@.len() <= u64::MAX,
        ensures
            final(self).wf(),
            final(self).spec_uid() == old(self).spec_uid(),
            final(self).spec_gid() == old(self).spec_gid(),
            final(self).spec_now() == old(self).spec_now(),
            match r {
                Err(e) => *final(self) == *old(self) && ((e == Error::DuplicatePath && old(
                    self,
                ).spec_resolve(name@) is Some) || (e == Error::MissingParent && old(
                    self,
                ).spec_resolve(name@) is None && old(self).spec_parent_of(name@) is None)),
                Ok(h) => {
                    let p = old(self).spec_parent_of(name@)->0;
                    &&& old(self).spec_resolve(name@) is None
                    &&& old(self).spec_parent_of(name@) is Some
                    &&& h == old(self).spec_next()
                    &&& final(self).spec_resolve(name@) == Some(h)
                    &&& final(self).spec_attr(h) == Some(
                        spec_directory_attr(
                            h,
                            old(self).spec_uid(),
                            old(self).spec_gid(),
                            old(self).spec_now(),
                        ),
                    )
                    &&& final(self).spec_mailbox(h) is Some
                    &&& final(self).spec_mailbox(h)->0.abs_path@ == name@
                    &&& final(self).spec_mailbox(h)->0.info == info
                    &&& final(self).spec_mailbox(p) is Some
                    &&& final(self).spec_mailbox(p)->0.abs_path == old(self).spec_mailbox(
                        p,
                    )->0.abs_path
                    &&& final(self).spec_mailbox(p)->0.info == old(self).spec_mailbox(p)->0.info
                    &&& final(self).spec_mailbox(p)->0.contents@ == old(self).spec_mailbox(
                        p,
                    )->0.contents@.push(h)
                    &&& forall|q: Seq<char>|
                        old(self).spec_resolve(q) is Some ==> final(self).spec_resolve(q) == old(
                            self,
                        ).spec_resolve(q)
                    &&& forall|g: u64|
                        old(self).spec_attr(g) is Some ==> final(self).spec_attr(g) == old(
                            self,
                        ).spec_attr(g)
                    &&& forall|g: u64|
                        g != h && g != p ==> final(self).spec_mailbox(g) == old(self).spec_mailbox(
                            g,
                        )
                    &&& forall|g: u64|
                        old(self).spec_email(g) is Some ==> final(self).spec_email(g) == old(
                            self,
                        ).spec_email(g)
                    &&& h < final(self).spec_next() <= h + 1 + uids@.len()
                    &&& forall|q: Seq<char>|
                        (q != name@ && (forall|k: int|
                            0 <= k < uids@.len() ==> q != #[trigger] spec_msg_path(
                                name@,
                                uids@[k],
                            ))) ==> final(self).spec_resolve(q) == old(self).spec_resolve(q)
                    &&& forall|g: u64|
                        (g < h || g >= final(self).spec_next()) ==> final(self).spec_attr(g)
                            == old(self).spec_attr(g)
                    &&& forall|g: u64|
                        !(h < g < final(self).spec_next()) ==> final(self).spec_email(g) == old(
                            self,
                        ).spec_email(g)
                    &&& (info is None ==> final(self).spec_next() == h + 1
                        && final(self).spec_mailbox(h)->0.contents@ == Seq::<u64>::empty() && (
                    forall|g: u64| final(self).spec_email(g) == old(self).spec_email(g)))
                    &&& ((info is Some && old(self).spec_uids_clean(name@, uids@)) ==> {
                        &&& final(self).spec_next() == h + 1 + uids@.len()
                        &&& final(self).spec_mailbox(h)->0.contents@ == Seq::new(
                            uids@.len(),
                            |k: int| (h + 1 + k) as u64,
                        )
                        &&& forall|k: int|
                            0 <= k < uids@.len() ==> final(self).spec_resolve(
                                #[trigger] spec_msg_path(name@, uids@[k]),
                            ) == Some((h + 1 + k) as u64)
                        &&& forall|k: int|
                            0 <= k < uids@.len() ==> #[trigger] final(self).spec_attr(
                                (h + 1 + k) as u64,
                            ) == Some(
                                spec_file_attr(
                                    (h + 1 + k) as u64,
                                    old(self).spec_uid(),
                                    old(self).spec_gid(),
                                    old(self).spec_now(),
                                ),
                            )
                        &&& forall|k: int|
                            0 <= k < uids@.len() ==> (#[trigger] final(self).spec_email(
                                (h + 1 + k) as u64,
                            )) is Some && final(self).spec_email((h + 1 + k) as u64)->0.abs_path@
                                == spec_msg_path(name@, uids@[k]) && final(self).spec_email(
                                (h + 1 + k) as u64,
                            )->0.contents is None && final(self).spec_email(
                                (h + 1 + k) as u64,
                            )->0.digest is None
                    })
                },
            },
    {
        let ghost o = *old(self);
        // A name already registered is rejected before anything changes.
        if self.table.resolve(name).is_some() {
            return Err(Error::DuplicatePath);
        }
        // The parent: the root for a bare name, else the mailbox under the
        // name's leading segment.
        let (prefix_opt, _leaf) = crate::strutil::split_last(name);
        let parent_handle: u64;
        let parent_index: usize;
        match prefix_opt {
            None => {
                parent_handle = ROOT_HANDLE;
                parent_index = 0;
                proof {
                    lemma_slot_mailbox_at(self.mb_slots(), 0);
                }
            },
            Some(prefix) => {
                let ph = match self.table.resolve(prefix.as_str()) {
                    Some(ph) => ph,
                    None => {
                        return Err(Error::MissingParent);
                    },
                };
                if ph == ROOT_HANDLE {
                    return Err(Error::MissingParent);
                }
                match self.mailbox_index(ph) {
                    Some(pi) => {
                        parent_handle = ph;
                        parent_index = pi;
                    },
                    None => {
                        return Err(Error::MissingParent);
                    },
                }
            },
        }
        proof {
            crate::strutil::lemma_last_slash(name@);
            assert(o.spec_parent_of(name@) == Some(parent_handle));
            assert(o.spec_mailbox(parent_handle) == Some(
                o.mb_slots()[parent_index as int].mailbox,
            ));
        }
        // The mailbox itself, under the next handle.
        let h = self.table.next_handle();
        let attr = directory_attr(h, self.owner_uid, self.owner_gid, self.mounted_at);
        self.table.allocate(name.to_owned(), attr);
        let mut mb = Mailbox::new(name);
        let has_info = info.is_some();
        match info {
            Some(inf) => mb.set_info(inf),
            None => {},
        }
        let ghost mi = o.mb_slots().len() as int;
        self.mailboxes.push(MailboxSlot { handle: h, mailbox: mb });
        let mi_exec: usize = self.mailboxes.len() - 1;
        proof {
            assert(mi_exec as int == mi);
        }
        proof {
            o.table.lemma_handles_bounded();
            assert forall|i: int| 0 <= i < o.mb_slots().len() implies #[trigger] o.mb_slots()[
                i
            ].handle < h by {
                assert(o.table.spec_resolve(o.mb_slots()[i].mailbox.abs_path@) == Some(
                    o.mb_slots()[i].handle,
                ));
            }
            assert forall|i: int| 0 <= i < o.em_slots().len() implies #[trigger] o.em_slots()[
                i
            ].handle < h by {
                assert(o.table.spec_resolve(o.em_slots()[i].email.abs_path@) == Some(
                    o.em_slots()[i].handle,
                ));
            }
            assert(self.mb_slots() =~= o.mb_slots().push(self.mb_slots()[mi]));
            lemma_slot_mailbox_push(o.mb_slots(), self.mb_slots()[mi]);
            assert forall|i: int, k: int|
                0 <= i < self.mb_slots().len() && 0 <= k
                    < self.mb_slots()[i].mailbox.contents@.len() implies {
                let c = #[trigger] self.mb_slots()[i].mailbox.contents@[k];
                &&& c != ROOT_HANDLE
                &&& self.spec_entity_path(c) is Some
                &&& child_link_ok(self.mb_slots()[i].mailbox.abs_path@, self.spec_entity_path(c)->0)
                &&& (k > 0 ==> self.mb_slots()[i].mailbox.contents@[k - 1] < c)
            } by {
                if i < mi {
                    assert(self.mb_slots()[i] == o.mb_slots()[i]);
                    let c = self.mb_slots()[i].mailbox.contents@[k];
                    assert(o.spec_entity_path(c) is Some);
                    if o.spec_mailbox(c) is Some {
                        let j = choose|j: int|
                            0 <= j < o.mb_slots().len() && o.mb_slots()[j].handle == c;
                        assert(c < h);
                    } else {
                        let j = choose|j: int|
                            0 <= j < o.em_slots().len() && o.em_slots()[j].handle == c;
                        assert(c < h);
                    }
                    assert(self.spec_mailbox(c) == o.spec_mailbox(c));
                    assert(self.spec_email(c) == o.spec_email(c));
                }
            }
            assert(self.wf());
            if o.spec_uids_clean(name@, uids@) {
                assert forall|j: int| 0 <= j < uids@.len() implies self.spec_resolve(
                    #[trigger] spec_msg_path(name@, uids@[j]),
                ) is None by {
                    lemma_msg_path_ne_name(name@, uids@[j]);
                }
                assert(self.mb_slots()[mi].mailbox.contents@ =~= Seq::new(
                    0 as nat,
                    |q: int| (h + 1 + q) as u64,
                ));
            }
        }
        // The messages, one fresh handle per UID whose path is still free.
        if has_info {
            let n = uids.len();
            let mut k: usize = 0;
            while k < n
                invariant
                    self.wf(),
                    k <= n,
                    n == uids@.len(),
                    o.wf(),
                    o.spec_next() + 1 + n <= u64::MAX,
                    self.spec_uid() == o.spec_uid(),
                    self.spec_gid() == o.spec_gid(),
                    self.spec_now() == o.spec_now(),
                    h == o.spec_next(),
                    mi == o.mb_slots().len(),
                    mi == mi_exec as int,
                    1 <= mi,
                    o.spec_resolve(name@) is None,
                    o.spec_parent_of(name@) == Some(parent_handle),
                    parent_index < mi,
                    o.mb_slots()[parent_index as int].handle == parent_handle,
                    self.mb_slots().len() == mi + 1,
                    self.mb_slots()[mi].handle == h,
                    self.mb_slots()[mi].mailbox.abs_path@ == name@,
                    self.mb_slots()[mi].mailbox.info == info,
                    forall|j: int| 0 <= j < mi ==> self.mb_slots()[j] == o.mb_slots()[j],
                    h < self.spec_next(),
                    self.spec_next() <= h + 1 + k,
                    self.spec_attr(h) == Some(
                        spec_directory_attr(h, o.spec_uid(), o.spec_gid(), o.spec_now()),
                    ),
                    forall|q: int|
                        0 <= q < self.mb_slots()[mi].mailbox.contents@.len() ==> h
                            < #[trigger] self.mb_slots()[mi].mailbox.contents@[q]
                            < self.spec_next(),
                    forall|q: Seq<char>|
                        o.spec_resolve(q) is Some ==> self.spec_resolve(q) == o.spec_resolve(q),
                    forall|g: u64|
                        o.spec_attr(g) is Some ==> self.spec_attr(g) == o.spec_attr(g),
                    forall|g: u64| g != h ==> self.spec_mailbox(g) == o.spec_mailbox(g),
                    forall|g: u64|
                        o.spec_email(g) is Some ==> self.spec_email(g) == o.spec_email(g),
                    forall|q: Seq<char>|
                        (q != name@ && (forall|j: int|
                            0 <= j < n ==> q != #[trigger] spec_msg_path(name@, uids@[j])))
                            ==> self.spec_resolve(q) == o.spec_resolve(q),
                    forall|g: u64|
                        (g < h || g >= self.spec_next()) ==> self.spec_attr(g) == o.spec_attr(g),
                    forall|g: u64|
                        !(h < g < self.spec_next()) ==> self.spec_email(g) == o.spec_email(g),
                    self.spec_mailbox(h) == Some(self.mb_slots()[mi].mailbox),
                    (o.spec_uids_clean(name@, uids@) ==> {
                        &&& self.spec_next() == h + 1 + k
                        &&& self.mb_slots()[mi].mailbox.contents@ == Seq::new(
                            k as nat,
                            |q: int| (h + 1 + q) as u64,
                        )
                        &&& forall|q: int|
                            0 <= q < k ==> self.spec_resolve(
                                #[trigger] spec_msg_path(name@, uids@[q]),
                            ) == Some((h + 1 + q) as u64)
                        &&& forall|q: int|
                            0 <= q < k ==> #[trigger] self.spec_attr((h + 1 + q) as u64) == Some(
                                spec_file_attr(
                                    (h + 1 + q) as u64,
                                    o.spec_uid(),
                                    o.spec_gid(),
                                    o.spec_now(),
                                ),
                            )
                        &&& forall|q: int|
                            0 <= q < k ==> (#[trigger] self.spec_email((h + 1 + q) as u64)) is Some
                                && self.spec_email((h + 1 + q) as u64)->0.abs_path@
                                == spec_msg_path(name@, uids@[q]) && self.spec_email(
                                (h + 1 + q) as u64,
                            )->0.contents is None && self.spec_email(
                                (h + 1 + q) as u64,
                            )->0.digest is None
                        &&& forall|j: int|
                            k <= j < n ==> self.spec_resolve(
                                #[trigger] spec_msg_path(name@, uids@[j]),
                            ) is None
                    }),
                decreases n - k,
            {
                let ghost pre = *self;
                let created = self.add_message(mi_exec, name, uids[k]);
                proof {
                    let u = uids@[k as int];
                    let mp = spec_msg_path(name@, u);
                    o.table.lemma_handles_bounded();
                    if created {
                        let mh = pre.spec_next();
                        assert forall|q: Seq<char>| o.spec_resolve(q) is Some implies
                            self.spec_resolve(q) == o.spec_resolve(q) by {
                            assert(pre.spec_resolve(q) == o.spec_resolve(q));
                        }
                        assert forall|g: u64| o.spec_attr(g) is Some implies self.spec_attr(g)
                            == o.spec_attr(g) by {
                            assert(g < h);
                            assert(pre.spec_attr(g) == o.spec_attr(g));
                        }
                        assert forall|g: u64| o.spec_email(g) is Some implies self.spec_email(g)
                            == o.spec_email(g) by {
                            let j = choose|j: int|
                                0 <= j < o.em_slots().len() && o.em_slots()[j].handle == g;
                            assert(o.table.spec_resolve(o.em_slots()[j].email.abs_path@) == Some(
                                g,
                            ));
                            assert(g < h);
                            assert(pre.spec_email(g) == o.spec_email(g));
                        }
                        assert forall|g: u64| g != h implies self.spec_mailbox(g)
                            == o.spec_mailbox(g) by {
                            assert(pre.spec_mailbox(g) == o.spec_mailbox(g));
                        }
                        assert forall|q: Seq<char>|
                            (q != name@ && (forall|j: int|
                                0 <= j < n ==> q != #[trigger] spec_msg_path(name@, uids@[j])))
                            implies self.spec_resolve(q) == o.spec_resolve(q) by {
                            assert(q != spec_msg_path(name@, uids@[k as int]));
                            assert(self.spec_resolve(q) == pre.spec_resolve(q));
                        }
                        assert forall|g: u64| (g < h || g >= self.spec_next()) implies
                            self.spec_attr(g) == o.spec_attr(g) by {
                            assert(g != mh);
                            assert(self.spec_attr(g) == pre.spec_attr(g));
                        }
                        assert forall|g: u64| !(h < g < self.spec_next()) implies self.spec_email(
                            g,
                        ) == o.spec_email(g) by {
                            assert(g != mh);
                            assert(self.spec_email(g) == pre.spec_email(g));
                        }
                    }
                    if o.spec_uids_clean(name@, uids@) {
                        assert(pre.spec_resolve(mp) is None);
                        assert(created);
                        {
                            let mh = pre.spec_next();
                            assert(mh == h + 1 + k);
                            assert(self.mb_slots()[mi].mailbox.contents@ =~= Seq::new(
                                (k + 1) as nat,
                                |q: int| (h + 1 + q) as u64,
                            ));
                            assert forall|q: int| 0 <= q < k + 1 implies self.spec_resolve(
                                #[trigger] spec_msg_path(name@, uids@[q]),
                            ) == Some((h + 1 + q) as u64) by {
                                if q < k {
                                    lemma_msg_path_injective(name@, uids@[q], u);
                                    assert(pre.spec_resolve(spec_msg_path(name@, uids@[q]))
                                        == Some((h + 1 + q) as u64));
                                }
                            }
                            assert forall|q: int| 0 <= q < k + 1 implies #[trigger] self.spec_attr(
                                (h + 1 + q) as u64,
                            ) == Some(
                                spec_file_attr(
                                    (h + 1 + q) as u64,
                                    o.spec_uid(),
                                    o.spec_gid(),
                                    o.spec_now(),
                                ),
                            ) by {
                                if q < k {
                                    assert((h + 1 + q) as u64 != mh);
                                    assert(self.spec_attr((h + 1 + q) as u64) == pre.spec_attr(
                                        (h + 1 + q) as u64,
                                    ));
                                }
                            }
                            assert forall|q: int|
                                0 <= q < k + 1 implies (#[trigger] self.spec_email(
                                (h + 1 + q) as u64,
                            )) is Some && self.spec_email((h + 1 + q) as u64)->0.abs_path@
                                == spec_msg_path(name@, uids@[q]) && self.spec_email(
                                (h + 1 + q) as u64,
                            )->0.contents is None && self.spec_email(
                                (h + 1 + q) as u64,
                            )->0.digest is None by {
                                if q < k {
                                    assert((h + 1 + q) as u64 != mh);
                                    assert(self.spec_email((h + 1 + q) as u64) == pre.spec_email(
                                        (h + 1 + q) as u64,
                                    ));
                                }
                            }
                            assert forall|j: int| k + 1 <= j < n implies self.spec_resolve(
                                #[trigger] spec_msg_path(name@, uids@[j]),
                            ) is None by {
                                lemma_msg_path_injective(name@, uids@[j], u);
                                assert(pre.spec_resolve(spec_msg_path(name@, uids@[j])) is None);
                            }
                        }
                    }
                }
                k = k + 1;
            }
        }
        // Register the new mailbox as a child of its parent.
        proof {
            assert(parent_index < mi);
            assert(self.mb_slots()[parent_index as int] == o.mb_slots()[parent_index as int]);
            o.table.lemma_handles_bounded();
            o.table.lemma_root();
            assert forall|q: int|
                0 <= q < self.mb_slots()[parent_index as int].mailbox.contents@.len()
                implies #[trigger] self.mb_slots()[parent_index as int].mailbox.contents@[q]
                < h by {
                let c = self.mb_slots()[parent_index as int].mailbox.contents@[q];
                assert(o.spec_entity_path(c) is Some);
                if o.spec_mailbox(c) is Some {
                    let j = choose|j: int|
                        0 <= j < o.mb_slots().len() && o.mb_slots()[j].handle == c;
                    assert(o.table.spec_resolve(o.mb_slots()[j].mailbox.abs_path@) == Some(c));
                } else {
                    let j = choose|j: int|
                        0 <= j < o.em_slots().len() && o.em_slots()[j].handle == c;
                    assert(o.table.spec_resolve(o.em_slots()[j].email.abs_path@) == Some(c));
                }
            }
            assert(self.spec_entity_path(h) == Some(name@));
            assert(h != ROOT_HANDLE);
            assert(self.mb_slots()[parent_index as int].handle != h) by {
                assert(o.table.spec_resolve(o.mb_slots()[parent_index as int].mailbox.abs_path@)
                    == Some(parent_handle));
            }
            let pp = self.mb_slots()[parent_index as int].mailbox.abs_path@;
            assert(child_link_ok(pp, name@)) by {
                o.table.lemma_bijection();
                if last_slash(name@) == -1 {
                    assert(parent_handle == ROOT_HANDLE);
                    assert(pp == root_path());
                } else {
                    let prefix = name@.subrange(0, last_slash(name@));
                    assert(o.spec_resolve(prefix) == Some(parent_handle));
                    assert(o.spec_resolve(pp) == Some(parent_handle));
                    assert(pp == prefix);
                    assert(pp != root_path()) by {
                        if pp == root_path() {
                            o.table.lemma_root();
                        }
                    }
                }
            }
        }
        let ghost pre2 = *self;
        self.link_child(parent_index, h);
        proof {
            lemma_slot_mailbox_at(o.mb_slots(), parent_index as int);
            assert(o.spec_mailbox(parent_handle) == Some(
                o.mb_slots()[parent_index as int].mailbox,
            ));
            assert(final(self).spec_mailbox(h) == pre2.spec_mailbox(h));
        }
        Ok(h)
    }

    /// The handle the next allocation will take.
    pub fn next_handle(&self) -> (h: u64)
        ensures
            h == self.spec_next(),
    {
        self.table.next_handle()
    }

    /// The attribute record of `handle`: present exactly for the handles
    /// initialization or a later allocation created.
    pub fn getattr(&self, handle: u64) -> (r: Option<FileAttr>)
        requires
            self.wf(),
        ensures
            r == self.spec_attr(handle),
    {
        self.table.attributes_of(handle)
    }

    /// The index of the mailbox slot under `h`, if one is.
    fn mailbox_index(&self, h: u64) -> (r: Option<usize>)
        requires
            self.wf(),
        ensures
            match r {
                Some(i) => i < self.mb_slots().len() && self.mb_slots()[i as int].handle == h
                    && self.spec_mailbox(h) == Some(self.mb_slots()[i as int].mailbox),
                None => self.spec_mailbox(h) is None,
            },
    {
        let n = self.mailboxes.len();
        let mut i: usize = 0;
        loop
            invariant
                self.wf(),
                i <= n,
                n == self.mb_slots().len(),
                forall|j: int| 0 <= j < i ==> #[trigger] self.mb_slots()[j].handle != h,
            decreases n - i,
        {
            if i == n {
                proof {
                    lemma_slot_mailbox_absent(self.mb_slots(), h);
                }
                return None;
            }
            if self.mailboxes[i].handle == h {
                proof {
                    lemma_slot_mailbox_at(self.mb_slots(), i as int);
                }
                return Some(i);
            }
            i = i + 1;
        }
    }

    /// The index of the message slot under `h`, if one is.
    fn email_index(&self, h: u64) -> (r: Option<usize>)
        requires
            self.wf(),
        ensures
            match r {
                Some(i) => i < self.em_slots().len() && self.em_slots()[i as int].handle == h
                    && self.spec_email(h) == Some(self.em_slots()[i as int].email),
                None => self.spec_email(h) is None,
            },
    {
        let n = self.emails.len();
        let mut i: usize = 0;
        loop
            invariant
                self.wf(),
                i <= n,
                n == self.em_slots().len(),
                forall|j: int| 0 <= j < i ==> #[trigger] self.em_slots()[j].handle != h,
            decreases n - i,
        {
            if i == n {
                proof {
                    lemma_slot_email_absent(self.em_slots(), h);
                }
                return None;
            }
            if self.emails[i].handle == h {
                proof {
                    lemma_slot_email_at(self.em_slots(), i as int);
                }
                return Some(i);
            }
            i = i + 1;
        }
    }

    /// The path a lookup under `parent` for `name` asks the table for: the
    /// name itself under the root, the parent's path, a separator and the
    /// name under any other mailbox, and nothing under a handle that is no
    /// mailbox.
    pub open spec fn spec_lookup_path(self, parent: u64, name: Seq<char>) -> Option<Seq<char>> {
        if parent == ROOT_HANDLE {
            Some(name)
        } else {
            match self.spec_mailbox(parent) {
                Some(m) => Some(m.abs_path@ + seq!['/'] + name),
                None => None,
            }
        }
    }

    /// What a lookup answers: the handle registered for the looked-up path.
    pub open spec fn spec_lookup(self, parent: u64, name: Seq<char>) -> Option<u64> {
        match self.spec_lookup_path(parent, name) {
            Some(p) => self.spec_resolve(p),
            None => None,
        }
    }

    /// Resolves `name` under the directory `parent`. Answers the entry's
    /// handle and attributes, or `None` — the not-found reply — exactly when
    /// no such entry was ever created.
    pub fn lookup(&self, parent: u64, name: &str) -> (r: Option<(u64, FileAttr)>)
        requires
            self.wf(),
        ensures
            match r {
                Some(entry) => self.spec_lookup(parent, name@) == Some(entry.0) && self.spec_attr(
                    entry.0,
                ) == Some(entry.1),
                None => self.spec_lookup(parent, name@) is None,
            },
    {
        let path: String = if parent != ROOT_HANDLE {
            let i = match self.mailbox_index(parent) {
                Some(i) => i,
                None => {
                    return None;
                },
            };
            crate::strutil::join_path(self.mailboxes[i].mailbox.abs_path.as_str(), name)
        } else {
            name.to_owned()
        };
        let handle = match self.table.resolve(path.as_str()) {
            Some(h) => h,
            None => {
                return None;
            },
        };
        match self.table.attributes_of(handle) {
            Some(a) => Some((handle, a)),
            None => {
                proof {
                    self.table.lemma_bijection();
                }
                None
            },
        }
    }

    /// Writes the changeable attribute fields of `handle` — ownership,
    /// size, timestamps, flags — and answers the record as it now stands,
    /// or `None` — not found — exactly when `handle` was never created.
    /// Nothing else changes: no path, no entity, no other record.
    pub fn setattr(&mut self, handle: u64, update: AttrUpdate) -> (r: Option<FileAttr>)
        requires
            old(self).wf(),
        ensures
            final(self).wf(),
            match r {
                Some(a) => old(self).spec_attr(handle) is Some && a == spec_apply_update(
                    old(self).spec_attr(handle)->0,
                    update,
                ) && final(self).spec_attr(handle) == Some(a),
                None => old(self).spec_attr(handle) is None && *final(self) == *old(self),
            },
            final(self).spec_next() == old(self).spec_next(),
            forall|g: u64| g != handle ==> final(self).spec_attr(g) == old(self).spec_attr(g),
            forall|q: Seq<char>| final(self).spec_resolve(q) == old(self).spec_resolve(q),
            forall|h: u64| final(self).spec_mailbox(h) == old(self).spec_mailbox(h),
            forall|h: u64| final(self).spec_email(h) == old(self).spec_email(h),
            final(self).mb_slots() == old(self).mb_slots(),
            final(self).em_slots() == old(self).em_slots(),
            final(self).spec_uid() == old(self).spec_uid(),
            final(self).spec_gid() == old(self).spec_gid(),
            final(self).spec_now() == old(self).spec_now(),
    {
        let a = match self.table.attributes_of(handle) {
            Some(a) => a,
            None => {
                return None;
            },
        };
        proof {
            self.table.lemma_attr_ino(handle);
        }
        let new_attr = apply_update(a, update);
        let found = self.table.set_attributes(handle, new_attr);
        proof {
            assert(found);
        }
        Some(new_attr)
    }
}

/// One reply row of a directory listing: the entry's handle, its kind, and
/// the name it shows under its parent.
pub struct DirEntry {
    pub ino: u64,
    pub kind: FileKind,
    pub name: String,
}

impl REmailFS {
    /// Lists the directory under `handle`: the two synthetic entries, then
    /// one row per declared child, each under the last segment of its path
    /// and with its recorded kind. Answers `None` — not found — exactly when
    /// `handle` is no mailbox.
    #[verifier::rlimit(60)]
    pub fn readdir(&self, handle: u64) -> (r: Option<Vec<DirEntry>>)
        requires
            self.wf(),
        ensures
            match r {
                None => self.spec_mailbox(handle) is None,
                Some(v) => {
                    let m = self.spec_mailbox(handle)->0;
                    &&& self.spec_mailbox(handle) is Some
                    &&& v@.len() == 2 + m.contents@.len()
                    &&& v@[0].ino == ROOT_HANDLE
                    &&& v@[0].kind == FileKind::Directory
                    &&& v@[0].name@ == seq!['.']
                    &&& v@[1].ino == ROOT_HANDLE
                    &&& v@[1].kind == FileKind::Directory
                    &&& v@[1].name@ == seq!['.', '.']
                    &&& forall|k: int|
                        0 <= k < m.contents@.len() ==> {
                            let c = #[trigger] m.contents@[k];
                            &&& v@[k + 2].ino == c
                            &&& self.spec_attr(c) is Some
                            &&& v@[k + 2].kind == self.spec_attr(c)->0.kind
                            &&& self.spec_entity_path(c) is Some
                            &&& v@[k + 2].name@ == leaf_of(self.spec_entity_path(c)->0)
                        }
                },
            },
    {
        let i = match self.mailbox_index(handle) {
            Some(i) => i,
            None => {
                return None;
            },
        };
        let dot = String::from_str(".");
        let dotdot = String::from_str("..");
        proof {
            reveal_strlit(".");
            reveal_strlit("..");
            assert(dot@ =~= seq!['.']);
            assert(dotdot@ =~= seq!['.', '.']);
        }
        let mut v: Vec<DirEntry> = Vec::new();
        v.push(DirEntry { ino: ROOT_HANDLE, kind: FileKind::Directory, name: dot });
        v.push(DirEntry { ino: ROOT_HANDLE, kind: FileKind::Directory, name: dotdot });
        let n = self.mailboxes[i].mailbox.contents.len();
        let ghost m = self.spec_mailbox(handle)->0;
        let mut k: usize = 0;
        while k < n
            invariant
                self.wf(),
                i < self.mb_slots().len(),
                self.mb_slots()[i as int].handle == handle,
                self.spec_mailbox(handle) == Some(self.mb_slots()[i as int].mailbox),
                m == self.mb_slots()[i as int].mailbox,
                n == m.contents@.len(),
                k <= n,
                v@.len() == 2 + k,
                v@[0].ino == ROOT_HANDLE && v@[0].kind == FileKind::Directory && v@[0].name@
                    == seq!['.'],
                v@[1].ino == ROOT_HANDLE && v@[1].kind == FileKind::Directory && v@[1].name@
                    == seq!['.', '.'],
                forall|q: int|
                    0 <= q < k ==> {
                        let c = #[trigger] m.contents@[q];
                        &&& v@[q + 2].ino == c
                        &&& self.spec_attr(c) is Some
                        &&& v@[q + 2].kind == self.spec_attr(c)->0.kind
                        &&& self.spec_entity_path(c) is Some
                        &&& v@[q + 2].name@ == leaf_of(self.spec_entity_path(c)->0)
                    },
            decreases n - k,
        {
            let c = self.mailboxes[i].mailbox.contents[k];
            let path: String = match self.mailbox_index(c) {
                Some(ci) => self.mailboxes[ci].mailbox.abs_path.clone(),
                None => {
                    match self.email_index(c) {
                        Some(ei) => self.emails[ei].email.abs_path.clone(),
                        None => {
                            proof {
                                assert(false);
                            }
                            return None;
                        },
                    }
                },
            };
            proof {
                assert(path@ == self.spec_entity_path(c)->0);
            }
            let (_, leaf) = crate::strutil::split_last(path.as_str());
            let a = match self.table.attributes_of(c) {
                Some(a) => a,
                None => {
                    proof {
                        assert(self.spec_entity_path(c) is Some);
                        assert(self.table.spec_attr(c) is Some);
                        assert(false);
                    }
                    return None;
                },
            };
            v.push(DirEntry { ino: c, kind: a.kind, name: leaf });
            k = k + 1;
        }
        Some(v)
    }

    /// Every name a directory listing shows (beyond the two synthetic
    /// entries) is found again by a lookup of that name under the same
    /// directory, and the lookup answers the very handle the listing
    /// reported.
    pub proof fn lemma_lookup_finds_readdir_entries(self, handle: u64, k: int)
        requires
            self.wf(),
            self.spec_mailbox(handle) is Some,
            0 <= k < self.spec_mailbox(handle)->0.contents@.len(),
        ensures
            self.spec_entity_path(self.spec_mailbox(handle)->0.contents@[k]) is Some,
            self.spec_lookup(
                handle,
                leaf_of(self.spec_entity_path(self.spec_mailbox(handle)->0.contents@[k])->0),
            ) == Some(self.spec_mailbox(handle)->0.contents@[k]),
    {
        let m = self.spec_mailbox(handle)->0;
        let i = choose|i: int|
            0 <= i < self.mb_slots().len() && self.mb_slots()[i].handle == handle;
        assert(self.mb_slots()[i].mailbox == m);
        let c = m.contents@[k];
        let cp = self.spec_entity_path(c)->0;
        assert(child_link_ok(m.abs_path@, cp));
        assert(self.spec_resolve(cp) == Some(c)) by {
            if self.spec_mailbox(c) is Some {
                let j = choose|j: int|
                    0 <= j < self.mb_slots().len() && self.mb_slots()[j].handle == c;
                assert(self.table.spec_resolve(self.mb_slots()[j].mailbox.abs_path@) == Some(c));
            } else {
                let j = choose|j: int|
                    0 <= j < self.em_slots().len() && self.em_slots()[j].handle == c;
                assert(self.table.spec_resolve(self.em_slots()[j].email.abs_path@) == Some(c));
            }
        }
        if m.abs_path@ == root_path() {
            assert(handle == ROOT_HANDLE) by {
                self.table.lemma_root();
                assert(self.table.spec_resolve(m.abs_path@) == Some(handle));
            }
            assert(leaf_of(cp) =~= cp);
        } else {
            assert(handle != ROOT_HANDLE) by {
                if handle == ROOT_HANDLE {
                    lemma_slot_mailbox_at(self.mb_slots(), 0);
                }
            }
            crate::strutil::lemma_last_slash(cp);
            assert(m.abs_path@ + seq!['/'] + leaf_of(cp) =~= cp);
        }
    }

    /// The cached answer of a read, when one is cached.
    pub open spec fn spec_read(self, h: u64) -> Option<Seq<char>> {
        match self.spec_email(h) {
            Some(e) => match e.digest {
                Some(d) => Some(d@),
                None => None,
            },
            None => None,
        }
    }

    /// What a read of `handle` needs: the not-found reply for a handle that
    /// is no message; the cached digest when one is cached; otherwise the
    /// mailbox and message identifier to fetch, read off the message's
    /// current path.
    pub fn read_step(&self, handle: u64) -> (r: ReadStep)
        requires
            self.wf(),
        ensures
            match r {
                ReadStep::Unknown => self.spec_email(handle) is None,
                ReadStep::Ready(d) => self.spec_read(handle) == Some(d@),
                ReadStep::Fetch(mb, uid) => {
                    let e = self.spec_email(handle)->0;
                    &&& self.spec_email(handle) is Some
                    &&& e.digest is None
                    &&& mb@ == (if last_slash(e.abs_path@) >= 0 {
                        e.abs_path@.subrange(0, last_slash(e.abs_path@))
                    } else {
                        Seq::<char>::empty()
                    })
                    &&& uid@ == leaf_of(e.abs_path@)
                },
            },
    {
        let ei = match self.email_index(handle) {
            Some(i) => i,
            None => {
                return ReadStep::Unknown;
            },
        };
        match &self.emails[ei].email.digest {
            Some(d) => ReadStep::Ready(d.clone()),
            None => {
                let (prefix, leaf) = crate::strutil::split_last(
                    self.emails[ei].email.abs_path.as_str(),
                );
                let mb = match prefix {
                    Some(p) => p,
                    None => String::new(),
                };
                ReadStep::Fetch(mb, leaf)
            },
        }
    }

    /// Writes a read's results into the message in slot `ei`: when a
    /// subject was found and names a usable free path, the message is
    /// renamed to it (its old path losing its registration in the same
    /// step); then the decoded text, the digest and the discovered fields
    /// are stored. Nothing else changes: no attribute record, no mailbox,
    /// no other message, no other path.
    #[verifier::rlimit(100)]
    fn finish_message(
        &mut self,
        ei: usize,
        subject: Option<String>,
        contents: String,
        digest: String,
        from_v: Option<String>,
        date_v: Option<String>,
    ) -> (r: String)
        requires
            old(self).wf(),
            ei < old(self).em_slots().len(),
        ensures
            final(self).wf(),
            r == digest,
            final(self).spec_uid() == old(self).spec_uid(),
            final(self).spec_gid() == old(self).spec_gid(),
            final(self).spec_now() == old(self).spec_now(),
            final(self).spec_next() == old(self).spec_next(),
            forall|g: u64| final(self).spec_attr(g) == old(self).spec_attr(g),
            forall|g: u64| final(self).spec_mailbox(g) == old(self).spec_mailbox(g),
            forall|g: u64|
                g != old(self).em_slots()[ei as int].handle ==> final(self).spec_email(g) == old(
                    self,
                ).spec_email(g),
            ({
                let handle = old(self).em_slots()[ei as int].handle;
                let e0 = old(self).em_slots()[ei as int].email;
                let e1 = final(self).spec_email(handle)->0;
                &&& final(self).spec_email(handle) is Some
                &&& e1.digest == Some(digest)
                &&& e1.contents == Some(contents)
                &&& (match subject {
                    Some(v) => e1.subject == Some(v),
                    None => e1.subject == e0.subject,
                })
                &&& (match from_v {
                    Some(v) => e1.from == Some(v),
                    None => e1.from == e0.from,
                })
                &&& (match date_v {
                    Some(v) => e1.date == Some(v),
                    None => e1.date == e0.date,
                })
                &&& final(self).spec_resolve(e1.abs_path@) == Some(handle)
                &&& (subject is None ==> e1.abs_path == e0.abs_path && (forall|q: Seq<char>|
                    final(self).spec_resolve(q) == old(self).spec_resolve(q)))
                &&& forall|q: Seq<char>|
                    q != e0.abs_path@ && q != e1.abs_path@ ==> final(self).spec_resolve(q) == old(
                        self,
                    ).spec_resolve(q)
                &&& (match subject {
                    Some(v) => (last_slash(e0.abs_path@) >= 0 && last_slash(v@) == -1 && (old(
                        self,
                    ).spec_resolve(
                        e0.abs_path@.subrange(0, last_slash(e0.abs_path@)) + seq!['/'] + v@,
                    ) is None || e0.abs_path@.subrange(0, last_slash(e0.abs_path@)) + seq!['/']
                        + v@ == e0.abs_path@)) ==> (e1.abs_path@ == e0.abs_path@.subrange(
                        0,
                        last_slash(e0.abs_path@),
                    ) + seq!['/'] + v@ && (e1.abs_path@ != e0.abs_path@
                        ==> final(self).spec_resolve(e0.abs_path@) is None)),
                    None => true,
                })
            }),
    {
        let ghost o = *old(self);
        let handle = self.emails[ei].handle;
        let cur_path = self.emails[ei].email.abs_path.clone();
        let mut final_path = cur_path.clone();
        proof {
            o.table.lemma_bijection();
            assert(o.table.spec_resolve(cur_path@) == Some(handle));
            assert(handle != ROOT_HANDLE) by {
                assert(o.mb_slots()[0].handle == ROOT_HANDLE);
                assert(o.em_slots()[ei as int].handle != o.mb_slots()[0].handle);
            }
        }
        let ghost did_rename = false;
        match &subject {
            Some(subj) => {
                let (prefix_opt, _leaf) = crate::strutil::split_last(cur_path.as_str());
                match prefix_opt {
                    Some(prefix) => {
                        let (subj_slash, _) = crate::strutil::split_last(subj.as_str());
                        if subj_slash.is_none() {
                            let cand = crate::strutil::join_path(prefix.as_str(), subj.as_str());
                            let take = match self.table.resolve(cand.as_str()) {
                                None => true,
                                Some(hh) => hh == handle,
                            };
                            if take {
                                proof {
                                    if o.spec_resolve(cand@) == Some(handle) {
                                        assert(cand@ == cur_path@);
                                    }
                                }
                                self.table.rename(cur_path.as_str(), cand.clone(), handle);
                                final_path = cand;
                                proof {
                                    did_rename = true;
                                }
                            }
                        }
                    },
                    None => {},
                }
            },
            None => {},
        }
        let new_email = Email {
            abs_path: final_path,
            contents: Some(contents),
            digest: Some(digest.clone()),
            subject: match subject {
                Some(v) => Some(v),
                None => match &self.emails[ei].email.subject {
                    Some(x) => Some(x.clone()),
                    None => None,
                },
            },
            from: match from_v {
                Some(v) => Some(v),
                None => match &self.emails[ei].email.from {
                    Some(x) => Some(x.clone()),
                    None => None,
                },
            },
            date: match date_v {
                Some(v) => Some(v),
                None => match &self.emails[ei].email.date {
                    Some(x) => Some(x.clone()),
                    None => None,
                },
            },
        };
        self.emails[ei].email = new_email;
        proof {
            let np = self.em_slots()[ei as int].email.abs_path@;
            let cp = o.em_slots()[ei as int].email.abs_path@;
            assert(self.em_slots() =~= o.em_slots().update(
                ei as int,
                EmailSlot { handle: handle, email: self.em_slots()[ei as int].email },
            ));
            lemma_slot_email_update(o.em_slots(), ei as int, self.em_slots()[ei as int].email);
            lemma_slot_email_at(o.em_slots(), ei as int);
            if did_rename {
                crate::strutil::lemma_last_slash(cp);
                let sv = self.em_slots()[ei as int].email.subject->0@;
                crate::strutil::lemma_last_slash(sv);
                crate::strutil::lemma_join_split(cp.subrange(0, last_slash(cp)), sv);
            }
            assert(self.table.spec_resolve(np) == Some(handle));
            // Every other entity's registration is untouched: a path of
            // another handle is neither the old nor the new path of this
            // message.
            assert forall|q: Seq<char>| q != cp && q != np implies self.table.spec_resolve(q)
                == o.table.spec_resolve(q) by {}
            assert(self.wf_slots());
            assert(self.wf_paths()) by {
                assert forall|i: int| 0 <= i < self.em_slots().len()
                    implies #[trigger] self.table.spec_resolve(
                    self.em_slots()[i].email.abs_path@,
                ) == Some(self.em_slots()[i].handle) && self.table.spec_attr(
                    self.em_slots()[i].handle,
                ) is Some && self.table.spec_attr(self.em_slots()[i].handle)->0.kind
                    == FileKind::RegularFile by {
                    if i != ei {
                        assert(self.em_slots()[i] == o.em_slots()[i]);
                        assert(o.table.spec_resolve(o.em_slots()[i].email.abs_path@) == Some(
                            o.em_slots()[i].handle,
                        ));
                        assert(o.em_slots()[i].email.abs_path@ != cp) by {
                            if o.em_slots()[i].email.abs_path@ == cp {
                                assert(o.em_slots()[i].handle == handle);
                            }
                        }
                        assert(o.em_slots()[i].email.abs_path@ != np || np == cp) by {
                            if o.em_slots()[i].email.abs_path@ == np && np != cp {
                                assert(o.table.spec_resolve(np) is None);
                            }
                        }
                    }
                }
                assert forall|i: int| 0 <= i < self.mb_slots().len()
                    implies #[trigger] self.table.spec_resolve(
                    self.mb_slots()[i].mailbox.abs_path@,
                ) == Some(self.mb_slots()[i].handle) && self.table.spec_attr(
                    self.mb_slots()[i].handle,
                ) is Some && self.table.spec_attr(self.mb_slots()[i].handle)->0.kind
                    == FileKind::Directory by {
                    assert(o.table.spec_resolve(o.mb_slots()[i].mailbox.abs_path@) == Some(
                        o.mb_slots()[i].handle,
                    ));
                    assert(o.mb_slots()[i].mailbox.abs_path@ != cp) by {
                        if o.mb_slots()[i].mailbox.abs_path@ == cp {
                            assert(o.mb_slots()[i].handle == handle);
                        }
                    }
                    assert(o.mb_slots()[i].mailbox.abs_path@ != np || np == cp) by {
                        if o.mb_slots()[i].mailbox.abs_path@ == np && np != cp {
                            assert(o.table.spec_resolve(np) is None);
                        }
                    }
                }
            }
            assert(self.wf_complete()) by {
                assert forall|g: u64| (#[trigger] self.table.spec_attr(g)) is Some implies (
                self.spec_mailbox(g) is Some || self.spec_email(g) is Some) by {
                    assert(o.spec_mailbox(g) is Some || o.spec_email(g) is Some);
                    if o.spec_email(g) is Some {
                        if g == handle {
                            assert(self.spec_email(g) is Some);
                        } else {
                            assert(self.spec_email(g) == o.spec_email(g));
                        }
                    }
                }
            }
            assert(self.wf_children()) by {
                assert forall|i: int, k2: int|
                    0 <= i < self.mb_slots().len() && 0 <= k2
                        < self.mb_slots()[i].mailbox.contents@.len() implies {
                    let c = #[trigger] self.mb_slots()[i].mailbox.contents@[k2];
                    &&& c != ROOT_HANDLE
                    &&& self.spec_entity_path(c) is Some
                    &&& child_link_ok(
                        self.mb_slots()[i].mailbox.abs_path@,
                        self.spec_entity_path(c)->0,
                    )
                    &&& (k2 > 0 ==> self.mb_slots()[i].mailbox.contents@[k2 - 1] < c)
                } by {
                    let c = self.mb_slots()[i].mailbox.contents@[k2];
                    assert(o.spec_entity_path(c) is Some);
                    if c == handle {
                        assert(self.spec_mailbox(c) is None);
                        assert(o.spec_mailbox(c) is None);
                        assert(o.spec_email(c) == Some(o.em_slots()[ei as int].email));
                        assert(self.spec_entity_path(c) == Some(np));
                        assert(child_link_ok(self.mb_slots()[i].mailbox.abs_path@, np)) by {
                            let pp = self.mb_slots()[i].mailbox.abs_path@;
                            assert(child_link_ok(pp, cp));
                            if np != cp {
                                crate::strutil::lemma_last_slash(cp);
                                assert(pp != root_path()) by {
                                    if pp == root_path() {
                                        assert(last_slash(cp) == -1);
                                    }
                                }
                                assert(cp.subrange(0, last_slash(cp)) == pp) by {
                                    assert(cp.subrange(0, pp.len() as int) =~= cp.subrange(
                                        0,
                                        last_slash(cp),
                                    ));
                                }
                            }
                        }
                    } else {
                        assert(self.spec_entity_path(c) == o.spec_entity_path(c)) by {
                            assert(self.spec_mailbox(c) == o.spec_mailbox(c));
                            assert(self.spec_email(c) == o.spec_email(c));
                        }
                    }
                }
            }
            assert(self.wf());
        }
        digest
    }

    /// Completes a read that needed a fetch: decodes the fetched body (an
    /// invalid encoding decodes to nothing rather than failing the read),
    /// parses its headers, renders the `Subject`/`From`/`Date` digest,
    /// renames the message after a discovered subject, stamps the parsed
    /// date onto all four timestamps, caches everything, and answers the
    /// digest. A handle that is no message answers `None` — the not-found
    /// reply — and changes nothing; a fetch that failed outright is not
    /// handed here at all (the caller answers not-found without touching
    /// the tree).
    #[verifier::rlimit(100)]
    pub fn complete_fetch(&mut self, handle: u64, body: Option<Vec<u8>>) -> (r: Option<String>)
        requires
            old(self).wf(),
        ensures
            final(self).wf(),
            final(self).spec_uid() == old(self).spec_uid(),
            final(self).spec_gid() == old(self).spec_gid(),
            final(self).spec_now() == old(self).spec_now(),
            final(self).spec_next() == old(self).spec_next(),
            forall|g: u64| final(self).spec_mailbox(g) == old(self).spec_mailbox(g),
            forall|g: u64| g != handle ==> final(self).spec_email(g) == old(self).spec_email(g),
            forall|g: u64| g != handle ==> final(self).spec_attr(g) == old(self).spec_attr(g),
            match r {
                None => old(self).spec_email(handle) is None && *final(self) == *old(self),
                Some(d) => ({
                    let hs = spec_body_headers(body.deep_view());
                    let e0 = old(self).spec_email(handle)->0;
                    let e1 = final(self).spec_email(handle)->0;
                    &&& old(self).spec_email(handle) is Some
                    &&& final(self).spec_email(handle) is Some
                    &&& d@ == digest_of(hs)
                    &&& e1.digest is Some && e1.digest->0@ == digest_of(hs)
                    &&& e1.contents is Some && e1.contents->0@ == spec_decoded(body.deep_view())
                    &&& final(self).spec_read(handle) == Some(digest_of(hs))
                    &&& (match last_value_of(hs, subject_key()) {
                        Some(v) => e1.subject is Some && e1.subject->0@ == v,
                        None => e1.subject == e0.subject,
                    })
                    &&& (match last_value_of(hs, from_key()) {
                        Some(v) => e1.from is Some && e1.from->0@ == v,
                        None => e1.from == e0.from,
                    })
                    &&& (match last_value_of(hs, date_key()) {
                        Some(v) => e1.date is Some && e1.date->0@ == v,
                        None => e1.date == e0.date,
                    })
                    &&& (match last_date_instant(hs) {
                        Some(t) => final(self).spec_attr(handle) == Some(
                            (FileAttr {
                                atime: (TimeSpec { sec: t.0, nsec: t.1 }),
                                mtime: (TimeSpec { sec: t.0, nsec: t.1 }),
                                ctime: (TimeSpec { sec: t.0, nsec: t.1 }),
                                crtime: (TimeSpec { sec: t.0, nsec: t.1 }),
                                ..old(self).spec_attr(handle)->0
                            }),
                        ),
                        None => final(self).spec_attr(handle) == old(self).spec_attr(handle),
                    })
                    &&& final(self).spec_resolve(e1.abs_path@) == Some(handle)
                    &&& (last_value_of(hs, subject_key()) is None ==> e1.abs_path == e0.abs_path
                        && (forall|q: Seq<char>|
                        final(self).spec_resolve(q) == old(self).spec_resolve(q)))
                    &&& forall|q: Seq<char>|
                        q != e0.abs_path@ && q != e1.abs_path@ ==> final(self).spec_resolve(q)
                            == old(self).spec_resolve(q)
                    &&& (match last_value_of(hs, subject_key()) {
                        Some(v) => (last_slash(e0.abs_path@) >= 0 && last_slash(v) == -1 && (old(
                            self,
                        ).spec_resolve(
                            e0.abs_path@.subrange(0, last_slash(e0.abs_path@)) + seq!['/'] + v,
                        ) is None || e0.abs_path@.subrange(0, last_slash(e0.abs_path@)) + seq!['/']
                            + v == e0.abs_path@)) ==> (e1.abs_path@ == e0.abs_path@.subrange(
                            0,
                            last_slash(e0.abs_path@),
                        ) + seq!['/'] + v && (e1.abs_path@ != e0.abs_path@
                            ==> final(self).spec_resolve(e0.abs_path@) is None)),
                        None => true,
                    })
                }),
            },
    {
        let ei = match self.email_index(handle) {
            Some(i) => i,
            None => {
                return None;
            },
        };
        let data: String = match &body {
            Some(b) => decode_text(b.as_slice()),
            None => String::new(),
        };
        proof {
            reveal(spec_decoded);
            if body is Some {
                assert(body.deep_view()->0 =~= body->0@);
            }
            assert(data@ == spec_decoded(body.deep_view()));
        }
        let hs_vec: Vec<(String, String)> = match parse_headers(data.as_str().as_bytes()) {
            Some(v) => v,
            None => Vec::new(),
        };
        proof {
            reveal(spec_body_headers);
            assert(hs_vec.deep_view() == spec_body_headers(body.deep_view()));
        }
        let (digest, subj, from_v, date_v, parsed) = render_headers(&hs_vec);
        match parsed {
            Some(t) => {
                let stamp = TimeSpec { sec: t.0, nsec: t.1 };
                let update = AttrUpdate {
                    uid: None,
                    gid: None,
                    size: None,
                    atime: Some(stamp),
                    mtime: Some(stamp),
                    ctime: Some(stamp),
                    crtime: Some(stamp),
                    flags: None,
                };
                let set = self.setattr(handle, update);
                proof {
                    assert(set is Some);
                }
            },
            None => {},
        }
        let d = self.finish_message(ei, subj, data, digest, from_v, date_v);
        Some(d)
    }

    /// The table is a bijection between the registered paths and the
    /// allocated handles, with exactly one attribute record per handle:
    /// one path never names two handles, two paths never share a handle,
    /// and an attribute record exists exactly for the handles some path
    /// reaches.
    pub proof fn lemma_path_handle_bijection(self)
        requires
            self.wf(),
        ensures
            forall|p1: Seq<char>, p2: Seq<char>|
                #[trigger] self.spec_resolve(p1) is Some && self.spec_resolve(p1)
                    == #[trigger] self.spec_resolve(p2) ==> p1 == p2,
            forall|p: Seq<char>|
                #[trigger] self.spec_resolve(p) is Some ==> self.spec_attr(
                    self.spec_resolve(p)->0,
                ) is Some,
            forall|h: u64|
                (#[trigger] self.spec_attr(h) is Some) <==> (exists|p: Seq<char>|
                    #[trigger] self.spec_resolve(p) == Some(h)),
    {
        self.table.lemma_bijection();
        assert forall|h: u64| (#[trigger] self.spec_attr(h) is Some) implies (exists|p: Seq<char>|
            #[trigger] self.spec_resolve(p) == Some(h)) by {
            let p = choose|p: Seq<char>| #[trigger] self.table.spec_resolve(p) == Some(h);
            assert(self.spec_resolve(p) == Some(h));
        }
        assert forall|h: u64| (exists|p: Seq<char>| #[trigger] self.spec_resolve(p) == Some(h))
            implies self.spec_attr(h) is Some by {
            let p = choose|p: Seq<char>| #[trigger] self.spec_resolve(p) == Some(h);
            assert(self.table.spec_resolve(p) == Some(h));
        }
    }

    /// Handles count up and are never reused: everything allocated lies
    /// below the allocation counter, so a handle at or above it resolves to
    /// nothing and carries nothing.
    pub proof fn lemma_handles_collision_free(self)
        requires
            self.wf(),
        ensures
            forall|h: u64| h >= self.spec_next() ==> self.spec_attr(h) is None,
            forall|p: Seq<char>|
                #[trigger] self.spec_resolve(p) is Some ==> self.spec_resolve(p)->0
                    < self.spec_next(),
    {
        self.table.lemma_handles_bounded();
    }

    /// The root is always present: a mailbox under the root handle whose
    /// record is a directory's.
    pub proof fn lemma_root_is_directory(self)
        requires
            self.wf(),
        ensures
            self.spec_mailbox(ROOT_HANDLE) is Some,
            self.spec_attr(ROOT_HANDLE) is Some,
            self.spec_attr(ROOT_HANDLE)->0.kind == FileKind::Directory,
    {
        lemma_slot_mailbox_at(self.mb_slots(), 0);
    }

    /// A message whose digest is cached needs no second fetch: the read's
    /// answer is the cached bytes, and the fetch branch of `read_step` is
    /// unreachable for it, so a second read returns the same bytes as the
    /// first and performs no network work.
    pub proof fn lemma_second_read_needs_no_fetch(self, handle: u64)
        requires
            self.wf(),
            self.spec_email(handle) is Some,
            self.spec_email(handle)->0.digest is Some,
        ensures
            self.spec_read(handle) == Some(self.spec_email(handle)->0.digest->0@),
    {
    }
}

} // verus!
