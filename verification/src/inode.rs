//! The inode table: a bidirectional map between absolute path strings and
//! small integer handles, together with one attribute record per handle.
//!
//! The table is a bijection at all times: every registered path maps to
//! exactly one handle, every allocated handle is reached by exactly one path,
//! and carries exactly one attribute record. Handles are given out counting
//! up from [`FIRST_ALLOCATED_HANDLE`] and are never reused; handle
//! [`ROOT_HANDLE`] is registered for the root directory before anything else.

use vstd::prelude::*;
use crate::attr::{FileAttr, TimeSpec, ROOT_HANDLE, FIRST_ALLOCATED_HANDLE};
use crate::attr::root_attr;
use crate::attr::spec_root_attr;
use crate::strutil::root_path;

verus! {

/// One row of the table: a path, the handle it maps to, and that handle's
/// attribute record.
pub struct InodeEntry {
    pub path: String,
    pub handle: u64,
    pub attr: FileAttr,
}

/// The table itself. `entries` is scanned linearly; `next_handle` is the
/// handle the next allocation will return.
pub struct InodeTable {
    entries: Vec<InodeEntry>,
    next_handle: u64,
}

/// The handle of the first row whose path is `p`, if any row's is.
pub open spec fn find_handle(rows: Seq<InodeEntry>, p: Seq<char>) -> Option<u64>
    decreases rows.len(),
{
    if rows.len() == 0 {
        None
    } else if rows[0].path@ == p {
        Some(rows[0].handle)
    } else {
        find_handle(rows.skip(1), p)
    }
}

/// The attribute record of the first row whose handle is `h`, if any row's is.
pub open spec fn find_attr(rows: Seq<InodeEntry>, h: u64) -> Option<FileAttr>
    decreases rows.len(),
{
    if rows.len() == 0 {
        None
    } else if rows[0].handle == h {
        Some(rows[0].attr)
    } else {
        find_attr(rows.skip(1), h)
    }
}

/// `find_handle` answers `Some` exactly when some row carries the path, and
/// then answers with some matching row's handle.
pub proof fn lemma_find_handle_index(rows: Seq<InodeEntry>, p: Seq<char>)
    ensures
        (find_handle(rows, p) is Some) <==> (exists|i: int|
            0 <= i < rows.len() && rows[i].path@ == p),
        find_handle(rows, p) is Some ==> (exists|i: int|
            0 <= i < rows.len() && rows[i].path@ == p && rows[i].handle == find_handle(
                rows,
                p,
            )->0),
    decreases rows.len(),
{
    if rows.len() == 0 {
    } else if rows[0].path@ == p {
    } else {
        lemma_find_handle_index(rows.skip(1), p);
        assert forall|i: int| 0 <= i < rows.len() && rows[i].path@ == p implies exists|j: int|
            0 <= j < rows.skip(1).len() && rows.skip(1)[j].path@ == p by {
            assert(rows.skip(1)[i - 1] == rows[i]);
        }
        if find_handle(rows, p) is Some {
            let j = choose|j: int|
                0 <= j < rows.skip(1).len() && rows.skip(1)[j].path@ == p && rows.skip(1)[j].handle
                    == find_handle(rows.skip(1), p)->0;
            assert(rows[j + 1] == rows.skip(1)[j]);
        }
    }
}

/// `find_attr` answers `Some` exactly when some row carries the handle, and
/// then answers with some matching row's attribute record.
pub proof fn lemma_find_attr_index(rows: Seq<InodeEntry>, h: u64)
    ensures
        (find_attr(rows, h) is Some) <==> (exists|i: int|
            0 <= i < rows.len() && rows[i].handle == h),
        find_attr(rows, h) is Some ==> (exists|i: int|
            0 <= i < rows.len() && rows[i].handle == h && rows[i].attr == find_attr(rows, h)->0),
    decreases rows.len(),
{
    if rows.len() == 0 {
    } else if rows[0].handle == h {
    } else {
        lemma_find_attr_index(rows.skip(1), h);
        assert forall|i: int| 0 <= i < rows.len() && rows[i].handle == h implies exists|j: int|
            0 <= j < rows.skip(1).len() && rows.skip(1)[j].handle == h by {
            assert(rows.skip(1)[i - 1] == rows[i]);
        }
        if find_attr(rows, h) is Some {
            let j = choose|j: int|
                0 <= j < rows.skip(1).len() && rows.skip(1)[j].handle == h && rows.skip(1)[j].attr
                    == find_attr(rows.skip(1), h)->0;
            assert(rows[j + 1] == rows.skip(1)[j]);
        }
    }
}

/// No two rows share a path.
pub open spec fn paths_distinct(rows: Seq<InodeEntry>) -> bool {
    forall|i: int, j: int|
        0 <= i < j < rows.len() ==> #[trigger] rows[i].path@ != #[trigger] rows[j].path@
}

/// No two rows share a handle.
pub open spec fn handles_distinct(rows: Seq<InodeEntry>) -> bool {
    forall|i: int, j: int|
        0 <= i < j < rows.len() ==> #[trigger] rows[i].handle != #[trigger] rows[j].handle
}

/// When paths are distinct and row `i` carries `p`, the lookup answers with
/// that row's handle.
pub proof fn lemma_find_handle_at(rows: Seq<InodeEntry>, p: Seq<char>, i: int)
    requires
        paths_distinct(rows),
        0 <= i < rows.len(),
        rows[i].path@ == p,
    ensures
        find_handle(rows, p) == Some(rows[i].handle),
{
    lemma_find_handle_index(rows, p);
    let j = choose|j: int|
        0 <= j < rows.len() && rows[j].path@ == p && rows[j].handle == find_handle(rows, p)->0;
    assert(j == i);
}

/// When no row carries `p`, the lookup answers `None`.
pub proof fn lemma_find_handle_absent(rows: Seq<InodeEntry>, p: Seq<char>)
    requires
        forall|i: int| 0 <= i < rows.len() ==> #[trigger] rows[i].path@ != p,
    ensures
        find_handle(rows, p) is None,
{
    lemma_find_handle_index(rows, p);
}

/// When handles are distinct and row `i` carries `h`, the lookup answers with
/// that row's attribute record.
pub proof fn lemma_find_attr_at(rows: Seq<InodeEntry>, h: u64, i: int)
    requires
        handles_distinct(rows),
        0 <= i < rows.len(),
        rows[i].handle == h,
    ensures
        find_attr(rows, h) == Some(rows[i].attr),
{
    lemma_find_attr_index(rows, h);
    let j = choose|j: int|
        0 <= j < rows.len() && rows[j].handle == h && rows[j].attr == find_attr(rows, h)->0;
    assert(j == i);
}

/// When no row carries `h`, the lookup answers `None`.
pub proof fn lemma_find_attr_absent(rows: Seq<InodeEntry>, h: u64)
    requires
        forall|i: int| 0 <= i < rows.len() ==> #[trigger] rows[i].handle != h,
    ensures
        find_attr(rows, h) is None,
{
    lemma_find_attr_index(rows, h);
}

impl InodeTable {
    /// The rows of the table, as the specifications see them.
    pub closed spec fn rows(self) -> Seq<InodeEntry> {
        self.entries@
    }

    /// The handle the next allocation returns.
    pub closed spec fn spec_next(self) -> u64 {
        self.next_handle
    }

    /// The handle registered for `p`, if `p` is registered.
    pub open spec fn spec_resolve(self, p: Seq<char>) -> Option<u64> {
        find_handle(self.rows(), p)
    }

    /// The attribute record of `h`, if `h` is allocated.
    pub open spec fn spec_attr(self, h: u64) -> Option<FileAttr> {
        find_attr(self.rows(), h)
    }

    /// Well-formedness: paths distinct, handles distinct and below the
    /// allocation counter, the root row first, and every attribute record
    /// naming its own handle.
    pub closed spec fn wf(self) -> bool {
        &&& paths_distinct(self.rows())
        &&& handles_distinct(self.rows())
        &&& forall|i: int|
            0 <= i < self.rows().len() ==> #[trigger] self.rows()[i].handle < self.next_handle
        &&& self.next_handle >= FIRST_ALLOCATED_HANDLE
        &&& self.rows().len() >= 1
        &&& self.rows()[0].path@ == root_path()
        &&& self.rows()[0].handle == ROOT_HANDLE
        &&& forall|i: int|
            0 <= i < self.rows().len() ==> #[trigger] self.rows()[i].attr.ino == self.rows()[
                i
            ].handle
    }

    /// A fresh table: the root directory under the root path, nothing else,
    /// and allocation starting just above the root handle.
    pub fn new(uid: u32, gid: u32, now: TimeSpec) -> (t: InodeTable)
        ensures
            t.wf(),
            t.spec_next() == FIRST_ALLOCATED_HANDLE,
            t.spec_resolve(root_path()) == Some(ROOT_HANDLE),
            t.spec_attr(ROOT_HANDLE) == Some(spec_root_attr(uid, gid, now)),
            forall|p: Seq<char>| p != root_path() ==> t.spec_resolve(p) is None,
            forall|h: u64| h != ROOT_HANDLE ==> t.spec_attr(h) is None,
    {
        let root = String::from_str("/");
        proof {
            reveal_strlit("/");
            assert(root@ =~= root_path());
        }
        let mut entries: Vec<InodeEntry> = Vec::new();
        entries.push(InodeEntry { path: root, handle: ROOT_HANDLE, attr: root_attr(uid, gid, now) });
        let t = InodeTable { entries, next_handle: FIRST_ALLOCATED_HANDLE };
        proof {
            assert forall|p: Seq<char>| p != root_path() implies t.spec_resolve(p) is None by {
                lemma_find_handle_absent(t.rows(), p);
            }
            assert forall|h: u64| h != ROOT_HANDLE implies t.spec_attr(h) is None by {
                lemma_find_attr_absent(t.rows(), h);
            }
            lemma_find_handle_at(t.rows(), root_path(), 0);
            lemma_find_attr_at(t.rows(), ROOT_HANDLE, 0);
        }
        t
    }

    /// The handle the next allocation will return; handles count up from
    /// here and are never reused.
    pub fn next_handle(&self) -> (h: u64)
        ensures
            h == self.spec_next(),
    {
        self.next_handle
    }

    /// The index of the row carrying path `p`, if one does.
    fn index_of_path(&self, p: &str) -> (r: Option<usize>)
        requires
            self.wf(),
        ensures
            match r {
                Some(i) => i < self.rows().len() && self.rows()[i as int].path@ == p@
                    && self.spec_resolve(p@) == Some(self.rows()[i as int].handle),
                None => self.spec_resolve(p@) is None,
            },
    {
        let ps = p.to_owned();
        let n = self.entries.len();
        let mut i: usize = 0;
        loop
            invariant
                self.wf(),
                i <= n,
                n == self.rows().len(),
                ps@ == p@,
                forall|j: int| 0 <= j < i ==> #[trigger] self.rows()[j].path@ != p@,
            decreases n - i,
        {
            if i == n {
                proof {
                    lemma_find_handle_absent(self.rows(), p@);
                }
                return None;
            }
            if self.entries[i].path == ps {
                proof {
                    lemma_find_handle_at(self.rows(), p@, i as int);
                }
                return Some(i);
            }
            i = i + 1;
        }
    }

    /// The index of the row carrying handle `h`, if one does.
    fn index_of_handle(&self, h: u64) -> (r: Option<usize>)
        requires
            self.wf(),
        ensures
            match r {
                Some(i) => i < self.rows().len() && self.rows()[i as int].handle == h
                    && self.spec_attr(h) == Some(self.rows()[i as int].attr),
                None => self.spec_attr(h) is None,
            },
    {
        let n = self.entries.len();
        let mut i: usize = 0;
        loop
            invariant
                self.wf(),
                i <= n,
                n == self.rows().len(),
                forall|j: int| 0 <= j < i ==> #[trigger] self.rows()[j].handle != h,
            decreases n - i,
        {
            if i == n {
                proof {
                    lemma_find_attr_absent(self.rows(), h);
                }
                return None;
            }
            if self.entries[i].handle == h {
                proof {
                    lemma_find_attr_at(self.rows(), h, i as int);
                }
                return Some(i);
            }
            i = i + 1;
        }
    }

    /// The handle registered for `path`, or `None` when `path` is not
    /// registered.
    pub fn resolve(&self, path: &str) -> (r: Option<u64>)
        requires
            self.wf(),
        ensures
            r == self.spec_resolve(path@),
    {
        match self.index_of_path(path) {
            Some(i) => Some(self.entries[i].handle),
            None => None,
        }
    }

    /// The attribute record of `handle`, or `None` when `handle` was never
    /// allocated.
    pub fn attributes_of(&self, handle: u64) -> (r: Option<FileAttr>)
        requires
            self.wf(),
        ensures
            r == self.spec_attr(handle),
    {
        match self.index_of_handle(handle) {
            Some(i) => Some(self.entries[i].attr),
            None => None,
        }
    }

    /// Registers `path` under the next handle and records `attr` for it.
    /// No other path and no other handle is touched, and the allocation
    /// counter moves up by one, so no later allocation can return this
    /// handle again.
    pub fn allocate(&mut self, path: String, attr: FileAttr) -> (h: u64)
        requires
            old(self).wf(),
            old(self).spec_resolve(path@) is None,
            old(self).spec_next() < u64::MAX,
            attr.ino == old(self).spec_next(),
        ensures
            final(self).wf(),
            h == old(self).spec_next(),
            final(self).spec_next() == h + 1,
            final(self).spec_resolve(path@) == Some(h),
            final(self).spec_attr(h) == Some(attr),
            forall|q: Seq<char>|
                q != path@ ==> final(self).spec_resolve(q) == old(self).spec_resolve(q),
            forall|g: u64| g != h ==> final(self).spec_attr(g) == old(self).spec_attr(g),
    {
        let ghost rows0 = self.rows();
        let ghost p = path@;
        let h = self.next_handle;
        self.next_handle = self.next_handle + 1;
        self.entries.push(InodeEntry { path, handle: h, attr });
        proof {
            let rows = self.rows();
            assert(rows =~= rows0.push(InodeEntry { path: path, handle: h, attr }));
            lemma_find_handle_index(rows0, p);
            assert(paths_distinct(rows)) by {
                assert forall|i: int, j: int| 0 <= i < j < rows.len() implies #[trigger] rows[
                    i
                ].path@ != #[trigger] rows[j].path@ by {
                    if j == rows.len() - 1 {
                        assert(rows[i] == rows0[i]);
                    }
                }
            }
            assert(handles_distinct(rows)) by {
                assert forall|i: int, j: int| 0 <= i < j < rows.len() implies #[trigger] rows[
                    i
                ].handle != #[trigger] rows[j].handle by {
                    if j == rows.len() - 1 {
                        assert(rows[i] == rows0[i]);
                    }
                }
            }
            lemma_find_handle_at(rows, p, rows.len() - 1);
            lemma_find_attr_at(rows, h, rows.len() - 1);
            assert forall|q: Seq<char>| q != p implies final(self).spec_resolve(q) == old(
                self,
            ).spec_resolve(q) by {
                lemma_find_handle_index(rows0, q);
                if old(self).spec_resolve(q) is Some {
                    let i = choose|i: int|
                        0 <= i < rows0.len() && rows0[i].path@ == q && rows0[i].handle
                            == find_handle(rows0, q)->0;
                    assert(rows[i] == rows0[i]);
                    lemma_find_handle_at(rows, q, i);
                } else {
                    assert forall|i: int| 0 <= i < rows.len() implies #[trigger] rows[i].path@
                        != q by {
                        if i < rows.len() - 1 {
                            assert(rows[i] == rows0[i]);
                        }
                    }
                    lemma_find_handle_absent(rows, q);
                }
            }
            assert forall|g: u64| g != h implies final(self).spec_attr(g) == old(self).spec_attr(
                g,
            ) by {
                lemma_find_attr_index(rows0, g);
                if old(self).spec_attr(g) is Some {
                    let i = choose|i: int|
                        0 <= i < rows0.len() && rows0[i].handle == g && rows0[i].attr == find_attr(
                            rows0,
                            g,
                        )->0;
                    assert(rows[i] == rows0[i]);
                    lemma_find_attr_at(rows, g, i);
                } else {
                    assert forall|i: int| 0 <= i < rows.len() implies #[trigger] rows[i].handle
                        != g by {
                        if i < rows.len() - 1 {
                            assert(rows[i] == rows0[i]);
                        }
                    }
                    lemma_find_attr_absent(rows, g);
                }
            }
        }
        h
    }

    /// Moves the registration of `handle` from `old_path` to `new_path` in
    /// one step: afterwards `new_path` maps to `handle`, `old_path` maps to
    /// nothing, and every other path and every attribute record stands as it
    /// was. The new path must be free (or the old one again), so the
    /// bijection survives; the root row is never moved.
    pub fn rename(&mut self, old_path: &str, new_path: String, handle: u64)
        requires
            old(self).wf(),
            old(self).spec_resolve(old_path@) == Some(handle),
            handle != ROOT_HANDLE,
            old(self).spec_resolve(new_path@) is None || new_path@ == old_path@,
        ensures
            final(self).wf(),
            final(self).spec_next() == old(self).spec_next(),
            final(self).spec_resolve(new_path@) == Some(handle),
            old_path@ != new_path@ ==> final(self).spec_resolve(old_path@) is None,
            forall|q: Seq<char>|
                q != old_path@ && q != new_path@ ==> final(self).spec_resolve(q) == old(
                    self,
                ).spec_resolve(q),
            forall|g: u64| final(self).spec_attr(g) == old(self).spec_attr(g),
    {
        let ghost rows0 = self.rows();
        let ghost po = old_path@;
        let ghost pn = new_path@;
        let i = match self.index_of_path(old_path) {
            Some(i) => i,
            None => {
                proof {
                    assert(false);
                }
                return ;
            },
        };
        proof {
            lemma_find_handle_index(rows0, pn);
            if i == 0 {
                lemma_find_handle_at(rows0, root_path(), 0);
            }
        }
        self.entries[i].path = new_path;
        proof {
            let rows = self.rows();
            assert(rows[i as int].path@ == pn);
            assert(rows[i as int].handle == handle);
            assert forall|k: int| 0 <= k < rows.len() && k != i implies rows[k] == rows0[k] by {}
            assert(paths_distinct(rows)) by {
                assert forall|a: int, b: int| 0 <= a < b < rows.len() implies #[trigger] rows[
                    a
                ].path@ != #[trigger] rows[b].path@ by {
                    if a != i && b != i {
                        assert(rows[a] == rows0[a]);
                        assert(rows[b] == rows0[b]);
                    } else if a == i {
                        assert(rows[b] == rows0[b]);
                        assert(rows0[i as int].path@ == po);
                    } else {
                        assert(rows[a] == rows0[a]);
                        assert(rows0[i as int].path@ == po);
                    }
                }
            }
            assert(handles_distinct(rows)) by {
                assert forall|a: int, b: int| 0 <= a < b < rows.len() implies #[trigger] rows[
                    a
                ].handle != #[trigger] rows[b].handle by {
                    assert(rows[a].handle == rows0[a].handle);
                    assert(rows[b].handle == rows0[b].handle);
                }
            }
            lemma_find_handle_at(rows, pn, i as int);
            if po != pn {
                assert forall|k: int| 0 <= k < rows.len() implies #[trigger] rows[k].path@
                    != po by {
                    if k != i {
                        assert(rows[k] == rows0[k]);
                    }
                }
                lemma_find_handle_absent(rows, po);
            }
            assert forall|q: Seq<char>| q != po && q != pn implies final(self).spec_resolve(q)
                == old(self).spec_resolve(q) by {
                lemma_find_handle_index(rows0, q);
                if old(self).spec_resolve(q) is Some {
                    let k = choose|k: int|
                        0 <= k < rows0.len() && rows0[k].path@ == q && rows0[k].handle
                            == find_handle(rows0, q)->0;
                    assert(k != i);
                    assert(rows[k] == rows0[k]);
                    lemma_find_handle_at(rows, q, k);
                } else {
                    assert forall|k: int| 0 <= k < rows.len() implies #[trigger] rows[k].path@
                        != q by {
                        if k != i {
                            assert(rows[k] == rows0[k]);
                        }
                    }
                    lemma_find_handle_absent(rows, q);
                }
            }
            assert forall|g: u64| final(self).spec_attr(g) == old(self).spec_attr(g) by {
                lemma_find_attr_index(rows0, g);
                if old(self).spec_attr(g) is Some {
                    let k = choose|k: int|
                        0 <= k < rows0.len() && rows0[k].handle == g && rows0[k].attr == find_attr(
                            rows0,
                            g,
                        )->0;
                    assert(rows[k].handle == g);
                    assert(rows[k].attr == rows0[k].attr);
                    lemma_find_attr_at(rows, g, k);
                } else {
                    assert forall|k: int| 0 <= k < rows.len() implies #[trigger] rows[k].handle
                        != g by {
                        assert(rows[k].handle == rows0[k].handle);
                    }
                    lemma_find_attr_absent(rows, g);
                }
            }
        }
    }

    /// Replaces the attribute record of `handle`, touching no path mapping
    /// and no other record. Answers whether `handle` was known; an unknown
    /// handle leaves the table as it was.
    pub fn set_attributes(&mut self, handle: u64, attr: FileAttr) -> (found: bool)
        requires
            old(self).wf(),
            attr.ino == handle,
        ensures
            final(self).wf(),
            final(self).spec_next() == old(self).spec_next(),
            found <==> old(self).spec_attr(handle) is Some,
            found ==> final(self).spec_attr(handle) == Some(attr),
            !found ==> *final(self) == *old(self),
            forall|g: u64| g != handle ==> final(self).spec_attr(g) == old(self).spec_attr(g),
            forall|q: Seq<char>| final(self).spec_resolve(q) == old(self).spec_resolve(q),
    {
        let ghost rows0 = self.rows();
        let i = match self.index_of_handle(handle) {
            Some(i) => i,
            None => {
                return false;
            },
        };
        self.entries[i].attr = attr;
        proof {
            let rows = self.rows();
            assert forall|k: int| 0 <= k < rows.len() && k != i implies rows[k] == rows0[k] by {}
            assert forall|k: int| 0 <= k < rows.len() implies #[trigger] rows[k].path@ == rows0[
                k
            ].path@ && #[trigger] rows[k].handle == rows0[k].handle by {
                if k != i {
                    assert(rows[k] == rows0[k]);
                }
            }
            lemma_find_attr_at(rows, handle, i as int);
            assert forall|g: u64| g != handle implies final(self).spec_attr(g) == old(
                self,
            ).spec_attr(g) by {
                lemma_find_attr_index(rows0, g);
                if old(self).spec_attr(g) is Some {
                    let k = choose|k: int|
                        0 <= k < rows0.len() && rows0[k].handle == g && rows0[k].attr == find_attr(
                            rows0,
                            g,
                        )->0;
                    assert(k != i);
                    assert(rows[k] == rows0[k]);
                    lemma_find_attr_at(rows, g, k);
                } else {
                    lemma_find_attr_absent(rows, g);
                }
            }
            assert forall|q: Seq<char>| final(self).spec_resolve(q) == old(self).spec_resolve(
                q,
            ) by {
                lemma_find_handle_index(rows0, q);
                if old(self).spec_resolve(q) is Some {
                    let k = choose|k: int|
                        0 <= k < rows0.len() && rows0[k].path@ == q && rows0[k].handle
                            == find_handle(rows0, q)->0;
                    lemma_find_handle_at(rows, q, k);
                } else {
                    lemma_find_handle_absent(rows, q);
                }
            }
        }
        true
    }

    /// The table is a bijection: a handle reached by two paths is reached by
    /// one, every registered path's handle carries an attribute record, and
    /// an attribute record exists exactly for the handles some path reaches.
    pub proof fn lemma_bijection(self)
        requires
            self.wf(),
        ensures
            forall|p1: Seq<char>, p2: Seq<char>|
                #[trigger] self.spec_resolve(p1) is Some && self.spec_resolve(p1)
                    == #[trigger] self.spec_resolve(p2) ==> p1 == p2,
            forall|p: Seq<char>|
                #[trigger] self.spec_resolve(p) is Some ==> self.spec_attr(
                    self.spec_resolve(p)->0,
                ) is Some,
            forall|h: u64|
                (#[trigger] self.spec_attr(h) is Some) <==> (exists|p: Seq<char>|
                    #[trigger] self.spec_resolve(p) == Some(h)),
    {
        let rows = self.rows();
        assert forall|p1: Seq<char>, p2: Seq<char>|
            #[trigger] self.spec_resolve(p1) is Some && self.spec_resolve(p1)
                == #[trigger] self.spec_resolve(p2) implies p1 == p2 by {
            lemma_find_handle_index(rows, p1);
            lemma_find_handle_index(rows, p2);
            let i1 = choose|i: int|
                0 <= i < rows.len() && rows[i].path@ == p1 && rows[i].handle == find_handle(
                    rows,
                    p1,
                )->0;
            let i2 = choose|i: int|
                0 <= i < rows.len() && rows[i].path@ == p2 && rows[i].handle == find_handle(
                    rows,
                    p2,
                )->0;
            assert(i1 == i2);
        }
        assert forall|p: Seq<char>| #[trigger] self.spec_resolve(p) is Some implies self.spec_attr(
            self.spec_resolve(p)->0,
        ) is Some by {
            lemma_find_handle_index(rows, p);
            let i = choose|i: int|
                0 <= i < rows.len() && rows[i].path@ == p && rows[i].handle == find_handle(
                    rows,
                    p,
                )->0;
            lemma_find_attr_at(rows, rows[i].handle, i);
        }
        assert forall|h: u64| (#[trigger] self.spec_attr(h) is Some) implies (exists|p: Seq<char>|
            #[trigger] self.spec_resolve(p) == Some(h)) by {
            lemma_find_attr_index(rows, h);
            let i = choose|i: int| 0 <= i < rows.len() && rows[i].handle == h;
            lemma_find_handle_at(rows, rows[i].path@, i);
            assert(self.spec_resolve(rows[i].path@) == Some(h));
        }
        assert forall|h: u64| (exists|p: Seq<char>| #[trigger] self.spec_resolve(p) == Some(h))
            implies self.spec_attr(h) is Some by {
            let p = choose|p: Seq<char>| #[trigger] self.spec_resolve(p) == Some(h);
            lemma_find_handle_index(rows, p);
            let i = choose|i: int|
                0 <= i < rows.len() && rows[i].path@ == p && rows[i].handle == find_handle(
                    rows,
                    p,
                )->0;
            lemma_find_attr_at(rows, h, i);
        }
    }

    /// Every attribute record names the handle it is recorded under.
    pub proof fn lemma_attr_ino(self, h: u64)
        requires
            self.wf(),
            self.spec_attr(h) is Some,
        ensures
            self.spec_attr(h)->0.ino == h,
    {
        lemma_find_attr_index(self.rows(), h);
    }

    /// The root path is registered for the root handle.
    pub proof fn lemma_root(self)
        requires
            self.wf(),
        ensures
            self.spec_resolve(root_path()) == Some(ROOT_HANDLE),
    {
        lemma_find_handle_at(self.rows(), root_path(), 0);
    }

    /// Handles are never given out twice: everything registered lies below
    /// the allocation counter, so a handle at or above it is unknown.
    pub proof fn lemma_handles_bounded(self)
        requires
            self.wf(),
        ensures
            forall|h: u64| h >= self.spec_next() ==> self.spec_attr(h) is None,
            forall|p: Seq<char>|
                #[trigger] self.spec_resolve(p) is Some ==> self.spec_resolve(p)->0
                    < self.spec_next(),
    {
        let rows = self.rows();
        assert forall|h: u64| h >= self.spec_next() implies self.spec_attr(h) is None by {
            lemma_find_attr_absent(rows, h);
        }
        assert forall|p: Seq<char>| #[trigger] self.spec_resolve(p) is Some implies
            self.spec_resolve(p)->0 < self.spec_next() by {
            lemma_find_handle_index(rows, p);
        }
    }
}

} // verus!
