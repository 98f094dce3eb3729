//! Directories and root-based path resolution.
//!
//! A directory's contents are dense fixed-size entries. Removal moves the last
//! entry into the vacated slot, so entry order is unspecified.

use vstd::prelude::*;
use vstd::string::StringSliceAdditionalSpecFns;

use crate::blockdev::{BlockDevice, BLOCK_SIZE};
use crate::fs::{spec_resize, spec_write, Fs};
use crate::layout::{
    entry_bytes, lemma_le32_bytes_of, lemma_le32_roundtrip, shown_name, spec_le32, spec_le32_bytes, splice,
    DirEntry, InodeType, DIRENT_SIZE, MAX_FILE_SIZE, NAME_MAX,
};
use vstd::utf8::valid_utf8;

verus! {

/// How many whole entries directory contents `c` hold.
pub open spec fn entry_count(c: Seq<u8>) -> int {
    c.len() as int / DIRENT_SIZE as int
}

/// The inode that entry `k` of `c` names.
pub open spec fn entry_inode(c: Seq<u8>, k: int) -> u32 {
    spec_le32(c, DIRENT_SIZE * k)
}

/// The name that entry `k` of `c` shows: its stored bytes, clamped to
/// [`NAME_MAX`], or the empty name if they are not valid UTF-8.
pub open spec fn entry_name(c: Seq<u8>, k: int) -> Seq<u8> {
    let at = DIRENT_SIZE * k;
    let len = c[at + 4];
    let n = if len > NAME_MAX { NAME_MAX as int } else { len as int };
    shown_name(c.subrange(at + 5, at + 5 + n))
}

/// The first entry of `c` at or after `k` that shows `name`.
pub open spec fn find_from(c: Seq<u8>, name: Seq<u8>, k: int) -> Option<int>
    decreases entry_count(c) - k,
{
    if k < 0 || k >= entry_count(c) {
        None
    } else if entry_name(c, k) == name {
        Some(k)
    } else {
        find_from(c, name, k + 1)
    }
}

/// The first entry of `c` that shows `name`.
pub open spec fn dir_find(c: Seq<u8>, name: Seq<u8>) -> Option<int> {
    find_from(c, name, 0)
}

/// The inode that `name` names in directory contents `c`.
pub open spec fn dir_lookup_spec(c: Seq<u8>, name: Seq<u8>) -> Option<u32> {
    match dir_find(c, name) {
        Some(k) => Some(entry_inode(c, k)),
        None => None,
    }
}

/// A name an entry may hold: not empty, at most [`NAME_MAX`] bytes, and without `/`.
pub open spec fn spec_valid_name(name: Seq<u8>) -> bool {
    &&& 0 < name.len() <= NAME_MAX
    &&& forall|i: int| 0 <= i < name.len() ==> #[trigger] name[i] != 47u8
}

/// A name is valid exactly when it is not empty, has at most [`NAME_MAX`] bytes and
/// holds no `/`; any other byte, a leading `.` included, is allowed.
pub proof fn lemma_valid_name_exact(name: Seq<u8>)
    ensures
        spec_valid_name(name) == (0 < name.len() <= NAME_MAX && forall|i: int|
            0 <= i < name.len() ==> #[trigger] name[i] != 47u8),
{
}

/// Directory contents `c` after removing entry `slot`: the last entry moves into
/// its place, and the contents shrink by one entry.
pub open spec fn dir_removed(c: Seq<u8>, slot: int) -> Seq<u8> {
    let last = entry_count(c) - 1;
    Seq::new(
        (DIRENT_SIZE * last) as nat,
        |p: int|
            if DIRENT_SIZE * slot <= p < DIRENT_SIZE * slot + DIRENT_SIZE {
                c[p - DIRENT_SIZE * slot + DIRENT_SIZE * last]
            } else {
                c[p]
            },
    )
}

/// Index of the first `/` of path `p` at or after `i`, or `p`'s length if none.
pub open spec fn next_slash(p: Seq<u8>, i: int) -> int
    decreases p.len() - i,
{
    if i < 0 || i >= p.len() {
        p.len() as int
    } else if p[i] == 47u8 {
        i
    } else {
        next_slash(p, i + 1)
    }
}

/// `next_slash` lies between `i` and the end, past `i` when `p[i]` is no `/`, and
/// nothing before it from `i` on is a `/`.
pub proof fn lemma_next_slash(p: Seq<u8>, i: int)
    requires
        0 <= i <= p.len(),
    ensures
        i <= next_slash(p, i) <= p.len(),
        i < p.len() && p[i] != 47u8 ==> i < next_slash(p, i),
        next_slash(p, i) < p.len() ==> p[next_slash(p, i)] == 47u8,
        forall|j: int| i <= j < next_slash(p, i) ==> #[trigger] p[j] != 47u8,
    decreases p.len() - i,
{
    if i < p.len() && p[i] != 47u8 {
        lemma_next_slash(p, i + 1);
    }
}

/// What `find_from` finds: the first matching entry from `k` on, or none at all.
pub proof fn lemma_find_from(c: Seq<u8>, name: Seq<u8>, k: int)
    requires
        0 <= k,
    ensures
        match find_from(c, name, k) {
            Some(j) => {
                &&& k <= j < entry_count(c)
                &&& entry_name(c, j) == name
                &&& forall|i: int| k <= i < j ==> #[trigger] entry_name(c, i) != name
            },
            None => forall|i: int| k <= i < entry_count(c) ==> #[trigger] entry_name(c, i) != name,
        },
    decreases entry_count(c) - k,
{
    if k < entry_count(c) && entry_name(c, k) != name {
        lemma_find_from(c, name, k + 1);
    }
}

/// Moving the last entry of `c` into `slot` and cutting the contents back by one
/// entry gives `dir_removed(c, slot)`.
pub proof fn lemma_dir_removed(c: Seq<u8>, slot: int)
    requires
        0 <= slot < entry_count(c),
    ensures
        ({
            let last = entry_count(c) - 1;
            let moved = c.subrange(DIRENT_SIZE * last, DIRENT_SIZE * last + DIRENT_SIZE);
            &&& slot != last ==> spec_resize(spec_write(c, DIRENT_SIZE * slot, moved), DIRENT_SIZE * last)
                == dir_removed(c, slot)
            &&& slot == last ==> spec_resize(c, DIRENT_SIZE * last) == dir_removed(c, slot)
        }),
{
    let last = entry_count(c) - 1;
    let moved = c.subrange(DIRENT_SIZE * last, DIRENT_SIZE * last + DIRENT_SIZE);
    assert(DIRENT_SIZE * entry_count(c) <= c.len());
    if slot != last {
        assert(spec_resize(spec_write(c, DIRENT_SIZE * slot, moved), DIRENT_SIZE * last) =~= dir_removed(c, slot));
    } else {
        assert(spec_resize(c, DIRENT_SIZE * last) =~= dir_removed(c, slot));
    }
}

/// At most one entry of directory contents `c` shows `name`.
pub open spec fn shown_once(c: Seq<u8>, name: Seq<u8>) -> bool {
    forall|i: int, j: int|
        #![trigger entry_name(c, i), entry_name(c, j)]
        0 <= i < entry_count(c) && 0 <= j < entry_count(c) && entry_name(c, i) == name && entry_name(c, j)
            == name ==> i == j
}

/// Looking a name up in contents `d` that keep the first entries of `c` and hold one
/// more: the first match among the kept entries, else the extra entry if it matches.
proof fn lemma_find_appended(c: Seq<u8>, d: Seq<u8>, nm: Seq<u8>, k: int)
    requires
        0 <= k,
        entry_count(d) == entry_count(c) + 1,
        forall|i: int| 0 <= i < entry_count(c) ==> #[trigger] entry_name(d, i) == entry_name(c, i),
    ensures
        find_from(d, nm, k) == match find_from(c, nm, k) {
            Some(j) => Some(j),
            None => if k <= entry_count(c) && entry_name(d, entry_count(c)) == nm {
                Some(entry_count(c))
            } else {
                None
            },
        },
    decreases entry_count(d) - k,
{
    if k < entry_count(c) {
        assert(entry_name(d, k) == entry_name(c, k));
        if entry_name(c, k) != nm {
            lemma_find_appended(c, d, nm, k + 1);
        }
    } else if k == entry_count(c) {
        assert(find_from(d, nm, k + 1) is None);
    }
}

/// A name that exactly entry `j` of `c` shows is found there.
proof fn lemma_find_only(c: Seq<u8>, nm: Seq<u8>, j: int)
    requires
        0 <= j < entry_count(c),
        entry_name(c, j) == nm,
        forall|i: int| 0 <= i < entry_count(c) && i != j ==> #[trigger] entry_name(c, i) != nm,
    ensures
        dir_find(c, nm) == Some(j),
{
    lemma_find_from(c, nm, 0);
}

/// A name no entry of `c` shows is found nowhere.
proof fn lemma_find_none(c: Seq<u8>, nm: Seq<u8>)
    requires
        forall|i: int| 0 <= i < entry_count(c) ==> #[trigger] entry_name(c, i) != nm,
    ensures
        dir_find(c, nm) is None,
{
    lemma_find_from(c, nm, 0);
}

/// Appending the entry for `name` to directory contents `c` in which no entry shows
/// `name` makes `name` name `id`, and leaves every other name naming what it did.
pub proof fn lemma_lookup_after_append(c: Seq<u8>, name: Seq<u8>, id: u32)
    requires
        spec_valid_name(name),
        valid_utf8(name),
        dir_lookup_spec(c, name) is None,
    ensures
        dir_lookup_spec(spec_write(c, DIRENT_SIZE * entry_count(c), entry_bytes(id, name)), name) == Some(id),
        dir_find(spec_write(c, DIRENT_SIZE * entry_count(c), entry_bytes(id, name)), name) == Some(entry_count(c)),
        entry_count(spec_write(c, DIRENT_SIZE * entry_count(c), entry_bytes(id, name))) == entry_count(c) + 1,
        c.len() == DIRENT_SIZE * entry_count(c) ==> dir_removed(
            spec_write(c, DIRENT_SIZE * entry_count(c), entry_bytes(id, name)),
            entry_count(c),
        ) == c,
        forall|other: Seq<u8>|
            other != name ==> #[trigger] dir_lookup_spec(
                spec_write(c, DIRENT_SIZE * entry_count(c), entry_bytes(id, name)),
                other,
            ) == dir_lookup_spec(c, other),
{
    let n = entry_count(c);
    let at = DIRENT_SIZE * n;
    let eb = entry_bytes(id, name);
    let d = spec_write(c, at, eb);
    assert(eb.len() == DIRENT_SIZE);
    assert(at <= c.len() < at + DIRENT_SIZE);
    assert(d.len() == at + DIRENT_SIZE);
    assert(entry_count(d) == n + 1);
    assert forall|i: int| 0 <= i < n implies #[trigger] entry_name(d, i) == entry_name(c, i)
        && entry_inode(d, i) == entry_inode(c, i) by {
        let p = DIRENT_SIZE * i;
        assert(p + DIRENT_SIZE <= at);
        assert(d[p + 4] == c[p + 4]);
        let len = c[p + 4];
        let m = if len > NAME_MAX { NAME_MAX as int } else { len as int };
        assert(d.subrange(p + 5, p + 5 + m) =~= c.subrange(p + 5, p + 5 + m));
        assert(d[p] == c[p] && d[p + 1] == c[p + 1] && d[p + 2] == c[p + 2] && d[p + 3] == c[p + 3]);
    }
    assert(d[at + 4] == name.len() as u8);
    assert(d.subrange(at + 5, at + 5 + name.len()) =~= name);
    assert(entry_name(d, n) == name);
    assert(splice(d, at, spec_le32_bytes(id)) =~= d);
    lemma_le32_roundtrip(d, at, id);
    assert(entry_inode(d, n) == id);
    lemma_find_appended(c, d, name, 0);
    if c.len() == at {
        assert(dir_removed(d, n) =~= c);
    }
    assert forall|other: Seq<u8>| other != name implies #[trigger] dir_lookup_spec(d, other) == dir_lookup_spec(
        c,
        other,
    ) by {
        lemma_find_appended(c, d, other, 0);
        lemma_find_from(c, other, 0);
    }
}

/// Removing entry `slot` of directory contents `c`, when no other entry shows its
/// name, leaves that name naming nothing; every other name that at most one entry
/// of `c` shows still names what it did.
pub proof fn lemma_lookup_after_removed_entry(c: Seq<u8>, slot: int)
    requires
        0 <= slot < entry_count(c),
        shown_once(c, entry_name(c, slot)),
    ensures
        dir_lookup_spec(dir_removed(c, slot), entry_name(c, slot)) is None,
        forall|other: Seq<u8>|
            other != entry_name(c, slot) && shown_once(c, other) ==> #[trigger] dir_lookup_spec(
                dir_removed(c, slot),
                other,
            ) == dir_lookup_spec(c, other),
{
    let last = entry_count(c) - 1;
    let d = dir_removed(c, slot);
    let nm = entry_name(c, slot);
    assert(DIRENT_SIZE * entry_count(c) <= c.len());
    assert(entry_count(d) == last);
    assert forall|i: int| 0 <= i < last implies #[trigger] entry_name(d, i) == entry_name(
        c,
        if i == slot { last } else { i },
    ) && entry_inode(d, i) == entry_inode(c, if i == slot { last } else { i }) by {
        let src = if i == slot { last } else { i };
        let p = DIRENT_SIZE * i;
        let q = DIRENT_SIZE * src;
        assert forall|j: int| 0 <= j < DIRENT_SIZE implies #[trigger] d[p + j] == c[q + j] by {}
        assert(d[p + 4] == c[q + 4]);
        let len = c[q + 4];
        let m = if len > NAME_MAX { NAME_MAX as int } else { len as int };
        assert(d.subrange(p + 5, p + 5 + m) =~= c.subrange(q + 5, q + 5 + m));
        assert(d[p] == c[q] && d[p + 1] == c[q + 1] && d[p + 2] == c[q + 2] && d[p + 3] == c[q + 3]);
    }
    assert forall|i: int| 0 <= i < last implies #[trigger] entry_name(d, i) != nm by {
        let src = if i == slot { last } else { i };
        assert(entry_name(d, i) == entry_name(c, src));
        assert(entry_name(c, slot) == nm);
    }
    lemma_find_none(d, nm);
    assert forall|other: Seq<u8>| other != nm && shown_once(c, other) implies #[trigger] dir_lookup_spec(
        d,
        other,
    ) == dir_lookup_spec(c, other) by {
        lemma_find_from(c, other, 0);
        match dir_find(c, other) {
            Some(j) => {
                let at = if j == last { slot } else { j };
                assert(j != slot);
                assert(entry_name(d, at) == other);
                assert forall|i: int| 0 <= i < last && i != at implies #[trigger] entry_name(d, i) != other by {
                    let src = if i == slot { last } else { i };
                    assert(entry_name(d, i) == entry_name(c, src));
                    assert(entry_name(c, j) == other);
                    assert(src != j);
                }
                lemma_find_only(d, other, at);
                assert(entry_inode(d, at) == entry_inode(c, j));
            },
            None => {
                assert forall|i: int| 0 <= i < last implies #[trigger] entry_name(d, i) != other by {
                    let src = if i == slot { last } else { i };
                    assert(entry_name(d, i) == entry_name(c, src));
                }
                lemma_find_none(d, other);
            },
        }
    }
}

/// Whether `name` may be an entry's name.
fn valid_name(name: &[u8]) -> (r: bool)
    ensures
        r == spec_valid_name(name@),
        r == (0 < name@.len() <= NAME_MAX && forall|i: int| 0 <= i < name@.len() ==> #[trigger] name@[i] != 47u8),
{
    let n = name.len();
    if n == 0 || n > NAME_MAX {
        return false;
    }
    let mut i: usize = 0;
    while i < n
        invariant
            i <= n,
            n == name@.len(),
            forall|j: int| 0 <= j < i ==> #[trigger] name@[j] != 47u8,
        decreases n - i,
    {
        if name[i] == 47u8 {
            return false;
        }
        i = i + 1;
    }
    true
}

/// Whether two byte strings are equal.
fn bytes_eq(a: &[u8], b: &[u8]) -> (r: bool)
    ensures
        r == (a@ == b@),
{
    if a.len() != b.len() {
        return false;
    }
    let n = a.len();
    let mut i: usize = 0;
    while i < n
        invariant
            i <= n,
            n == a@.len(),
            n == b@.len(),
            forall|j: int| 0 <= j < i ==> #[trigger] a@[j] == b@[j],
        decreases n - i,
    {
        if a[i] != b[i] {
            return false;
        }
        i = i + 1;
    }
    assert(a@ =~= b@);
    true
}

/// The bytes of an entry for `inode` named `name`.
fn entry_record(inode: u32, name: &[u8]) -> (r: Vec<u8>)
    requires
        name@.len() <= NAME_MAX,
    ensures
        r@ == entry_bytes(inode, name@),
{
    let e = DirEntry::from_name_bytes(inode, name);
    let mut v: Vec<u8> = vec![0u8; DIRENT_SIZE];
    e.encode(&mut v, 0);
    proof {
        lemma_le32_bytes_of(v@, 0);
        assert(e.spec_name_bytes() =~= name@);
        assert forall|j: int| 0 <= j < name@.len() implies #[trigger] v@[5 + j] == name@[j] by {
            assert(e.name@[j] == v@[5 + j]);
            assert(e.name@.take(e.name_len as int)[j] == name@[j]);
        }
        assert forall|j: int| name@.len() <= j < NAME_MAX implies #[trigger] v@[5 + j] == 0 by {
            assert(e.name@[j] == v@[5 + j]);
        }
        let eb = entry_bytes(inode, name@);
        assert(spec_le32(v@, 0) == inode);
        assert(eb.len() == 32);
        assert forall|j: int| 0 <= j < 32 implies #[trigger] v@[j] == eb[j] by {
            if j < 4 {
                assert(v@.subrange(0, 4)[j] == v@[j]);
            } else if j == 4 {
            } else if j < 5 + name@.len() {
                assert(v@[5 + (j - 5)] == name@[j - 5]);
            } else {
                assert(v@[5 + (j - 5)] == 0);
            }
        }
        assert(v@ =~= eb);
    }
    v
}

impl<D: BlockDevice> Fs<D> {
    /// How many entries directory `dir` holds.
    fn entry_count(&mut self, dir: u32) -> (r: usize)
        requires
            old(self).inv(),
            old(self).live(dir as int),
        ensures
            final(self).inv(),
            final(self).view() == old(self).view(),
            final(self).spec_sb() == old(self).spec_sb(),
            r == entry_count(old(self).contents(dir as int)),
    {
        self.inode_size(dir) / DIRENT_SIZE
    }

    /// Entry `idx` of directory `dir`.
    fn read_entry(&mut self, dir: u32, idx: usize) -> (r: DirEntry)
        requires
            old(self).inv(),
            old(self).live(dir as int),
            idx < entry_count(old(self).contents(dir as int)),
        ensures
            final(self).inv(),
            final(self).view() == old(self).view(),
            final(self).spec_sb() == old(self).spec_sb(),
            r.encoded_at(old(self).contents(dir as int), DIRENT_SIZE * idx),
    {
        let ghost c = self.contents(dir as int);
        let mut buf: Vec<u8> = vec![0u8; DIRENT_SIZE];
        let off = idx * DIRENT_SIZE;
        let _n = self.read_at(dir, off, buf.as_mut_slice());
        let e = DirEntry::decode(buf.as_slice(), 0);
        proof {
            assert forall|j: int| 0 <= j < DIRENT_SIZE implies #[trigger] buf@[j] == c[off + j] by {}
            assert(spec_le32(buf@, 0) == spec_le32(c, off as int));
            assert forall|k: int| 0 <= k < NAME_MAX implies #[trigger] e.name@[k] == c[off + 5 + k] by {
                assert(buf@[5 + k] == c[off + 5 + k]);
            }
        }
        e
    }

    /// The first entry of directory `dir` whose name is `name`, with its index.
    fn find_entry(&mut self, dir: u32, name: &[u8]) -> (r: Option<(usize, DirEntry)>)
        requires
            old(self).inv(),
            old(self).live(dir as int),
        ensures
            final(self).inv(),
            final(self).view() == old(self).view(),
            final(self).spec_sb() == old(self).spec_sb(),
            match r {
                Some((k, e)) => {
                    &&& dir_find(old(self).contents(dir as int), name@) == Some(k as int)
                    &&& e.encoded_at(old(self).contents(dir as int), DIRENT_SIZE * k)
                },
                None => dir_find(old(self).contents(dir as int), name@) is None,
            },
    {
        let ghost c = self.contents(dir as int);
        let count = self.entry_count(dir);
        let mut k: usize = 0;
        proof {
            lemma_find_from(c, name@, 0);
        }
        while k < count
            invariant
                self.inv(),
                self.view() == old(self).view(),
                self.spec_sb() == old(self).spec_sb(),
                self.live(dir as int),
                c == self.contents(dir as int),
                count == entry_count(c),
                k <= count,
                find_from(c, name@, 0) == find_from(c, name@, k as int),
            decreases count - k,
        {
            let e = self.read_entry(dir, k);
            let shown = e.name();
            proof {
                let at = DIRENT_SIZE * k;
                assert(e.spec_name_bytes() =~= c.subrange(at + 5, at + 5 + if c[at + 4] > NAME_MAX {
                    NAME_MAX as int
                } else {
                    c[at + 4] as int
                }));
            }
            if bytes_eq(shown.as_bytes(), name) {
                return Some((k, e));
            }
            k = k + 1;
        }
        None
    }

    /// The inode that `name` names in directory `dir`, if any.
    pub fn dir_lookup(&mut self, dir: u32, name: &str) -> (r: Option<u32>)
        requires
            old(self).inv(),
            old(self).live(dir as int),
            old(self).raw_kind(dir as int) == InodeType::Dir.spec_as_raw(),
        ensures
            final(self).inv(),
            final(self).view() == old(self).view(),
            final(self).spec_sb() == old(self).spec_sb(),
            r == dir_lookup_spec(old(self).contents(dir as int), name.spec_bytes()),
    {
        self.lookup_bytes(dir, name.as_bytes())
    }

    /// The inode that the name with bytes `name` names in directory `dir`, if any.
    fn lookup_bytes(&mut self, dir: u32, name: &[u8]) -> (r: Option<u32>)
        requires
            old(self).inv(),
            old(self).live(dir as int),
        ensures
            final(self).inv(),
            final(self).view() == old(self).view(),
            final(self).spec_sb() == old(self).spec_sb(),
            r == dir_lookup_spec(old(self).contents(dir as int), name@),
    {
        match self.find_entry(dir, name) {
            Some((_k, e)) => Some(e.inode),
            None => None,
        }
    }

    /// Every entry of directory `dir`, in the order they are stored.
    pub fn dir_list(&mut self, dir: u32) -> (r: Vec<DirEntry>)
        requires
            old(self).inv(),
            old(self).live(dir as int),
            old(self).raw_kind(dir as int) == InodeType::Dir.spec_as_raw(),
        ensures
            final(self).inv(),
            final(self).view() == old(self).view(),
            final(self).spec_sb() == old(self).spec_sb(),
            r@.len() == entry_count(old(self).contents(dir as int)),
            forall|k: int|
                0 <= k < r@.len() ==> #[trigger] r@[k].encoded_at(old(self).contents(dir as int), DIRENT_SIZE * k),
    {
        let ghost c = self.contents(dir as int);
        let count = self.entry_count(dir);
        let mut out: Vec<DirEntry> = Vec::new();
        let mut k: usize = 0;
        while k < count
            invariant
                self.inv(),
                self.view() == old(self).view(),
                self.spec_sb() == old(self).spec_sb(),
                self.live(dir as int),
                c == self.contents(dir as int),
                count == entry_count(c),
                k <= count,
                out@.len() == k,
                forall|j: int| 0 <= j < k ==> #[trigger] out@[j].encoded_at(c, DIRENT_SIZE * j),
            decreases count - k,
        {
            let e = self.read_entry(dir, k);
            out.push(e);
            k = k + 1;
        }
        out
    }

    /// Whether directory `dir` holds no entries.
    pub fn dir_is_empty(&mut self, dir: u32) -> (r: bool)
        requires
            old(self).inv(),
            old(self).live(dir as int),
            old(self).raw_kind(dir as int) == InodeType::Dir.spec_as_raw(),
        ensures
            final(self).inv(),
            final(self).view() == old(self).view(),
            final(self).spec_sb() == old(self).spec_sb(),
            r == (old(self).contents(dir as int).len() == 0),
    {
        self.inode_size(dir) == 0
    }
}

impl<D: BlockDevice> Fs<D> {
    /// What creating `name` of kind `kind` in directory `dir` of `old` leaves in
    /// `self` when it returns `r`: on success the lowest free inode, empty, of that
    /// kind and with one link, named by a new last entry of `dir`; otherwise no file
    /// changed, because the name is invalid or taken, every inode is in use, the
    /// directory is at its size limit, or no data block is left for the entry.
    pub open spec fn create_outcome(&self, old: &Self, dir: int, name: Seq<u8>, kind: InodeType, r: Option<u32>) -> bool {
        let c = old.contents(dir);
        match r {
            Some(id) => {
                &&& spec_valid_name(name)
                &&& dir_lookup_spec(c, name) is None
                &&& id < old.spec_sb().ninodes
                &&& !old.live(id as int)
                &&& forall|j: int| 0 <= j < id ==> old.live(j)
                &&& forall|i: int| #[trigger] self.live(i) == (old.live(i) || i == id)
                &&& self.contents(dir) == spec_write(c, DIRENT_SIZE * entry_count(c), entry_bytes(id, name))
                &&& self.contents(id as int) == Seq::<u8>::empty()
                &&& self.raw_kind(id as int) == kind.spec_as_raw()
                &&& self.links(id as int) == 1
                &&& forall|i: int| old.live(i) && i != dir ==> #[trigger] self.contents(i) == old.contents(i)
                &&& forall|i: int|
                    old.live(i) ==> #[trigger] self.raw_kind(i) == old.raw_kind(i) && self.links(i) == old.links(i)
            },
            None => {
                &&& self.same_files_as(old)
                &&& {
                    ||| !spec_valid_name(name)
                    ||| dir_lookup_spec(c, name) is Some
                    ||| forall|i: int| 0 <= i < old.spec_sb().ninodes ==> old.live(i)
                    ||| DIRENT_SIZE * entry_count(c) + DIRENT_SIZE > MAX_FILE_SIZE
                    ||| self.is_data_full()
                }
            },
        }
    }

    /// Writes `rec`, one entry's bytes, as entry `idx` of directory `dir`. Fails,
    /// changing no file, only when no data block is left for it.
    fn write_entry(&mut self, dir: u32, idx: usize, rec: &[u8]) -> (r: bool)
        requires
            old(self).inv(),
            old(self).live(dir as int),
            rec@.len() == DIRENT_SIZE,
            DIRENT_SIZE * idx + DIRENT_SIZE <= MAX_FILE_SIZE,
        ensures
            final(self).inv(),
            final(self).spec_sb() == old(self).spec_sb(),
            forall|i: int| #[trigger] final(self).live(i) == old(self).live(i),
            forall|i: int| old(self).live(i) && i != dir ==> #[trigger] final(self).contents(i) == old(self).contents(i),
            forall|i: int|
                old(self).live(i) ==> #[trigger] final(self).raw_kind(i) == old(self).raw_kind(i)
                    && final(self).links(i) == old(self).links(i),
            forall|i: int|
                old(self).live(i) && i != dir && old(self).holds_no_blocks(i) ==> #[trigger] final(self).holds_no_blocks(i),
            r ==> final(self).contents(dir as int) == spec_write(old(self).contents(dir as int), DIRENT_SIZE * idx, rec@),
            !r ==> final(self).contents(dir as int) == old(self).contents(dir as int) && final(self).is_data_full()
                && !final(self).has_block(dir as int, DIRENT_SIZE * idx / BLOCK_SIZE as int),
    {
        let off = idx * DIRENT_SIZE;
        proof {
            vstd::arithmetic::div_mod::lemma_fundamental_div_mod(idx as int, 16);
            let q = idx as int / 16;
            let m = idx as int % 16;
            vstd::arithmetic::div_mod::lemma_fundamental_div_mod_converse(off as int, 512, q, 32 * m);
        }
        let n = self.write_at(dir, off, rec);
        proof {
            if n == 0 {
                assert(rec@.take(0) =~= Seq::<u8>::empty());
            } else {
                assert(rec@.take(n as int) =~= rec@);
            }
        }
        n == DIRENT_SIZE
    }

    /// Creates `name` of kind `kind` in directory `dir`, returning the new inode;
    /// `None` if the name is invalid or taken, or no inode or data block is free.
    pub fn create(&mut self, dir: u32, name: &str, kind: InodeType) -> (r: Option<u32>)
        requires
            old(self).inv(),
            old(self).live(dir as int),
            old(self).raw_kind(dir as int) == InodeType::Dir.spec_as_raw(),
        ensures
            final(self).inv(),
            final(self).spec_sb() == old(self).spec_sb(),
            final(self).create_outcome(old(self), dir as int, name.spec_bytes(), kind, r),
            r is Some ==> 0 < name.spec_bytes().len() <= NAME_MAX && forall|i: int|
                0 <= i < name.spec_bytes().len() ==> #[trigger] name.spec_bytes()[i] != 47u8,
            ({
                let c = old(self).contents(dir as int);
                let nm = name.spec_bytes();
                &&& 0 < nm.len() <= NAME_MAX
                &&& (forall|i: int| 0 <= i < nm.len() ==> #[trigger] nm[i] != 47u8)
                &&& dir_lookup_spec(c, nm) is None
                &&& (exists|i: int| 0 <= i < old(self).spec_sb().ninodes && !#[trigger] old(self).live(i))
                &&& DIRENT_SIZE * entry_count(c) + DIRENT_SIZE <= MAX_FILE_SIZE
            }) ==> r is Some || final(self).is_data_full(),
    {
        self.create_bytes(dir, name.as_bytes(), kind)
    }

    /// [`Fs::create`] for a name given by its bytes.
    #[verifier::spinoff_prover]
    pub(crate) fn create_bytes(&mut self, dir: u32, name: &[u8], kind: InodeType) -> (r: Option<u32>)
        requires
            old(self).inv(),
            old(self).live(dir as int),
        ensures
            final(self).inv(),
            final(self).spec_sb() == old(self).spec_sb(),
            final(self).create_outcome(old(self), dir as int, name@, kind, r),
    {
        let ghost f0 = *self;
        if !valid_name(name) {
            proof {
                self.lemma_same_files_refl();
            }
            return None;
        }
        let found = self.lookup_bytes(dir, name);
        proof {
            self.lemma_same_files_from_view(&f0);
        }
        if found.is_some() {
            return None;
        }
        let count = self.entry_count(dir);
        proof {
            self.lemma_same_files_from_view(&f0);
            self.lemma_contents_bounded(dir as int);
        }
        if count > (MAX_FILE_SIZE - DIRENT_SIZE) / DIRENT_SIZE {
            return None;
        }
        let ghost f1 = *self;
        let r = self.create_entry(dir, name, kind, count);
        proof {
            self.lemma_create_outcome_congr(&f1, &f0, dir as int, name@, kind, r);
        }
        r
    }

    /// Allocates an inode of kind `kind` and names it `name` in a new entry `count`
    /// of directory `dir`, where `name` is valid and not yet there.
    #[verifier::spinoff_prover]
    #[verifier::rlimit(40)]
    fn create_entry(&mut self, dir: u32, name: &[u8], kind: InodeType, count: usize) -> (r: Option<u32>)
        requires
            old(self).inv(),
            old(self).live(dir as int),
            spec_valid_name(name@),
            dir_lookup_spec(old(self).contents(dir as int), name@) is None,
            count == entry_count(old(self).contents(dir as int)),
            DIRENT_SIZE * count + DIRENT_SIZE <= MAX_FILE_SIZE,
        ensures
            final(self).inv(),
            final(self).spec_sb() == old(self).spec_sb(),
            final(self).create_outcome(old(self), dir as int, name@, kind, r),
    {
        let ghost f0 = *self;
        let id = match self.alloc_inode(kind) {
            Some(id) => id,
            None => {
                proof {
                    self.lemma_same_files_from_view(&f0);
                }
                return None;
            },
        };
        let ghost f1 = *self;
        let rec = entry_record(id, name);
        let ok = self.write_entry(dir, count, rec.as_slice());
        if ok {
            proof {
                Self::lemma_create_some(self, &f0, &f1, dir as int, name@, kind, id, count as int);
            }
            Some(id)
        } else {
            let ghost f2 = *self;
            self.release_inode(id);
            proof {
                Self::lemma_create_none(self, &f0, &f1, &f2, id);
            }
            None
        }
    }

    /// Creating succeeds as `create_outcome` says once the inode is allocated and its
    /// entry written.
    #[verifier::spinoff_prover]
    proof fn lemma_create_some(
        fin: &Self,
        f0: &Self,
        f1: &Self,
        dir: int,
        name: Seq<u8>,
        kind: InodeType,
        id: u32,
        count: int,
    )
        requires
            spec_valid_name(name),
            dir_lookup_spec(f0.contents(dir), name) is None,
            count == entry_count(f0.contents(dir)),
            f0.live(dir),
            id < f0.spec_sb().ninodes,
            !f0.live(id as int),
            forall|j: int| 0 <= j < id ==> f0.live(j),
            forall|i: int| #[trigger] f1.live(i) == (f0.live(i) || i == id),
            f1.contents(id as int) == Seq::<u8>::empty(),
            f1.raw_kind(id as int) == kind.spec_as_raw(),
            f1.links(id as int) == 1,
            forall|i: int| f0.live(i) ==> #[trigger] f1.contents(i) == f0.contents(i),
            forall|i: int| f0.live(i) ==> #[trigger] f1.raw_kind(i) == f0.raw_kind(i) && f1.links(i) == f0.links(i),
            forall|i: int| #[trigger] fin.live(i) == f1.live(i),
            forall|i: int| f1.live(i) && i != dir ==> #[trigger] fin.contents(i) == f1.contents(i),
            forall|i: int|
                #![trigger fin.raw_kind(i)]
                #![trigger fin.links(i)]
                f1.live(i) ==> fin.raw_kind(i) == f1.raw_kind(i) && fin.links(i) == f1.links(i),
            fin.contents(dir) == spec_write(f1.contents(dir), DIRENT_SIZE * count, entry_bytes(id, name)),
        ensures
            fin.create_outcome(f0, dir, name, kind, Some(id)),
    {
        assert(f1.live(id as int));
        assert(fin.raw_kind(id as int) == f1.raw_kind(id as int));
        assert(fin.contents(id as int) == f1.contents(id as int));
        assert(f1.contents(dir) == f0.contents(dir));
        assert forall|i: int| #[trigger] fin.live(i) == (f0.live(i) || i == id) by {
            assert(f1.live(i) == (f0.live(i) || i == id));
        }
        assert forall|i: int| f0.live(i) && i != dir implies #[trigger] fin.contents(i) == f0.contents(i) by {
            assert(f1.live(i));
            assert(f1.contents(i) == f0.contents(i));
        }
        assert forall|i: int| f0.live(i) implies #[trigger] fin.raw_kind(i) == f0.raw_kind(i) && fin.links(i) == f0.links(i) by {
            assert(f1.live(i));
            assert(f1.raw_kind(i) == f0.raw_kind(i) && f1.links(i) == f0.links(i));
        }
    }

    /// Creating fails as `create_outcome` says once the entry could not be written
    /// and the inode was released again.
    #[verifier::spinoff_prover]
    proof fn lemma_create_none(fin: &Self, f0: &Self, f1: &Self, f2: &Self, id: u32)
        requires
            !f0.live(id as int),
            forall|i: int| #[trigger] f1.live(i) == (f0.live(i) || i == id),
            forall|i: int| f0.live(i) ==> #[trigger] f1.contents(i) == f0.contents(i),
            forall|i: int| f0.live(i) ==> #[trigger] f1.raw_kind(i) == f0.raw_kind(i) && f1.links(i) == f0.links(i),
            forall|i: int| #[trigger] f2.live(i) == f1.live(i),
            forall|i: int| f1.live(i) ==> #[trigger] f2.contents(i) == f1.contents(i),
            forall|i: int|
                #![trigger f2.raw_kind(i)]
                #![trigger f2.links(i)]
                f1.live(i) ==> f2.raw_kind(i) == f1.raw_kind(i) && f2.links(i) == f1.links(i),
            forall|i: int| #[trigger] fin.live(i) == (f2.live(i) && i != id),
            forall|i: int| f2.live(i) && i != id ==> #[trigger] fin.contents(i) == f2.contents(i),
            forall|i: int|
                f2.live(i) && i != id ==> #[trigger] fin.raw_kind(i) == f2.raw_kind(i) && fin.links(i) == f2.links(i),
        ensures
            fin.same_files_as(f0),
    {
        assert forall|i: int| #[trigger] fin.live(i) == f0.live(i) by {
            assert(f1.live(i) == (f0.live(i) || i == id));
        }
        assert forall|i: int| #![trigger fin.contents(i)] f0.live(i) implies fin.contents(i) == f0.contents(i) by {
            assert(f1.live(i));
            assert(f2.live(i));
            assert(f1.contents(i) == f0.contents(i));
            assert(f2.contents(i) == f1.contents(i));
        }
        assert forall|i: int|
            #![trigger fin.raw_kind(i)]
            #![trigger fin.links(i)]
            f0.live(i) implies fin.raw_kind(i) == f0.raw_kind(i) && fin.links(i) == f0.links(i) by {
            assert(f1.live(i));
            assert(f2.live(i));
            assert(i != id);
            assert(f1.raw_kind(i) == f0.raw_kind(i) && f1.links(i) == f0.links(i));
            assert(f2.raw_kind(i) == f1.raw_kind(i) && f2.links(i) == f1.links(i));
        }
    }

    /// Where path `p`, from byte `i` on, leads from inode `at`: empty components are
    /// skipped, and each other component must be named in the directory reached so
    /// far, which must be a directory in use.
    pub open spec fn walk(&self, at: u32, p: Seq<u8>, i: int) -> Option<u32>
        decreases p.len() - i,
    {
        if i < 0 || i >= p.len() {
            Some(at)
        } else if p[i] == 47u8 {
            self.walk(at, p, i + 1)
        } else {
            let e = next_slash(p, i);
            if !(at < self.spec_sb().ninodes && self.live(at as int) && self.raw_kind(at as int)
                == InodeType::Dir.spec_as_raw()) {
                None
            } else {
                match dir_lookup_spec(self.contents(at as int), p.subrange(i, e)) {
                    None => None,
                    Some(child) => {
                        proof {
                            lemma_next_slash(p, i);
                        }
                        self.walk(child, p, e)
                    },
                }
            }
        }
    }

    /// Where a path leads depends on the filesystem only through its disk and
    /// superblock.
    pub proof fn lemma_walk_congr(&self, other: &Self, at: u32, p: Seq<u8>, i: int)
        requires
            self.view() == other.view(),
            self.spec_sb() == other.spec_sb(),
        ensures
            self.walk(at, p, i) == other.walk(at, p, i),
        decreases p.len() - i,
    {
        self.lemma_same_files_from_view(other);
        if 0 <= i < p.len() {
            if p[i] == 47u8 {
                self.lemma_walk_congr(other, at, p, i + 1);
            } else {
                let e = next_slash(p, i);
                lemma_next_slash(p, i);
                assert(self.contents(at as int) == other.contents(at as int));
                assert(self.live(at as int) == other.live(at as int));
                assert(self.raw_kind(at as int) == other.raw_kind(at as int));
                if let Some(child) = dir_lookup_spec(self.contents(at as int), p.subrange(i, e)) {
                    self.lemma_walk_congr(other, child, p, e);
                }
            }
        }
    }

    /// The inode that `path` names, following it from the root; empty components
    /// (repeated, leading or trailing slashes) are ignored.
    pub fn resolve(&mut self, path: &str) -> (r: Option<u32>)
        requires
            old(self).inv(),
        ensures
            final(self).inv(),
            final(self).view() == old(self).view(),
            final(self).spec_sb() == old(self).spec_sb(),
            r == old(self).walk(old(self).spec_sb().root_inode, path.spec_bytes(), 0),
    {
        self.resolve_bytes(path.as_bytes())
    }

    /// [`Fs::resolve`] for a path given by its bytes.
    pub(crate) fn resolve_bytes(&mut self, p: &[u8]) -> (r: Option<u32>)
        requires
            old(self).inv(),
        ensures
            final(self).inv(),
            final(self).view() == old(self).view(),
            final(self).spec_sb() == old(self).spec_sb(),
            r == old(self).walk(old(self).spec_sb().root_inode, p@, 0),
    {
        let ghost f0 = *self;
        let n = p.len();
        let mut inode = self.root_inode();
        let mut i: usize = 0;
        while i < n
            invariant
                self.inv(),
                self.view() == f0.view(),
                self.spec_sb() == f0.spec_sb(),
                f0 == *old(self),
                n == p@.len(),
                i <= n,
                f0.walk(f0.spec_sb().root_inode, p@, 0) == f0.walk(inode, p@, i as int),
            decreases n - i,
        {
            if p[i] == 47u8 {
                i = i + 1;
            } else {
                let mut e = i;
                proof {
                    lemma_next_slash(p@, i as int);
                }
                while e < n && p[e] != 47u8
                    invariant
                        i <= e <= n,
                        n == p@.len(),
                        i < n,
                        p@[i as int] != 47u8,
                        next_slash(p@, i as int) == next_slash(p@, e as int),
                    decreases n - e,
                {
                    e = e + 1;
                }
                proof {
                    lemma_next_slash(p@, e as int);
                }
                if inode >= self.sb_ninodes() {
                    proof {
                        assert(!(inode < f0.spec_sb().ninodes));
                        assert(f0.walk(inode, p@, i as int) == None::<u32>);
                    }
                    return None;
                }
                let live = self.is_live(inode);
                if !live {
                    proof {
                        assert(!f0.live(inode as int));
                        assert(f0.walk(inode, p@, i as int) == None::<u32>);
                    }
                    return None;
                }
                match self.inode_type(inode) {
                    Some(InodeType::Dir) => {},
                    _ => {
                        return None;
                    },
                }
                let name = vstd::slice::slice_subrange(p, i, e);
                match self.lookup_bytes(inode, name) {
                    None => {
                        return None;
                    },
                    Some(child) => {
                        inode = child;
                        i = e;
                    },
                }
            }
        }
        Some(inode)
    }

    /// What linking `name` in directory `dir` to `target` in `old` leaves in `self`
    /// when it returns `r`: on success a new last entry of `dir` names `target`, whose
    /// link count grew by one; otherwise no file changed, because `target` is not a
    /// file in use or its link count is at its limit, the name is invalid or taken,
    /// the directory is at its size limit, or no data block is left for the entry.
    pub open spec fn link_outcome(&self, old: &Self, dir: int, name: Seq<u8>, target: u32, r: bool) -> bool {
        let c = old.contents(dir);
        let ok_target = target < old.spec_sb().ninodes && old.live(target as int) && old.raw_kind(target as int)
            == InodeType::File.spec_as_raw() && old.links(target as int) < u32::MAX;
        if r {
            &&& ok_target
            &&& spec_valid_name(name)
            &&& dir_lookup_spec(c, name) is None
            &&& forall|i: int| #[trigger] self.live(i) == old.live(i)
            &&& self.contents(dir) == spec_write(c, DIRENT_SIZE * entry_count(c), entry_bytes(target, name))
            &&& self.links(target as int) == old.links(target as int) + 1
            &&& forall|i: int| old.live(i) && i != dir ==> #[trigger] self.contents(i) == old.contents(i)
            &&& forall|i: int| old.live(i) ==> #[trigger] self.raw_kind(i) == old.raw_kind(i)
            &&& forall|i: int| old.live(i) && i != target ==> #[trigger] self.links(i) == old.links(i)
        } else {
            &&& self.same_files_as(old)
            &&& {
                ||| !ok_target
                ||| !spec_valid_name(name)
                ||| dir_lookup_spec(c, name) is Some
                ||| DIRENT_SIZE * entry_count(c) + DIRENT_SIZE > MAX_FILE_SIZE
                ||| self.is_data_full()
            }
        }
    }

    /// Adds a hard link `name` in directory `dir` to the file `target`. Directories
    /// cannot be linked; the name must be valid and new, and the file's link count
    /// must have room to grow.
    pub fn link(&mut self, dir: u32, name: &str, target: u32) -> (r: bool)
        requires
            old(self).inv(),
            old(self).live(dir as int),
            old(self).raw_kind(dir as int) == InodeType::Dir.spec_as_raw(),
        ensures
            final(self).inv(),
            final(self).spec_sb() == old(self).spec_sb(),
            final(self).link_outcome(old(self), dir as int, name.spec_bytes(), target, r),
    {
        self.link_bytes(dir, name.as_bytes(), target)
    }

    /// [`Fs::link`] for a name given by its bytes.
    #[verifier::spinoff_prover]
    pub(crate) fn link_bytes(&mut self, dir: u32, name: &[u8], target: u32) -> (r: bool)
        requires
            old(self).inv(),
            old(self).live(dir as int),
        ensures
            final(self).inv(),
            final(self).spec_sb() == old(self).spec_sb(),
            final(self).link_outcome(old(self), dir as int, name@, target, r),
    {
        let ghost f0 = *self;
        proof {
            self.lemma_same_files_refl();
        }
        if target >= self.sb_ninodes() {
            return false;
        }
        let live = self.is_live(target);
        proof {
            self.lemma_same_files_from_view(&f0);
        }
        if !live {
            return false;
        }
        let kind = self.inode_type(target);
        proof {
            self.lemma_same_files_from_view(&f0);
        }
        match kind {
            Some(InodeType::File) => {},
            _ => {
                return false;
            },
        }
        let di = self.read_disk_inode(target);
        proof {
            self.lemma_same_files_from_view(&f0);
        }
        if di.nlink == u32::MAX {
            return false;
        }
        if !valid_name(name) {
            return false;
        }
        let found = self.lookup_bytes(dir, name);
        proof {
            self.lemma_same_files_from_view(&f0);
        }
        if found.is_some() {
            return false;
        }
        let count = self.entry_count(dir);
        proof {
            self.lemma_same_files_from_view(&f0);
            self.lemma_contents_bounded(dir as int);
        }
        if count > (MAX_FILE_SIZE - DIRENT_SIZE) / DIRENT_SIZE {
            return false;
        }
        let ghost f1 = *self;
        let r = self.link_entry(dir, name, target, count);
        proof {
            self.lemma_link_outcome_congr(&f1, &f0, dir as int, name@, target, r);
        }
        r
    }

    /// Names the file `target` as `name` in a new entry `count` of directory `dir`,
    /// raising its link count, where `name` is valid and not yet there.
    #[verifier::spinoff_prover]
    fn link_entry(&mut self, dir: u32, name: &[u8], target: u32, count: usize) -> (r: bool)
        requires
            old(self).inv(),
            old(self).live(dir as int),
            target < old(self).spec_sb().ninodes,
            old(self).live(target as int),
            old(self).raw_kind(target as int) == InodeType::File.spec_as_raw(),
            old(self).links(target as int) < u32::MAX,
            spec_valid_name(name@),
            dir_lookup_spec(old(self).contents(dir as int), name@) is None,
            count == entry_count(old(self).contents(dir as int)),
            DIRENT_SIZE * count + DIRENT_SIZE <= MAX_FILE_SIZE,
        ensures
            final(self).inv(),
            final(self).spec_sb() == old(self).spec_sb(),
            final(self).link_outcome(old(self), dir as int, name@, target, r),
    {
        let ghost f0 = *self;
        let di = self.read_disk_inode(target);
        let links = di.nlink;
        self.set_links(target, links + 1);
        let ghost f1 = *self;
        let rec = entry_record(target, name);
        let ok = self.write_entry(dir, count, rec.as_slice());
        if ok {
            proof {
                Self::lemma_link_some(self, &f0, &f1, dir as int, name@, target, count as int);
            }
            true
        } else {
            let ghost f2 = *self;
            self.set_links(target, links);
            proof {
                Self::lemma_link_none(self, &f0, &f1, &f2, target);
            }
            false
        }
    }

    /// Linking succeeds as `link_outcome` says once the count is raised and the
    /// entry written.
    #[verifier::spinoff_prover]
    proof fn lemma_link_some(fin: &Self, f0: &Self, f1: &Self, dir: int, name: Seq<u8>, target: u32, count: int)
        requires
            f0.live(dir),
            target < f0.spec_sb().ninodes,
            f0.live(target as int),
            f0.raw_kind(target as int) == InodeType::File.spec_as_raw(),
            spec_valid_name(name),
            dir_lookup_spec(f0.contents(dir), name) is None,
            count == entry_count(f0.contents(dir)),
            f1.links(target as int) == f0.links(target as int) + 1,
            forall|i: int| #[trigger] f1.live(i) == f0.live(i),
            forall|i: int| f0.live(i) ==> #[trigger] f1.contents(i) == f0.contents(i),
            forall|i: int| f0.live(i) ==> #[trigger] f1.raw_kind(i) == f0.raw_kind(i),
            forall|i: int| f0.live(i) && i != target ==> #[trigger] f1.links(i) == f0.links(i),
            forall|i: int| #[trigger] fin.live(i) == f1.live(i),
            forall|i: int| f1.live(i) && i != dir ==> #[trigger] fin.contents(i) == f1.contents(i),
            forall|i: int|
                #![trigger fin.raw_kind(i)]
                #![trigger fin.links(i)]
                f1.live(i) ==> fin.raw_kind(i) == f1.raw_kind(i) && fin.links(i) == f1.links(i),
            fin.contents(dir) == spec_write(f1.contents(dir), DIRENT_SIZE * count, entry_bytes(target, name)),
        ensures
            fin.link_outcome(f0, dir, name, target, true),
    {
        assert(f1.live(dir));
        assert(f1.contents(dir) == f0.contents(dir));
        assert(f1.live(target as int));
        assert(fin.links(target as int) == f1.links(target as int));
        assert forall|i: int| #[trigger] fin.live(i) == f0.live(i) by {
            assert(f1.live(i) == f0.live(i));
        }
        assert forall|i: int| f0.live(i) && i != dir implies #[trigger] fin.contents(i) == f0.contents(i) by {
            assert(f1.live(i));
            assert(f1.contents(i) == f0.contents(i));
        }
        assert forall|i: int| f0.live(i) implies #[trigger] fin.raw_kind(i) == f0.raw_kind(i) by {
            assert(f1.live(i));
            assert(f1.raw_kind(i) == f0.raw_kind(i));
        }
        assert forall|i: int| f0.live(i) && i != target implies #[trigger] fin.links(i) == f0.links(i) by {
            assert(f1.live(i));
            assert(f1.links(i) == f0.links(i));
        }
    }

    /// Linking fails as `link_outcome` says once the entry could not be written and
    /// the count was put back.
    #[verifier::spinoff_prover]
    proof fn lemma_link_none(fin: &Self, f0: &Self, f1: &Self, f2: &Self, target: u32)
        requires
            f0.live(target as int),
            forall|i: int| #[trigger] f1.live(i) == f0.live(i),
            forall|i: int| f0.live(i) ==> #[trigger] f1.contents(i) == f0.contents(i),
            forall|i: int| f0.live(i) ==> #[trigger] f1.raw_kind(i) == f0.raw_kind(i),
            forall|i: int| f0.live(i) && i != target ==> #[trigger] f1.links(i) == f0.links(i),
            forall|i: int| #[trigger] f2.live(i) == f1.live(i),
            forall|i: int| f1.live(i) ==> #[trigger] f2.contents(i) == f1.contents(i),
            forall|i: int|
                #![trigger f2.raw_kind(i)]
                #![trigger f2.links(i)]
                f1.live(i) ==> f2.raw_kind(i) == f1.raw_kind(i) && f2.links(i) == f1.links(i),
            fin.links(target as int) == f0.links(target as int),
            forall|i: int| #[trigger] fin.live(i) == f2.live(i),
            forall|i: int| f2.live(i) ==> #[trigger] fin.contents(i) == f2.contents(i),
            forall|i: int| f2.live(i) ==> #[trigger] fin.raw_kind(i) == f2.raw_kind(i),
            forall|i: int| f2.live(i) && i != target ==> #[trigger] fin.links(i) == f2.links(i),
        ensures
            fin.same_files_as(f0),
    {
        assert forall|i: int| #[trigger] fin.live(i) == f0.live(i) by {
            assert(f2.live(i) == f1.live(i));
        }
        assert forall|i: int| #![trigger fin.contents(i)] f0.live(i) implies fin.contents(i) == f0.contents(i) by {
            assert(f1.live(i));
            assert(f2.live(i));
            assert(f1.contents(i) == f0.contents(i));
            assert(f2.contents(i) == f1.contents(i));
        }
        assert forall|i: int|
            #![trigger fin.raw_kind(i)]
            #![trigger fin.links(i)]
            f0.live(i) implies fin.raw_kind(i) == f0.raw_kind(i) && fin.links(i) == f0.links(i) by {
            assert(f1.live(i));
            assert(f2.live(i));
            assert(f1.raw_kind(i) == f0.raw_kind(i));
            assert(f2.raw_kind(i) == f1.raw_kind(i) && f2.links(i) == f1.links(i));
            if i != target {
                assert(f1.links(i) == f0.links(i));
            }
        }
    }

    /// What linking leaves depends on the filesystem before only through its disk and
    /// superblock.
    pub proof fn lemma_link_outcome_congr(&self, a: &Self, b: &Self, dir: int, name: Seq<u8>, target: u32, r: bool)
        requires
            a.view() == b.view(),
            a.spec_sb() == b.spec_sb(),
            self.link_outcome(a, dir, name, target, r),
        ensures
            self.link_outcome(b, dir, name, target, r),
    {
        a.lemma_same_files_from_view(b);
        if !r {
            assert forall|i: int| #[trigger] self.live(i) == b.live(i) by {
                assert(self.live(i) == a.live(i));
            }
            assert forall|i: int| #![trigger self.contents(i)] b.live(i) implies self.contents(i) == b.contents(i) by {
                assert(a.live(i));
            }
            assert forall|i: int|
                #![trigger self.raw_kind(i)]
                #![trigger self.links(i)]
                b.live(i) implies self.raw_kind(i) == b.raw_kind(i) && self.links(i) == b.links(i) by {
                assert(a.live(i));
            }
        }
    }

    /// What removing `name` from directory `dir` of `old` leaves in `self` when it
    /// returns `r`. With no such entry, or when it names a directory that is not
    /// empty, nothing changes and the answer is `false`. Otherwise the last entry
    /// moves into the removed one's place and the directory shrinks by one entry;
    /// the named inode, when it is in use, loses a link and is released with its
    /// last. Only when no data block is left to move the last entry into place does
    /// the removal fail, changing no file.
    pub open spec fn remove_outcome(&self, old: &Self, dir: int, name: Seq<u8>, r: bool) -> bool {
        let c = old.contents(dir);
        match dir_find(c, name) {
            None => !r && self.same_files_as(old),
            Some(slot) => {
                let t = entry_inode(c, slot) as int;
                let tl = t < old.spec_sb().ninodes && old.live(t);
                let dies = tl && old.links(t) <= 1;
                if tl && old.raw_kind(t) == InodeType::Dir.spec_as_raw() && old.contents(t).len() != 0 {
                    !r && self.same_files_as(old)
                } else {
                    self.entry_removed(old, dir, slot, r)
                }
            },
        }
    }

    /// What removing entry `slot` of directory `dir` of `old` leaves in `self` when it
    /// returns `r`: on success the directory lost that entry (the last one moved into
    /// its place), and the inode it named, when in use, lost a link and was released
    /// with its last; on failure, possible only when the last entry had to move and
    /// no data block was left for it, no file changed.
    pub open spec fn entry_removed(&self, old: &Self, dir: int, slot: int, r: bool) -> bool {
        let c = old.contents(dir);
        let t = entry_inode(c, slot) as int;
        let tl = t < old.spec_sb().ninodes && old.live(t);
        let dies = tl && old.links(t) <= 1;
        if !r {
            &&& slot != entry_count(c) - 1
            &&& self.same_files_as(old)
            &&& self.is_data_full()
            &&& !self.has_block(dir, DIRENT_SIZE * slot / BLOCK_SIZE as int)
        } else {
            &&& self.contents(dir) == dir_removed(c, slot)
            &&& forall|i: int| #[trigger] self.live(i) == (old.live(i) && !(dies && i == t))
            &&& forall|i: int|
                old.live(i) && i != dir && !(dies && i == t) ==> #[trigger] self.contents(i) == old.contents(i)
            &&& forall|i: int| old.live(i) && !(dies && i == t) ==> #[trigger] self.raw_kind(i) == old.raw_kind(i)
            &&& forall|i: int|
                old.live(i) && !(dies && i == t) ==> #[trigger] self.links(i) == if tl && i == t {
                    (old.links(i) - 1) as u32
                } else {
                    old.links(i)
                }
        }
    }

    /// The bytes of entry `idx` of directory `dir`.
    fn read_entry_bytes(&mut self, dir: u32, idx: usize) -> (r: Vec<u8>)
        requires
            old(self).inv(),
            old(self).live(dir as int),
            idx < entry_count(old(self).contents(dir as int)),
        ensures
            final(self).inv(),
            final(self).view() == old(self).view(),
            final(self).spec_sb() == old(self).spec_sb(),
            r@ == old(self).contents(dir as int).subrange(DIRENT_SIZE * idx, DIRENT_SIZE * idx + DIRENT_SIZE),
    {
        let ghost c = self.contents(dir as int);
        let mut buf: Vec<u8> = vec![0u8; DIRENT_SIZE];
        let off = idx * DIRENT_SIZE;
        let _n = self.read_at(dir, off, buf.as_mut_slice());
        proof {
            assert(buf@ =~= c.subrange(off as int, off + DIRENT_SIZE));
        }
        buf
    }

    /// Removes `name` from directory `dir`. A directory must be empty to go. On its
    /// last link the named inode and its data are released. Returns whether an entry
    /// was removed.
    pub fn remove(&mut self, dir: u32, name: &str) -> (r: bool)
        requires
            old(self).inv(),
            old(self).live(dir as int),
            old(self).raw_kind(dir as int) == InodeType::Dir.spec_as_raw(),
        ensures
            final(self).inv(),
            final(self).spec_sb() == old(self).spec_sb(),
            final(self).remove_outcome(old(self), dir as int, name.spec_bytes(), r),
    {
        self.remove_bytes(dir, name.as_bytes())
    }

    /// [`Fs::remove`] for a name given by its bytes.
    #[verifier::spinoff_prover]
    pub(crate) fn remove_bytes(&mut self, dir: u32, name: &[u8]) -> (r: bool)
        requires
            old(self).inv(),
            old(self).live(dir as int),
            old(self).raw_kind(dir as int) == InodeType::Dir.spec_as_raw(),
        ensures
            final(self).inv(),
            final(self).spec_sb() == old(self).spec_sb(),
            final(self).remove_outcome(old(self), dir as int, name@, r),
    {
        let ghost f0 = *self;
        let ghost c = self.contents(dir as int);
        let found = self.find_entry(dir, name);
        proof {
            self.lemma_same_files_from_view(&f0);
            lemma_find_from(c, name@, 0);
        }
        let (slot, entry) = match found {
            Some(x) => x,
            None => {
                return false;
            },
        };
        let target = entry.inode;
        proof {
            assert(target == entry_inode(c, slot as int));
        }
        let mut target_live = false;
        if target < self.sb_ninodes() {
            target_live = self.is_live(target);
            proof {
                self.lemma_same_files_from_view(&f0);
            }
        }
        if target_live {
            let kind = self.inode_type(target);
            proof {
                self.lemma_same_files_from_view(&f0);
            }
            if let Some(InodeType::Dir) = kind {
                let empty = self.dir_is_empty(target);
                proof {
                    self.lemma_same_files_from_view(&f0);
                }
                if !empty {
                    return false;
                }
            }
        }
        let ghost f1 = *self;
        let r = self.remove_entry(dir, slot, target, target_live);
        proof {
            Self::lemma_remove_outcome_from(self, &f1, &f0, dir as int, name@, slot as int, r);
        }
        r
    }

    /// Removes entry `slot` of directory `dir`, which names `target`, and drops the
    /// link it held when `target_live` says the target is an inode in use.
    #[verifier::spinoff_prover]
    fn remove_entry(&mut self, dir: u32, slot: usize, target: u32, target_live: bool) -> (r: bool)
        requires
            old(self).inv(),
            old(self).live(dir as int),
            old(self).raw_kind(dir as int) == InodeType::Dir.spec_as_raw(),
            slot < entry_count(old(self).contents(dir as int)),
            target == entry_inode(old(self).contents(dir as int), slot as int),
            target_live == (target < old(self).spec_sb().ninodes && old(self).live(target as int)),
            target_live && old(self).raw_kind(target as int) == InodeType::Dir.spec_as_raw() ==> old(self).contents(
                target as int,
            ).len() == 0,
        ensures
            final(self).inv(),
            final(self).spec_sb() == old(self).spec_sb(),
            final(self).entry_removed(old(self), dir as int, slot as int, r),
    {
        let ghost f0 = *self;
        let ok = self.compact_entry(dir, slot);
        if !ok {
            return false;
        }
        let ghost f1 = *self;
        if target_live {
            proof {
                assert(target != dir);
                assert(f1.live(target as int));
            }
            self.drop_link(target);
            proof {
                Self::lemma_removed_chain(self, &f1, &f0, dir as int, slot as int);
            }
        } else {
            proof {
                Self::lemma_removed_no_target(self, &f0, dir as int, slot as int);
            }
        }
        true
    }

    /// Entry removal as `entry_removed` says, once the directory is compacted and the
    /// target's link dropped.
    #[verifier::spinoff_prover]
    proof fn lemma_removed_chain(fin: &Self, f1: &Self, f0: &Self, dir: int, slot: int)
        requires
            ({
                let t = entry_inode(f0.contents(dir), slot) as int;
                &&& t < f0.spec_sb().ninodes && f0.live(t)
                &&& t != dir
                &&& f0.live(dir)
                &&& f1.contents(dir) == dir_removed(f0.contents(dir), slot)
                &&& forall|i: int| #[trigger] f1.live(i) == f0.live(i)
                &&& forall|i: int| f0.live(i) && i != dir ==> #[trigger] f1.contents(i) == f0.contents(i)
                &&& forall|i: int|
                    #![trigger f1.raw_kind(i)]
                    #![trigger f1.links(i)]
                    f0.live(i) ==> f1.raw_kind(i) == f0.raw_kind(i) && f1.links(i) == f0.links(i)
                &&& forall|i: int| #[trigger] fin.live(i) == (f1.live(i) && !(f1.links(t) <= 1 && i == t))
                &&& forall|i: int| f1.live(i) && !(f1.links(t) <= 1 && i == t) ==> #[trigger] fin.contents(i) == f1.contents(i)
                &&& forall|i: int| f1.live(i) && !(f1.links(t) <= 1 && i == t) ==> #[trigger] fin.raw_kind(i) == f1.raw_kind(i)
                &&& forall|i: int|
                    f1.live(i) && !(f1.links(t) <= 1 && i == t) ==> #[trigger] fin.links(i) == if i == t {
                        (f1.links(i) - 1) as u32
                    } else {
                        f1.links(i)
                    }
            }),
        ensures
            fin.entry_removed(f0, dir, slot, true),
    {
        let t = entry_inode(f0.contents(dir), slot) as int;
        assert(f1.links(t) == f0.links(t));
        assert(f1.live(dir));
        assert(fin.contents(dir) == f1.contents(dir));
        assert forall|i: int| #[trigger] fin.live(i) == (f0.live(i) && !(f0.links(t) <= 1 && i == t)) by {
            assert(f1.live(i) == f0.live(i));
        }
        assert forall|i: int| f0.live(i) && i != dir && !(f0.links(t) <= 1 && i == t) implies #[trigger] fin.contents(i)
            == f0.contents(i) by {
            assert(f1.live(i));
            assert(f1.contents(i) == f0.contents(i));
        }
        assert forall|i: int| f0.live(i) && !(f0.links(t) <= 1 && i == t) implies #[trigger] fin.raw_kind(i) == f0.raw_kind(i) by {
            assert(f1.live(i));
            assert(f1.raw_kind(i) == f0.raw_kind(i));
        }
        assert forall|i: int| f0.live(i) && !(f0.links(t) <= 1 && i == t) implies #[trigger] fin.links(i) == if i == t {
            (f0.links(i) - 1) as u32
        } else {
            f0.links(i)
        } by {
            assert(f1.live(i));
            assert(f1.links(i) == f0.links(i));
        }
    }

    /// Entry removal as `entry_removed` says when the entry named no inode in use.
    proof fn lemma_removed_no_target(fin: &Self, f0: &Self, dir: int, slot: int)
        requires
            ({
                let t = entry_inode(f0.contents(dir), slot) as int;
                &&& !(t < f0.spec_sb().ninodes && f0.live(t))
                &&& fin.contents(dir) == dir_removed(f0.contents(dir), slot)
                &&& forall|i: int| #[trigger] fin.live(i) == f0.live(i)
                &&& forall|i: int| f0.live(i) && i != dir ==> #[trigger] fin.contents(i) == f0.contents(i)
                &&& forall|i: int|
                    #![trigger fin.raw_kind(i)]
                    #![trigger fin.links(i)]
                    f0.live(i) ==> fin.raw_kind(i) == f0.raw_kind(i) && fin.links(i) == f0.links(i)
            }),
        ensures
            fin.entry_removed(f0, dir, slot, true),
    {
    }

    /// Removes entry `slot` of directory `dir`: the last entry moves into its place
    /// and the directory shrinks by one entry. Fails, changing no file, only when the
    /// last entry has to move and no data block is left for it.
    #[verifier::spinoff_prover]
    fn compact_entry(&mut self, dir: u32, slot: usize) -> (r: bool)
        requires
            old(self).inv(),
            old(self).live(dir as int),
            slot < entry_count(old(self).contents(dir as int)),
        ensures
            final(self).inv(),
            final(self).spec_sb() == old(self).spec_sb(),
            r ==> {
                &&& final(self).contents(dir as int) == dir_removed(old(self).contents(dir as int), slot as int)
                &&& forall|i: int| #[trigger] final(self).live(i) == old(self).live(i)
                &&& forall|i: int| old(self).live(i) && i != dir ==> #[trigger] final(self).contents(i) == old(self).contents(i)
                &&& forall|i: int|
                    #![trigger final(self).raw_kind(i)]
                    #![trigger final(self).links(i)]
                    old(self).live(i) ==> final(self).raw_kind(i) == old(self).raw_kind(i) && final(self).links(i)
                        == old(self).links(i)
            },
            !r ==> {
                &&& slot != entry_count(old(self).contents(dir as int)) - 1
                &&& final(self).same_files_as(old(self))
                &&& final(self).is_data_full()
                &&& !final(self).has_block(dir as int, DIRENT_SIZE * slot / BLOCK_SIZE as int)
            },
    {
        let ghost f0 = *self;
        let ghost c = self.contents(dir as int);
        let count = self.entry_count(dir);
        let last = count - 1;
        proof {
            self.lemma_contents_bounded(dir as int);
        }
        if slot != last {
            let moved = self.read_entry_bytes(dir, last);
            let ghost fm = *self;
            proof {
                fm.lemma_same_files_from_view(&f0);
            }
            let ok = self.write_entry(dir, slot, moved.as_slice());
            if !ok {
                proof {
                    assert forall|i: int| #![trigger self.contents(i)] f0.live(i) implies self.contents(i) == f0.contents(i) by {
                        assert(fm.live(i));
                    }
                    assert forall|i: int|
                        #![trigger self.raw_kind(i)]
                        #![trigger self.links(i)]
                        f0.live(i) implies self.raw_kind(i) == f0.raw_kind(i) && self.links(i) == f0.links(i) by {
                        assert(fm.raw_kind(i) == f0.raw_kind(i) && fm.links(i) == f0.links(i));
                        assert(fm.live(i));
                    }
                }
                return false;
            }
            proof {
                assert forall|i: int|
                    #![trigger self.raw_kind(i)]
                    #![trigger self.links(i)]
                    f0.live(i) implies self.raw_kind(i) == f0.raw_kind(i) && self.links(i) == f0.links(i) by {
                    assert(fm.live(i));
                    assert(fm.raw_kind(i) == f0.raw_kind(i) && fm.links(i) == f0.links(i));
                    assert(self.raw_kind(i) == fm.raw_kind(i));
                    assert(self.links(i) == fm.links(i));
                }
            }
        } else {
            proof {
                self.lemma_same_files_from_view(&f0);
            }
        }
        let ghost f1 = *self;
        self.set_len(dir, last * DIRENT_SIZE);
        proof {
            lemma_dir_removed(c, slot as int);
            assert forall|i: int| f0.live(i) && i != dir implies #[trigger] self.contents(i) == f0.contents(i) by {
                assert(f1.contents(i) == f0.contents(i));
            }
            assert forall|i: int|
                #![trigger self.raw_kind(i)]
                #![trigger self.links(i)]
                f0.live(i) implies self.raw_kind(i) == f0.raw_kind(i) && self.links(i) == f0.links(i) by {
                assert(f1.live(i));
                assert(f1.raw_kind(i) == f0.raw_kind(i) && f1.links(i) == f0.links(i));
                assert(self.raw_kind(i) == f1.raw_kind(i));
                assert(self.links(i) == f1.links(i));
            }
        }
        true
    }

    /// Drops one link of inode `t`, releasing it when that was its last.
    #[verifier::spinoff_prover]
    fn drop_link(&mut self, t: u32)
        requires
            old(self).inv(),
            old(self).live(t as int),
        ensures
            final(self).inv(),
            final(self).spec_sb() == old(self).spec_sb(),
            forall|i: int| #[trigger] final(self).live(i) == (old(self).live(i) && !(old(self).links(t as int) <= 1 && i == t)),
            forall|i: int|
                old(self).live(i) && !(old(self).links(t as int) <= 1 && i == t) ==> #[trigger] final(self).contents(i)
                    == old(self).contents(i),
            forall|i: int|
                old(self).live(i) && !(old(self).links(t as int) <= 1 && i == t) ==> #[trigger] final(self).raw_kind(i)
                    == old(self).raw_kind(i),
            forall|i: int|
                old(self).live(i) && !(old(self).links(t as int) <= 1 && i == t) ==> #[trigger] final(self).links(i)
                    == if i == t {
                    (old(self).links(i) - 1) as u32
                } else {
                    old(self).links(i)
                },
    {
        let ghost f0 = *self;
        let di = self.read_disk_inode(t);
        let n = di.nlink;
        let remaining: u32 = if n == 0 {
            0
        } else {
            n - 1
        };
        self.set_links(t, remaining);
        if remaining == 0 {
            let ghost f1 = *self;
            self.free_inode(t);
            proof {
                assert forall|i: int|
                    f0.live(i) && !(f0.links(t as int) <= 1 && i == t) implies #[trigger] self.contents(i) == f0.contents(i) by {
                    assert(f1.contents(i) == f0.contents(i));
                }
                assert forall|i: int|
                    f0.live(i) && !(f0.links(t as int) <= 1 && i == t) implies #[trigger] self.raw_kind(i) == f0.raw_kind(i) by {
                    assert(f1.raw_kind(i) == f0.raw_kind(i));
                }
                assert forall|i: int|
                    f0.live(i) && !(f0.links(t as int) <= 1 && i == t) implies #[trigger] self.links(i) == f0.links(i) by {
                    assert(f1.links(i) == f0.links(i));
                }
            }
        }
    }

    /// Entry removal as `remove_outcome` says, from the state just before it, which
    /// shows the same disk as the state the removal started from.
    #[verifier::spinoff_prover]
    proof fn lemma_remove_outcome_from(fin: &Self, f1: &Self, f0: &Self, dir: int, name: Seq<u8>, slot: int, r: bool)
        requires
            f1.view() == f0.view(),
            f1.spec_sb() == f0.spec_sb(),
            dir_find(f0.contents(dir), name) == Some(slot),
            ({
                let t = entry_inode(f0.contents(dir), slot) as int;
                !(t < f0.spec_sb().ninodes && f0.live(t) && f0.raw_kind(t) == InodeType::Dir.spec_as_raw()
                    && f0.contents(t).len() != 0)
            }),
            fin.entry_removed(f1, dir, slot, r),
        ensures
            fin.remove_outcome(f0, dir, name, r),
    {
        f1.lemma_same_files_from_view(f0);
        let c = f0.contents(dir);
        let t = entry_inode(c, slot) as int;
        if !r {
            assert forall|i: int| #[trigger] fin.live(i) == f0.live(i) by {
                assert(fin.live(i) == f1.live(i));
            }
            assert forall|i: int| #![trigger fin.contents(i)] f0.live(i) implies fin.contents(i) == f0.contents(i) by {
                assert(f1.live(i));
            }
            assert forall|i: int|
                #![trigger fin.raw_kind(i)]
                #![trigger fin.links(i)]
                f0.live(i) implies fin.raw_kind(i) == f0.raw_kind(i) && fin.links(i) == f0.links(i) by {
                assert(f1.live(i));
            }
        } else {
            assert(f1.links(t) == f0.links(t));
            assert(f1.live(t) == f0.live(t));
            assert forall|i: int| #[trigger] fin.live(i) == (f0.live(i) && !(f0.spec_sb().ninodes > t && f0.live(t) && f0.links(t) <= 1 && i == t)) by {
                assert(f1.live(i) == f0.live(i));
            }
            assert forall|i: int| f0.live(i) && i != dir && !(f0.spec_sb().ninodes > t && f0.live(t) && f0.links(t) <= 1 && i == t)
                implies #[trigger] fin.contents(i) == f0.contents(i) by {
                assert(f1.live(i));
                assert(f1.contents(i) == f0.contents(i));
            }
            assert forall|i: int| f0.live(i) && !(f0.spec_sb().ninodes > t && f0.live(t) && f0.links(t) <= 1 && i == t)
                implies #[trigger] fin.raw_kind(i) == f0.raw_kind(i) by {
                assert(f1.live(i));
                assert(f1.raw_kind(i) == f0.raw_kind(i));
            }
            assert forall|i: int| f0.live(i) && !(f0.spec_sb().ninodes > t && f0.live(t) && f0.links(t) <= 1 && i == t)
                implies #[trigger] fin.links(i) == if f0.spec_sb().ninodes > t && f0.live(t) && i == t {
                (f0.links(i) - 1) as u32
            } else {
                f0.links(i)
            } by {
                assert(f1.live(i));
                assert(f1.links(i) == f0.links(i));
            }
        }
    }

    /// What removing leaves depends on the filesystem before only through its disk
    /// and superblock.
    #[verifier::spinoff_prover]
    pub proof fn lemma_remove_outcome_congr(&self, a: &Self, b: &Self, dir: int, name: Seq<u8>, r: bool)
        requires
            a.view() == b.view(),
            a.spec_sb() == b.spec_sb(),
            self.remove_outcome(a, dir, name, r),
        ensures
            self.remove_outcome(b, dir, name, r),
    {
        a.lemma_same_files_from_view(b);
        let c = a.contents(dir);
        assert(c == b.contents(dir));
        if let Some(slot) = dir_find(c, name) {
            let t = entry_inode(c, slot) as int;
            assert(a.live(t) == b.live(t));
            assert(a.links(t) == b.links(t));
            assert(a.raw_kind(t) == b.raw_kind(t));
            assert(a.contents(t) == b.contents(t));
            if r {
                let tl = t < a.spec_sb().ninodes && a.live(t);
                let dies = tl && a.links(t) <= 1;
                assert forall|i: int| #[trigger] self.live(i) == (b.live(i) && !(dies && i == t)) by {
                    assert(self.live(i) == (a.live(i) && !(dies && i == t)));
                }
                assert forall|i: int| b.live(i) && i != dir && !(dies && i == t) implies #[trigger] self.contents(i)
                    == b.contents(i) by {
                    assert(a.live(i));
                }
                assert forall|i: int| b.live(i) && !(dies && i == t) implies #[trigger] self.raw_kind(i) == b.raw_kind(i) by {
                    assert(a.live(i));
                }
                assert forall|i: int| b.live(i) && !(dies && i == t) implies #[trigger] self.links(i) == if tl && i == t {
                    (b.links(i) - 1) as u32
                } else {
                    b.links(i)
                } by {
                    assert(a.live(i));
                }
                assert(self.entry_removed(b, dir, slot, r));
            } else {
                assert forall|i: int| #[trigger] self.live(i) == b.live(i) by {
                    assert(self.live(i) == a.live(i));
                }
                assert forall|i: int| #![trigger self.contents(i)] b.live(i) implies self.contents(i) == b.contents(i) by {
                    assert(a.live(i));
                }
                assert forall|i: int|
                    #![trigger self.raw_kind(i)]
                    #![trigger self.links(i)]
                    b.live(i) implies self.raw_kind(i) == b.raw_kind(i) && self.links(i) == b.links(i) by {
                    assert(a.live(i));
                }
            }
        } else {
            assert forall|i: int| #[trigger] self.live(i) == b.live(i) by {
                assert(self.live(i) == a.live(i));
            }
            assert forall|i: int| #![trigger self.contents(i)] b.live(i) implies self.contents(i) == b.contents(i) by {
                assert(a.live(i));
            }
            assert forall|i: int|
                #![trigger self.raw_kind(i)]
                #![trigger self.links(i)]
                b.live(i) implies self.raw_kind(i) == b.raw_kind(i) && self.links(i) == b.links(i) by {
                assert(a.live(i));
            }
        }
    }

    /// A filesystem shows the same files as itself.
    pub proof fn lemma_same_files_refl(&self)
        ensures
            self.same_files_as(self),
    {
    }

    /// Two filesystems with the same disk and superblock show the same files.
    pub proof fn lemma_same_files_from_view(&self, other: &Self)
        requires
            self.view() == other.view(),
            self.spec_sb() == other.spec_sb(),
        ensures
            self.same_files_as(other),
            forall|i: int|
                #![trigger self.live(i)]
                #![trigger other.live(i)]
                self.live(i) == other.live(i),
            forall|i: int|
                #![trigger self.contents(i)]
                #![trigger other.contents(i)]
                self.contents(i) == other.contents(i),
            forall|i: int|
                #![trigger self.raw_kind(i)]
                #![trigger other.raw_kind(i)]
                self.raw_kind(i) == other.raw_kind(i),
            forall|i: int|
                #![trigger self.links(i)]
                #![trigger other.links(i)]
                self.links(i) == other.links(i),
    {
    }

    /// What creating leaves depends on the filesystem before only through its disk
    /// and superblock.
    pub proof fn lemma_create_outcome_congr(
        &self,
        a: &Self,
        b: &Self,
        dir: int,
        name: Seq<u8>,
        kind: InodeType,
        r: Option<u32>,
    )
        requires
            a.view() == b.view(),
            a.spec_sb() == b.spec_sb(),
            self.create_outcome(a, dir, name, kind, r),
        ensures
            self.create_outcome(b, dir, name, kind, r),
    {
        a.lemma_same_files_from_view(b);
        if r is None {
            assert forall|i: int| #[trigger] self.live(i) == b.live(i) by {
                assert(self.live(i) == a.live(i));
            }
            assert forall|i: int| #![trigger self.contents(i)] b.live(i) implies self.contents(i) == b.contents(i) by {
                assert(a.live(i));
            }
            assert forall|i: int|
                #![trigger self.raw_kind(i)]
                #![trigger self.links(i)]
                b.live(i) implies self.raw_kind(i) == b.raw_kind(i) && self.links(i) == b.links(i) by {
                assert(a.live(i));
            }
        }
    }
}

impl<D: BlockDevice> Fs<D> {
    /// Once `create` has made `name` in directory `dir` as inode `id`, looking `name`
    /// up in `dir` finds `id`, and every other name finds what it found before.
    pub proof fn lemma_lookup_after_create(&self, before: &Self, dir: int, name: &str, kind: InodeType, id: u32)
        requires
            self.create_outcome(before, dir, name.spec_bytes(), kind, Some(id)),
        ensures
            dir_lookup_spec(self.contents(dir), name.spec_bytes()) == Some(id),
            forall|other: Seq<u8>|
                other != name.spec_bytes() ==> #[trigger] dir_lookup_spec(self.contents(dir), other)
                    == dir_lookup_spec(before.contents(dir), other),
    {
        vstd::utf8::encode_utf8_valid_utf8(name@);
        lemma_lookup_after_append(before.contents(dir), name.spec_bytes(), id);
    }

    /// Once `link` has added `name` in directory `dir` for `target`, looking `name` up
    /// in `dir` finds `target`, which has one link more, and every other name finds
    /// what it found before.
    pub proof fn lemma_lookup_after_link(&self, before: &Self, dir: int, name: &str, target: u32)
        requires
            self.link_outcome(before, dir, name.spec_bytes(), target, true),
        ensures
            dir_lookup_spec(self.contents(dir), name.spec_bytes()) == Some(target),
            self.links(target as int) == before.links(target as int) + 1,
            forall|other: Seq<u8>|
                other != name.spec_bytes() ==> #[trigger] dir_lookup_spec(self.contents(dir), other)
                    == dir_lookup_spec(before.contents(dir), other),
    {
        vstd::utf8::encode_utf8_valid_utf8(name@);
        lemma_lookup_after_append(before.contents(dir), name.spec_bytes(), target);
    }

    /// Removing the name that `create` just made in directory `dir` succeeds and
    /// leaves the files as they were before the create: the same inodes in use, each
    /// with the same contents, kind and link count, `dir` included.
    #[verifier::spinoff_prover]
    pub proof fn lemma_remove_undoes_create(
        &self,
        mid: &Self,
        before: &Self,
        dir: int,
        name: &str,
        kind: InodeType,
        id: u32,
        r: bool,
    )
        requires
            mid.create_outcome(before, dir, name.spec_bytes(), kind, Some(id)),
            self.remove_outcome(mid, dir, name.spec_bytes(), r),
            before.contents(dir).len() % (DIRENT_SIZE as nat) == 0,
        ensures
            r,
            self.same_files_as(before),
    {
        let c = before.contents(dir);
        let nm = name.spec_bytes();
        vstd::utf8::encode_utf8_valid_utf8(name@);
        lemma_lookup_after_append(c, nm, id);
        let n = entry_count(c);
        let d = mid.contents(dir);
        assert(d == spec_write(c, DIRENT_SIZE * n, entry_bytes(id, nm)));
        assert(dir_find(d, nm) == Some(n));
        assert(entry_inode(d, n) == id);
        assert(mid.live(id as int));
        assert(mid.links(id as int) == 1);
        assert(mid.contents(id as int).len() == 0);
        assert(entry_count(d) - 1 == n);
        assert(self.entry_removed(mid, dir, n, r));
        assert(r);
        assert(c.len() == DIRENT_SIZE * n);
        assert(self.contents(dir) == c);
        assert forall|i: int| #[trigger] self.live(i) == before.live(i) by {
            assert(self.live(i) == (mid.live(i) && i != id));
            assert(mid.live(i) == (before.live(i) || i == id));
        }
        assert forall|i: int| #![trigger self.contents(i)] before.live(i) implies self.contents(i) == before.contents(i) by {
            if i != dir {
                assert(i != id);
                assert(mid.live(i));
                assert(self.contents(i) == mid.contents(i));
            }
        }
        assert forall|i: int|
            #![trigger self.raw_kind(i)]
            #![trigger self.links(i)]
            before.live(i) implies self.raw_kind(i) == before.raw_kind(i) && self.links(i) == before.links(i) by {
            assert(i != id);
            assert(mid.live(i));
            assert(self.raw_kind(i) == mid.raw_kind(i));
            assert(self.links(i) == mid.links(i));
        }
    }

    /// Once `remove` has taken `name` out of directory `dir`, where only one entry
    /// showed it, looking `name` up in `dir` finds nothing, and every other name that
    /// at most one entry showed finds what it found before.
    pub proof fn lemma_lookup_after_remove(&self, before: &Self, dir: int, name: &str)
        requires
            self.remove_outcome(before, dir, name.spec_bytes(), true),
            shown_once(before.contents(dir), name.spec_bytes()),
        ensures
            dir_lookup_spec(self.contents(dir), name.spec_bytes()) is None,
            forall|other: Seq<u8>|
                other != name.spec_bytes() && shown_once(before.contents(dir), other)
                    ==> #[trigger] dir_lookup_spec(self.contents(dir), other) == dir_lookup_spec(
                    before.contents(dir),
                    other,
                ),
    {
        let c = before.contents(dir);
        lemma_find_from(c, name.spec_bytes(), 0);
        let slot = dir_find(c, name.spec_bytes())->0;
        lemma_lookup_after_removed_entry(c, slot);
    }
}

} // verus!
