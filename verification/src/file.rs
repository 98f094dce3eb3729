//! Path- and cursor-based access on top of the inode primitives: create, open and
//! remove by path, and a [`File`] handle that carries a cursor.

use vstd::prelude::*;
use vstd::string::StringSliceAdditionalSpecFns;

use crate::blockdev::BlockDevice;
use crate::dir::{
    dir_find, dir_lookup_spec, dir_removed, entry_count, entry_inode, lemma_find_from, lemma_lookup_after_append,
    lemma_lookup_after_removed_entry, lemma_next_slash, next_slash, shown_once, spec_valid_name,
};
use vstd::utf8::{
    is_char_boundary_iff_not_is_continuation_byte, is_char_boundary_start_end_of_seq, pop_first_scalar, valid_utf8,
    valid_utf8_split,
};
use crate::fs::{spec_resize, spec_write, Fs};
use crate::layout::{entry_bytes, InodeType, DIRENT_SIZE, MAX_FILE_SIZE};

verus! {

/// Length of path `p`'s first `t` bytes once trailing `/`s are dropped.
pub open spec fn trimmed_len(p: Seq<u8>, t: int) -> int
    decreases t,
{
    if t <= 0 {
        0
    } else if p[t - 1] == 47u8 {
        trimmed_len(p, t - 1)
    } else {
        t
    }
}

/// Index of the last `/` among path `p`'s first `t` bytes, or -1 if none.
pub open spec fn last_slash(p: Seq<u8>, t: int) -> int
    decreases t,
{
    if t <= 0 {
        -1
    } else if p[t - 1] == 47u8 {
        t - 1
    } else {
        last_slash(p, t - 1)
    }
}

/// The final component of path `p`, trailing `/`s dropped.
pub open spec fn final_name(p: Seq<u8>) -> Seq<u8> {
    let t = trimmed_len(p, p.len() as int);
    p.subrange(last_slash(p, t) + 1, t)
}

/// What comes before the final component of path `p`, without the `/` between.
pub open spec fn parent_path(p: Seq<u8>) -> Seq<u8> {
    let j = last_slash(p, trimmed_len(p, p.len() as int));
    if j < 0 {
        Seq::empty()
    } else {
        p.subrange(0, j)
    }
}

/// `trimmed_len` and `last_slash` stay within bounds and say what they find.
pub proof fn lemma_split_bounds(p: Seq<u8>, t: int)
    requires
        0 <= t <= p.len(),
    ensures
        0 <= trimmed_len(p, t) <= t,
        -1 <= last_slash(p, t) < t,
        last_slash(p, t) >= 0 ==> p[last_slash(p, t)] == 47u8,
        forall|j: int| last_slash(p, t) < j < t ==> #[trigger] p[j] != 47u8,
        trimmed_len(p, t) > 0 ==> p[trimmed_len(p, t) - 1] != 47u8,
        forall|j: int| trimmed_len(p, t) <= j < t ==> #[trigger] p[j] == 47u8,
    decreases t,
{
    if t > 0 {
        lemma_split_bounds(p, t - 1);
    }
}

impl<D: BlockDevice> Fs<D> {
    /// The directory in which path `p`'s final component lives, with that component:
    /// `None` if there is no final component (the path is all slashes) or the parent
    /// path leads nowhere.
    pub open spec fn split_spec(&self, p: Seq<u8>) -> Option<(u32, Seq<u8>)> {
        let name = final_name(p);
        let pp = parent_path(p);
        if name.len() == 0 {
            None
        } else if pp.len() == 0 {
            Some((self.spec_sb().root_inode, name))
        } else {
            match self.walk(self.spec_sb().root_inode, pp, 0) {
                None => None,
                Some(par) => Some((par, name)),
            }
        }
    }

    /// Inode `id` is a directory in use.
    pub open spec fn is_dir(&self, id: int) -> bool {
        &&& 0 <= id < self.spec_sb().ninodes
        &&& self.live(id)
        &&& self.raw_kind(id) == InodeType::Dir.spec_as_raw()
    }

    /// Whether inode `id` is a directory in use.
    fn check_dir(&mut self, id: u32) -> (r: bool)
        requires
            old(self).inv(),
        ensures
            final(self).inv(),
            final(self).view() == old(self).view(),
            final(self).spec_sb() == old(self).spec_sb(),
            r == old(self).is_dir(id as int),
    {
        if id >= self.sb_ninodes() {
            return false;
        }
        if !self.is_live(id) {
            return false;
        }
        match self.inode_type(id) {
            Some(InodeType::Dir) => true,
            _ => false,
        }
    }

    /// Splits path `p` into the inode of its parent directory and the byte range of
    /// its final component.
    fn split_parent(&mut self, p: &[u8]) -> (r: Option<(u32, usize, usize)>)
        requires
            old(self).inv(),
        ensures
            final(self).inv(),
            final(self).view() == old(self).view(),
            final(self).spec_sb() == old(self).spec_sb(),
            match r {
                None => old(self).split_spec(p@) is None,
                Some((par, a, b)) => {
                    &&& a <= b <= p@.len()
                    &&& old(self).split_spec(p@) == Some((par, p@.subrange(a as int, b as int)))
                },
            },
    {
        let n = p.len();
        proof {
            lemma_split_bounds(p@, n as int);
        }
        let mut t = n;
        while t > 0 && p[t - 1] == 47u8
            invariant
                t <= n,
                n == p@.len(),
                trimmed_len(p@, n as int) == trimmed_len(p@, t as int),
            decreases t,
        {
            t = t - 1;
        }
        proof {
            lemma_split_bounds(p@, t as int);
        }
        if t == 0 {
            return None;
        }
        let mut j = t;
        while j > 0 && p[j - 1] != 47u8
            invariant
                j <= t,
                t <= n,
                n == p@.len(),
                last_slash(p@, t as int) == last_slash(p@, j as int),
            decreases j,
        {
            j = j - 1;
        }
        proof {
            lemma_split_bounds(p@, j as int);
        }
        let start = j;
        if j <= 1 {
            if j == 1 {
                proof {
                    assert(parent_path(p@) =~= Seq::<u8>::empty());
                }
            }
            return Some((self.root_inode(), start, t));
        }
        let parent = vstd::slice::slice_subrange(p, 0, j - 1);
        proof {
            assert(parent@ =~= parent_path(p@));
        }
        match self.resolve_bytes(parent) {
            None => None,
            Some(par) => Some((par, start, t)),
        }
    }

    /// Opens the regular file at `path`; `None` if the path leads nowhere or not to
    /// a regular file.
    pub fn open(&mut self, path: &str) -> (r: Option<File>)
        requires
            old(self).inv(),
        ensures
            final(self).inv(),
            final(self).view() == old(self).view(),
            final(self).spec_sb() == old(self).spec_sb(),
            match old(self).walk(old(self).spec_sb().root_inode, path.spec_bytes(), 0) {
                Some(i) => if i < old(self).spec_sb().ninodes && old(self).raw_kind(i as int)
                    == InodeType::File.spec_as_raw() {
                    r matches Some(f) && f.spec_inode() == i && f.spec_pos() == 0
                } else {
                    r is None
                },
                None => r is None,
            },
    {
        let inode = match self.resolve(path) {
            Some(i) => i,
            None => {
                return None;
            },
        };
        if inode >= self.sb_ninodes() {
            return None;
        }
        match self.inode_type(inode) {
            Some(InodeType::File) => Some(File::new(inode)),
            _ => None,
        }
    }

    /// Creates an inode of kind `kind` at `path`, whose parent directory must exist,
    /// returning its number.
    pub fn create_path(&mut self, path: &str, kind: InodeType) -> (r: Option<u32>)
        requires
            old(self).inv(),
        ensures
            final(self).inv(),
            final(self).spec_sb() == old(self).spec_sb(),
            match old(self).split_spec(path.spec_bytes()) {
                Some((par, name)) => if old(self).is_dir(par as int) {
                    final(self).create_outcome(old(self), par as int, name, kind, r)
                } else {
                    r is None && final(self).view() == old(self).view()
                },
                None => r is None && final(self).view() == old(self).view(),
            },
    {
        let ghost f0 = *self;
        let p = path.as_bytes();
        let (par, a, b) = match self.split_parent(p) {
            Some(x) => x,
            None => {
                return None;
            },
        };
        if !self.check_dir(par) {
            return None;
        }
        let name = vstd::slice::slice_subrange(p, a, b);
        let ghost f1 = *self;
        let r = self.create_bytes(par, name, kind);
        proof {
            self.lemma_create_outcome_congr(&f1, &f0, par as int, name@, kind, r);
        }
        r
    }

    /// Creates a regular file at `path` and opens it.
    pub fn create_file(&mut self, path: &str) -> (r: Option<File>)
        requires
            old(self).inv(),
        ensures
            final(self).inv(),
            final(self).spec_sb() == old(self).spec_sb(),
            match old(self).split_spec(path.spec_bytes()) {
                Some((par, name)) => if old(self).is_dir(par as int) {
                    final(self).create_outcome(
                        old(self),
                        par as int,
                        name,
                        InodeType::File,
                        match r {
                            Some(f) => Some(f.spec_inode()),
                            None => None,
                        },
                    )
                } else {
                    r is None && final(self).view() == old(self).view()
                },
                None => r is None && final(self).view() == old(self).view(),
            },
            r matches Some(f) ==> f.spec_pos() == 0,
    {
        match self.create_path(path, InodeType::File) {
            Some(inode) => Some(File::new(inode)),
            None => None,
        }
    }

    /// Hard-links `new_path` to the file at `existing` (argument order as in
    /// `ln existing new_path`), by the rules of [`Fs::link`].
    pub fn link_path(&mut self, existing: &str, new_path: &str) -> (r: bool)
        requires
            old(self).inv(),
        ensures
            final(self).inv(),
            final(self).spec_sb() == old(self).spec_sb(),
            match old(self).walk(old(self).spec_sb().root_inode, existing.spec_bytes(), 0) {
                None => !r && final(self).view() == old(self).view(),
                Some(target) => match old(self).split_spec(new_path.spec_bytes()) {
                    Some((par, name)) => if old(self).is_dir(par as int) {
                        final(self).link_outcome(old(self), par as int, name, target, r)
                    } else {
                        !r && final(self).view() == old(self).view()
                    },
                    None => !r && final(self).view() == old(self).view(),
                },
            },
    {
        let ghost f0 = *self;
        let target = match self.resolve(existing) {
            Some(t) => t,
            None => {
                return false;
            },
        };
        proof {
            self.lemma_walk_congr(&f0, f0.spec_sb().root_inode, parent_path(new_path.spec_bytes()), 0);
        }
        let p = new_path.as_bytes();
        let (par, a, b) = match self.split_parent(p) {
            Some(x) => x,
            None => {
                return false;
            },
        };
        if !self.check_dir(par) {
            return false;
        }
        let name = vstd::slice::slice_subrange(p, a, b);
        let ghost f1 = *self;
        let r = self.link_bytes(par, name, target);
        proof {
            self.lemma_link_outcome_congr(&f1, &f0, par as int, name@, target, r);
        }
        r
    }

    /// Removes whatever `path` names, by the rules of [`Fs::remove`].
    pub fn remove_path(&mut self, path: &str) -> (r: bool)
        requires
            old(self).inv(),
        ensures
            final(self).inv(),
            final(self).spec_sb() == old(self).spec_sb(),
            match old(self).split_spec(path.spec_bytes()) {
                Some((par, name)) => if old(self).is_dir(par as int) {
                    final(self).remove_outcome(old(self), par as int, name, r)
                } else {
                    !r && final(self).view() == old(self).view()
                },
                None => !r && final(self).view() == old(self).view(),
            },
    {
        let ghost f0 = *self;
        let p = path.as_bytes();
        let (par, a, b) = match self.split_parent(p) {
            Some(x) => x,
            None => {
                return false;
            },
        };
        if !self.check_dir(par) {
            return false;
        }
        let name = vstd::slice::slice_subrange(p, a, b);
        let ghost f1 = *self;
        let r = self.remove_bytes(par, name);
        proof {
            self.lemma_remove_outcome_congr(&f1, &f0, par as int, name@, r);
        }
        r
    }
}

/// A cursor into an open file: the inode and a byte position. Many may be open on
/// one filesystem at once; each keeps its own position.
pub struct File {
    inode: u32,
    pos: usize,
}

impl File {
    /// The open file's inode.
    pub closed spec fn spec_inode(&self) -> u32 {
        self.inode
    }

    /// The cursor's position.
    pub closed spec fn spec_pos(&self) -> usize {
        self.pos
    }

    /// Wraps `inode` as an open file positioned at the start.
    pub fn new(inode: u32) -> (r: File)
        ensures
            r.spec_inode() == inode,
            r.spec_pos() == 0,
    {
        File { inode, pos: 0 }
    }

    /// The open file's inode number.
    pub fn inode(&self) -> (r: u32)
        ensures
            r == self.spec_inode(),
    {
        self.inode
    }

    /// Current cursor position.
    pub fn pos(&self) -> (r: usize)
        ensures
            r == self.spec_pos(),
    {
        self.pos
    }

    /// Current file length in bytes.
    pub fn len<D: BlockDevice>(&self, fs: &mut Fs<D>) -> (r: usize)
        requires
            old(fs).inv(),
            self.spec_inode() < old(fs).spec_sb().ninodes,
        ensures
            final(fs).inv(),
            final(fs).view() == old(fs).view(),
            final(fs).spec_sb() == old(fs).spec_sb(),
            r == old(fs).contents(self.spec_inode() as int).len(),
    {
        fs.inode_size(self.inode)
    }

    /// Whether the file is empty.
    pub fn is_empty<D: BlockDevice>(&self, fs: &mut Fs<D>) -> (r: bool)
        requires
            old(fs).inv(),
            self.spec_inode() < old(fs).spec_sb().ninodes,
        ensures
            final(fs).inv(),
            final(fs).view() == old(fs).view(),
            final(fs).spec_sb() == old(fs).spec_sb(),
            r == (old(fs).contents(self.spec_inode() as int).len() == 0),
    {
        self.len(fs) == 0
    }

    /// Resizes the file to `len` bytes, freeing the blocks a shrink gives up. The
    /// cursor does not move.
    pub fn set_len<D: BlockDevice>(&mut self, fs: &mut Fs<D>, len: usize)
        requires
            old(fs).inv(),
            old(fs).live(old(self).spec_inode() as int),
            len <= MAX_FILE_SIZE,
        ensures
            *final(self) == *old(self),
            final(fs).inv(),
            final(fs).spec_sb() == old(fs).spec_sb(),
            forall|i: int| #[trigger] final(fs).live(i) == old(fs).live(i),
            final(fs).contents(old(self).spec_inode() as int) == spec_resize(
                old(fs).contents(old(self).spec_inode() as int),
                len as int,
            ),
            forall|i: int|
                old(fs).live(i) && i != old(self).spec_inode() ==> #[trigger] final(fs).contents(i) == old(fs).contents(i),
            forall|i: int|
                old(fs).live(i) ==> #[trigger] final(fs).raw_kind(i) == old(fs).raw_kind(i) && final(fs).links(i)
                    == old(fs).links(i),
    {
        fs.set_len(self.inode, len);
    }

    /// Moves the cursor to byte `pos`.
    pub fn seek(&mut self, pos: usize)
        ensures
            final(self).spec_pos() == pos,
            final(self).spec_inode() == old(self).spec_inode(),
    {
        self.pos = pos;
    }

    /// Moves the cursor back to the start.
    pub fn rewind(&mut self)
        ensures
            final(self).spec_pos() == 0,
            final(self).spec_inode() == old(self).spec_inode(),
    {
        self.pos = 0;
    }

    /// Reads from the cursor into `buf`, advancing it; returns the bytes read, 0 at or
    /// past the end.
    pub fn read<D: BlockDevice>(&mut self, fs: &mut Fs<D>, buf: &mut [u8]) -> (r: usize)
        requires
            old(fs).inv(),
            old(fs).live(old(self).spec_inode() as int),
        ensures
            final(fs).inv(),
            final(fs).view() == old(fs).view(),
            final(fs).spec_sb() == old(fs).spec_sb(),
            final(self).spec_inode() == old(self).spec_inode(),
            final(self).spec_pos() == old(self).spec_pos() + r,
            ({
                let c = old(fs).contents(old(self).spec_inode() as int);
                let pos = old(self).spec_pos();
                &&& r == if pos >= c.len() || old(buf)@.len() == 0 {
                    0
                } else if old(buf)@.len() < c.len() - pos {
                    old(buf)@.len() as int
                } else {
                    c.len() - pos
                }
                &&& final(buf)@.len() == old(buf)@.len()
                &&& forall|j: int| 0 <= j < r ==> #[trigger] final(buf)@[j] == c[pos + j]
                &&& forall|j: int| r <= j < old(buf)@.len() ==> #[trigger] final(buf)@[j] == old(buf)@[j]
            }),
    {
        let n = fs.read_at(self.inode, self.pos, buf);
        proof {
            old(fs).lemma_contents_bounded(self.inode as int);
        }
        self.pos = self.pos + n;
        n
    }

    /// Writes `buf` at the cursor, advancing it past what was written and growing
    /// the file as needed; returns the bytes written, all of `buf` unless the data
    /// blocks run out.
    pub fn write<D: BlockDevice>(&mut self, fs: &mut Fs<D>, buf: &[u8]) -> (r: usize)
        requires
            old(fs).inv(),
            old(fs).live(old(self).spec_inode() as int),
            old(self).spec_pos() + buf@.len() <= MAX_FILE_SIZE,
        ensures
            final(fs).inv(),
            final(fs).spec_sb() == old(fs).spec_sb(),
            final(self).spec_inode() == old(self).spec_inode(),
            final(self).spec_pos() == old(self).spec_pos() + r,
            r <= buf@.len(),
            r < buf@.len() ==> final(fs).is_data_full(),
            forall|i: int| #[trigger] final(fs).live(i) == old(fs).live(i),
            final(fs).contents(old(self).spec_inode() as int) == spec_write(
                old(fs).contents(old(self).spec_inode() as int),
                old(self).spec_pos() as int,
                buf@.take(r as int),
            ),
            forall|i: int|
                old(fs).live(i) && i != old(self).spec_inode() ==> #[trigger] final(fs).contents(i) == old(fs).contents(
                    i,
                ),
            forall|i: int|
                old(fs).live(i) ==> #[trigger] final(fs).raw_kind(i) == old(fs).raw_kind(i) && final(fs).links(i)
                    == old(fs).links(i),
    {
        let n = fs.write_at(self.inode, self.pos, buf);
        self.pos = self.pos + n;
        n
    }

    /// Appends the file's bytes from the cursor to its end onto `out`, advancing the
    /// cursor; returns the bytes read.
    pub fn read_to_end<D: BlockDevice>(&mut self, fs: &mut Fs<D>, out: &mut Vec<u8>) -> (r: usize)
        requires
            old(fs).inv(),
            old(fs).live(old(self).spec_inode() as int),
            old(out)@.len() + old(fs).contents(old(self).spec_inode() as int).len() <= usize::MAX,
        ensures
            final(fs).inv(),
            final(fs).view() == old(fs).view(),
            final(fs).spec_sb() == old(fs).spec_sb(),
            final(self).spec_inode() == old(self).spec_inode(),
            final(self).spec_pos() == old(self).spec_pos() + r,
            ({
                let c = old(fs).contents(old(self).spec_inode() as int);
                let pos = old(self).spec_pos() as int;
                &&& r == if pos >= c.len() { 0 } else { c.len() - pos }
                &&& final(out)@ == if pos >= c.len() { old(out)@ } else { old(out)@ + c.subrange(pos, c.len() as int) }
            }),
    {
        let ghost c = fs.contents(self.inode as int);
        let len = self.len(fs);
        let remaining = if len > self.pos {
            len - self.pos
        } else {
            0
        };
        let start = out.len();
        let mut chunk: Vec<u8> = vec![0u8; remaining];
        let n = fs.read_at(self.inode, self.pos, chunk.as_mut_slice());
        let mut k: usize = 0;
        while k < n
            invariant
                k <= n,
                n <= chunk@.len(),
                out@.len() == start + k,
                forall|j: int| 0 <= j < start ==> #[trigger] out@[j] == old(out)@[j],
                start == old(out)@.len(),
                forall|j: int| 0 <= j < k ==> #[trigger] out@[start + j] == chunk@[j],
                forall|j: int| 0 <= j < n ==> #[trigger] chunk@[j] == c[self.pos + j],
                n == 0 || self.pos + n <= c.len(),
                self.pos < c.len() ==> n == c.len() - self.pos,
            decreases n - k,
        {
            out.push(chunk[k]);
            k = k + 1;
        }
        proof {
            old(fs).lemma_contents_bounded(self.inode as int);
            if self.pos >= c.len() {
                assert(out@ =~= old(out)@);
            } else {
                let want = old(out)@ + c.subrange(self.pos as int, c.len() as int);
                assert forall|j: int| 0 <= j < out@.len() implies #[trigger] out@[j] == want[j] by {
                    if j >= start {
                        let q = j - start;
                        assert(out@[start + q] == chunk@[q]);
                        assert(chunk@[q] == c[self.pos + q]);
                    }
                }
                assert(out@ =~= want);
            }
        }
        self.pos = self.pos + n;
        n
    }
}

/// `next_slash` from `i` is `e` when no `/` lies from `i` up to `e`, and `e` is the
/// end or a `/`.
proof fn lemma_next_slash_at(p: Seq<u8>, i: int, e: int)
    requires
        0 <= i <= e <= p.len(),
        forall|k: int| i <= k < e ==> #[trigger] p[k] != 47u8,
        e == p.len() || p[e] == 47u8,
    ensures
        next_slash(p, i) == e,
    decreases e - i,
{
    if i < e {
        lemma_next_slash_at(p, i + 1, e);
    }
}

/// The final component of a valid UTF-8 path is valid UTF-8: it lies between a `/`
/// (or the start) and a `/` (or the end), both character boundaries.
proof fn lemma_final_name_utf8(p: Seq<u8>)
    requires
        valid_utf8(p),
    ensures
        valid_utf8(final_name(p)),
{
    let t = trimmed_len(p, p.len() as int);
    lemma_split_bounds(p, p.len() as int);
    lemma_split_bounds(p, t);
    let j = last_slash(p, t);
    let r = if j < 0 {
        assert(p.subrange(0, p.len() as int) =~= p);
        p
    } else {
        is_char_boundary_iff_not_is_continuation_byte(p, j);
        valid_utf8_split(p, j);
        let q = p.subrange(j, p.len() as int);
        assert(q[0] == 47u8);
        assert(valid_utf8(pop_first_scalar(q)));
        assert(pop_first_scalar(q) =~= p.subrange(j + 1, p.len() as int));
        p.subrange(j + 1, p.len() as int)
    };
    assert(r =~= p.subrange(j + 1, p.len() as int));
    let m = t - (j + 1);
    if t == p.len() {
        is_char_boundary_start_end_of_seq(r);
        assert(m == r.len());
    } else {
        assert(r[m] == p[t]);
        is_char_boundary_iff_not_is_continuation_byte(r, m);
    }
    valid_utf8_split(r, m);
    assert(r.subrange(0, m) =~= final_name(p));
}

impl<D: BlockDevice> Fs<D> {
    /// A path that holds only `/`s from `i` on leads nowhere further.
    proof fn lemma_walk_slashes(&self, at: u32, p: Seq<u8>, i: int)
        requires
            0 <= i <= p.len(),
            forall|k: int| i <= k < p.len() ==> #[trigger] p[k] == 47u8,
        ensures
            self.walk(at, p, i) == Some(at),
        decreases p.len() - i,
    {
        if i < p.len() {
            self.lemma_walk_slashes(at, p, i + 1);
        }
    }

    /// Walking `p` from `i` up to a `/` at `j` is walking the prefix before `j`, then
    /// going on from `j`.
    proof fn lemma_walk_prefix(&self, at: u32, p: Seq<u8>, j: int, i: int)
        requires
            0 <= i <= j < p.len(),
            p[j] == 47u8,
        ensures
            self.walk(at, p, i) == match self.walk(at, p.subrange(0, j), i) {
                Some(x) => self.walk(x, p, j),
                None => None,
            },
        decreases j - i,
    {
        let q = p.subrange(0, j);
        if i < j {
            assert(q[i] == p[i]);
            if p[i] == 47u8 {
                self.lemma_walk_prefix(at, p, j, i + 1);
            } else {
                let e = next_slash(p, i);
                lemma_next_slash(p, i);
                assert(e <= j) by {
                    if e > j {
                        assert(p[j] != 47u8);
                    }
                }
                assert forall|k: int| i <= k < e implies #[trigger] q[k] != 47u8 by {
                    assert(q[k] == p[k]);
                }
                if e < j {
                    assert(q[e] == p[e]);
                }
                lemma_next_slash_at(q, i, e);
                assert(q.subrange(i, e) =~= p.subrange(i, e));
                if let Some(child) = dir_lookup_spec(self.contents(at as int), p.subrange(i, e)) {
                    if e < j {
                        self.lemma_walk_prefix(child, p, j, e);
                    } else {
                        assert(self.walk(child, q, e) == Some(child));
                    }
                }
            }
        } else {
            assert(self.walk(at, q, i) == Some(at));
        }
    }

    /// The last component of `p`, from just past its last `/` (or the start), names
    /// in directory `x` what the directory's contents say, and nothing else follows.
    proof fn lemma_walk_last(&self, x: u32, p: Seq<u8>)
        requires
            final_name(p).len() > 0,
        ensures
            self.walk(x, p, last_slash(p, trimmed_len(p, p.len() as int)) + 1) == if !(x < self.spec_sb().ninodes
                && self.live(x as int) && self.raw_kind(x as int) == InodeType::Dir.spec_as_raw()) {
                None
            } else {
                dir_lookup_spec(self.contents(x as int), final_name(p))
            },
    {
        let t = trimmed_len(p, p.len() as int);
        lemma_split_bounds(p, p.len() as int);
        lemma_split_bounds(p, t);
        let j = last_slash(p, t);
        assert(p[j + 1] != 47u8);
        lemma_next_slash_at(p, j + 1, t);
        if let Some(c) = dir_lookup_spec(self.contents(x as int), final_name(p)) {
            self.lemma_walk_slashes(c, p, t);
        }
    }

    /// `self` is `before` with an entry for `target` named `name` appended to
    /// directory `par`, where no entry showed `name`, and no other directory changed:
    /// what `create` and `link` do to the tree.
    pub open spec fn appended_entry(&self, before: &Self, par: int, name: Seq<u8>, target: u32) -> bool {
        &&& self.spec_sb() == before.spec_sb()
        &&& forall|i: int|
            #![trigger self.live(i)]
            #![trigger self.raw_kind(i)]
            before.live(i) ==> self.live(i) && self.raw_kind(i) == before.raw_kind(i)
        &&& forall|i: int| before.live(i) && i != par ==> #[trigger] self.contents(i) == before.contents(i)
        &&& self.contents(par) == spec_write(
            before.contents(par),
            DIRENT_SIZE * entry_count(before.contents(par)),
            entry_bytes(target, name),
        )
        &&& spec_valid_name(name)
        &&& dir_lookup_spec(before.contents(par), name) is None
    }

    /// Where a path led before an entry was appended to `par`, it leads after: no
    /// directory changed but `par`, and there only under the new name, which no path
    /// that led anywhere could have used.
    proof fn lemma_walk_after_append(&self, before: &Self, par: int, name: Seq<u8>, target: u32, at: u32, q: Seq<u8>, i: int)
        requires
            self.appended_entry(before, par, name, target),
            valid_utf8(name),
            before.walk(at, q, i) is Some,
        ensures
            self.walk(at, q, i) == before.walk(at, q, i),
        decreases q.len() - i,
    {
        if 0 <= i < q.len() {
            if q[i] == 47u8 {
                self.lemma_walk_after_append(before, par, name, target, at, q, i + 1);
            } else {
                let e = next_slash(q, i);
                lemma_next_slash(q, i);
                let comp = q.subrange(i, e);
                assert(before.live(at as int));
                assert(self.live(at as int));
                assert(self.raw_kind(at as int) == before.raw_kind(at as int));
                let child = dir_lookup_spec(before.contents(at as int), comp)->0;
                if at as int == par {
                    lemma_lookup_after_append(before.contents(par), name, target);
                    assert(comp != name);
                    assert(dir_lookup_spec(self.contents(at as int), comp) == Some(child));
                } else {
                    assert(self.contents(at as int) == before.contents(at as int));
                }
                self.lemma_walk_after_append(before, par, name, target, child, q, e);
            }
        }
    }

    /// Once an entry for `target` has been appended under the final component of path
    /// `p` to the directory `p`'s parent path led to, `p` leads to `target`.
    proof fn lemma_walk_to_appended(&self, before: &Self, p: Seq<u8>, target: u32)
        requires
            valid_utf8(p),
            match before.split_spec(p) {
                Some((par, name)) => before.is_dir(par as int) && self.appended_entry(before, par as int, name, target),
                None => false,
            },
        ensures
            self.walk(self.spec_sb().root_inode, p, 0) == Some(target),
    {
        lemma_final_name_utf8(p);
        let t = trimmed_len(p, p.len() as int);
        lemma_split_bounds(p, p.len() as int);
        lemma_split_bounds(p, t);
        let j = last_slash(p, t);
        let name = final_name(p);
        let (par, _n) = before.split_spec(p)->0;
        let root = self.spec_sb().root_inode;
        lemma_lookup_after_append(before.contents(par as int), name, target);
        assert(self.live(par as int));
        assert(self.raw_kind(par as int) == before.raw_kind(par as int));
        self.lemma_walk_last(par, p);
        if j >= 0 {
            let pp = p.subrange(0, j);
            assert(parent_path(p) == pp);
            self.lemma_walk_prefix(root, p, j, 0);
            if pp.len() > 0 {
                self.lemma_walk_after_append(before, par as int, name, target, root, pp, 0);
            }
            assert(self.walk(par, p, j) == self.walk(par, p, j + 1));
        } else {
            assert(parent_path(p).len() == 0);
        }
    }

    /// Once `create_path` has made `path` as inode `id`, resolving `path` finds `id`.
    pub proof fn lemma_resolve_after_create(&self, before: &Self, path: &str, kind: InodeType, id: u32)
        requires
            self.spec_sb() == before.spec_sb(),
            match before.split_spec(path.spec_bytes()) {
                Some((par, name)) => before.is_dir(par as int) && self.create_outcome(
                    before,
                    par as int,
                    name,
                    kind,
                    Some(id),
                ),
                None => false,
            },
        ensures
            self.walk(self.spec_sb().root_inode, path.spec_bytes(), 0) == Some(id),
    {
        vstd::utf8::encode_utf8_valid_utf8(path@);
        let (par, name) = before.split_spec(path.spec_bytes())->0;
        assert(self.appended_entry(before, par as int, name, id));
        self.lemma_walk_to_appended(before, path.spec_bytes(), id);
    }

    /// Once `link_path` has linked `new_path` to the file `existing` led to,
    /// resolving `new_path` finds that same inode, which has one link more.
    pub proof fn lemma_resolve_after_link(&self, before: &Self, existing: &str, new_path: &str)
        requires
            self.spec_sb() == before.spec_sb(),
            match before.walk(before.spec_sb().root_inode, existing.spec_bytes(), 0) {
                Some(target) => match before.split_spec(new_path.spec_bytes()) {
                    Some((par, name)) => before.is_dir(par as int) && self.link_outcome(
                        before,
                        par as int,
                        name,
                        target,
                        true,
                    ),
                    None => false,
                },
                None => false,
            },
        ensures
            self.walk(self.spec_sb().root_inode, new_path.spec_bytes(), 0) == before.walk(
                before.spec_sb().root_inode,
                existing.spec_bytes(),
                0,
            ),
            ({
                let target = before.walk(before.spec_sb().root_inode, existing.spec_bytes(), 0)->0;
                self.links(target as int) == before.links(target as int) + 1
            }),
    {
        vstd::utf8::encode_utf8_valid_utf8(new_path@);
        let target = before.walk(before.spec_sb().root_inode, existing.spec_bytes(), 0)->0;
        let (par, name) = before.split_spec(new_path.spec_bytes())->0;
        assert(self.appended_entry(before, par as int, name, target));
        self.lemma_walk_to_appended(before, new_path.spec_bytes(), target);
    }
}

impl<D: BlockDevice> Fs<D> {
    /// A walk that ends somewhere other than where it starts starts at a directory in
    /// use that holds at least one entry.
    proof fn lemma_walk_moves(&self, x: u32, q: Seq<u8>, e: int, y: u32)
        requires
            self.walk(x, q, e) == Some(y),
            y != x,
        ensures
            x < self.spec_sb().ninodes,
            self.live(x as int),
            self.raw_kind(x as int) == InodeType::Dir.spec_as_raw(),
            self.contents(x as int).len() > 0,
        decreases q.len() - e,
    {
        if 0 <= e < q.len() {
            if q[e] == 47u8 {
                self.lemma_walk_moves(x, q, e + 1, y);
            } else {
                let k = next_slash(q, e);
                lemma_find_from(self.contents(x as int), q.subrange(e, k), 0);
            }
        }
    }

    /// Where a path led to `par` before `remove` took `name` out of `par` (whose
    /// names are each shown once), it leads after: the entry removed names a file or
    /// an empty directory, which no such path passes through.
    proof fn lemma_walk_after_remove(&self, before: &Self, par: int, name: Seq<u8>, at: u32, q: Seq<u8>, i: int)
        requires
            self.remove_outcome(before, par, name, true),
            self.spec_sb() == before.spec_sb(),
            before.is_dir(par),
            forall|n: Seq<u8>| #[trigger] shown_once(before.contents(par), n),
            before.walk(at, q, i) == Some(par as u32),
        ensures
            self.walk(at, q, i) == Some(par as u32),
        decreases q.len() - i,
    {
        let c = before.contents(par);
        lemma_find_from(c, name, 0);
        let slot = dir_find(c, name)->0;
        let t = entry_inode(c, slot) as int;
        if 0 <= i < q.len() {
            if q[i] == 47u8 {
                self.lemma_walk_after_remove(before, par, name, at, q, i + 1);
            } else {
                let e = next_slash(q, i);
                lemma_next_slash(q, i);
                let comp = q.subrange(i, e);
                let child = dir_lookup_spec(before.contents(at as int), comp)->0;
                lemma_find_from(before.contents(at as int), comp, 0);
                assert(at as int != t);
                assert(self.live(at as int));
                assert(self.raw_kind(at as int) == before.raw_kind(at as int));
                if at as int == par {
                    if comp == name {
                        assert(child as int == t);
                        if child as int != par {
                            before.lemma_walk_moves(child, q, e, par as u32);
                        }
                        assert(false);
                    }
                    lemma_lookup_after_removed_entry(c, slot);
                    assert(dir_lookup_spec(self.contents(at as int), comp) == Some(child));
                } else {
                    assert(self.contents(at as int) == before.contents(at as int));
                }
                self.lemma_walk_after_remove(before, par, name, child, q, e);
            }
        }
    }

    /// Once `remove_path` has removed `path` from a directory that shows each name
    /// once, resolving `path` finds nothing.
    pub proof fn lemma_resolve_after_remove(&self, before: &Self, path: &str)
        requires
            self.spec_sb() == before.spec_sb(),
            match before.split_spec(path.spec_bytes()) {
                Some((par, name)) => {
                    &&& before.is_dir(par as int)
                    &&& self.remove_outcome(before, par as int, name, true)
                    &&& forall|n: Seq<u8>| #[trigger] shown_once(before.contents(par as int), n)
                },
                None => false,
            },
        ensures
            self.walk(self.spec_sb().root_inode, path.spec_bytes(), 0) is None,
    {
        let p = path.spec_bytes();
        let t = trimmed_len(p, p.len() as int);
        lemma_split_bounds(p, p.len() as int);
        lemma_split_bounds(p, t);
        let j = last_slash(p, t);
        let name = final_name(p);
        let (par, _n) = before.split_spec(p)->0;
        let root = self.spec_sb().root_inode;
        let c = before.contents(par as int);
        lemma_find_from(c, name, 0);
        let slot = dir_find(c, name)->0;
        lemma_lookup_after_removed_entry(c, slot);
        assert(par as int != entry_inode(c, slot) as int);
        assert(self.live(par as int));
        assert(self.raw_kind(par as int) == before.raw_kind(par as int));
        assert(self.contents(par as int) == dir_removed(c, slot));
        self.lemma_walk_last(par, p);
        if j >= 0 {
            let pp = p.subrange(0, j);
            assert(parent_path(p) == pp);
            self.lemma_walk_prefix(root, p, j, 0);
            if pp.len() > 0 {
                self.lemma_walk_after_remove(before, par as int, name, root, pp, 0);
            }
            assert(self.walk(par, p, j) == self.walk(par, p, j + 1));
        }
    }
}

} // verus!
