//! Persistent rfs layout.
//!
//! ```text
//! ┌──────────┬──────────────┬─────────────┬─────────────┬─────────────┐
//! │ super(0) │ inode bitmap │ data bitmap │ inode table │ data blocks │
//! └──────────┴──────────────┴─────────────┴─────────────┴─────────────┘
//! ```
//!
//! [`SuperBlock`] records every region in blocks. On-disk integers are fixed-width
//! little-endian values; each record has a fixed size and a byte encoding of its
//! own. Inode kinds remain raw until validated.

use vstd::prelude::*;

use crate::blockdev::BLOCK_SIZE;
use vstd::string::StringSliceAdditionalSpecFns;
use vstd::utf8::valid_utf8;

verus! {

/// Superblock magic, written as the hexadecimal mnemonic `RFS1`.
pub const FS_MAGIC: u32 = 0x5246_5331;

pub const ROOT_INODE: u32 = 0;

/// Bytes in an encoded [`SuperBlock`].
pub const SUPERBLOCK_SIZE: usize = 52;

/// Bytes in an encoded [`DiskInode`].
pub const INODE_SIZE: usize = 128;

/// Bytes in an encoded [`DirEntry`].
pub const DIRENT_SIZE: usize = 32;

pub const INODES_PER_BLOCK: usize = BLOCK_SIZE / INODE_SIZE;

pub const POINTERS_PER_BLOCK: usize = BLOCK_SIZE / 4;

pub const DIRECT_COUNT: usize = 26;

/// Maximum file-name length in bytes; names are not NUL-terminated.
pub const NAME_MAX: usize = 27;

/// Maximum blocks addressable by the direct, single-, and double-indirect pointers.
pub const MAX_FILE_BLOCKS: usize = DIRECT_COUNT + POINTERS_PER_BLOCK + POINTERS_PER_BLOCK
    * POINTERS_PER_BLOCK;

/// Maximum file length in bytes.
pub const MAX_FILE_SIZE: usize = MAX_FILE_BLOCKS * BLOCK_SIZE;

/// The little-endian `u32` stored at byte `at` of `s`.
pub open spec fn spec_le32(s: Seq<u8>, at: int) -> u32 {
    (s[at] as u32) | ((s[at + 1] as u32) << 8u32) | ((s[at + 2] as u32) << 16u32) | ((s[at
        + 3] as u32) << 24u32)
}

/// The four little-endian bytes of `v`.
pub open spec fn spec_le32_bytes(v: u32) -> Seq<u8> {
    seq![(v & 0xff) as u8, ((v >> 8u32) & 0xff) as u8, ((v >> 16u32) & 0xff) as u8, ((v >> 24u32) & 0xff) as u8]
}

/// `s` with the bytes from `at` on replaced by `t`.
pub open spec fn splice(s: Seq<u8>, at: int, t: Seq<u8>) -> Seq<u8> {
    Seq::new(s.len(), |j: int| if at <= j < at + t.len() { t[j - at] } else { s[j] })
}

/// Encoding then decoding a `u32` gives it back.
pub proof fn lemma_le32_roundtrip(s: Seq<u8>, at: int, v: u32)
    requires
        0 <= at,
        at + 4 <= s.len(),
    ensures
        spec_le32(splice(s, at, spec_le32_bytes(v)), at) == v,
{
    let t = splice(s, at, spec_le32_bytes(v));
    assert(t[at] == (v & 0xff) as u8);
    assert(t[at + 1] == ((v >> 8u32) & 0xff) as u8);
    assert(t[at + 2] == ((v >> 16u32) & 0xff) as u8);
    assert(t[at + 3] == ((v >> 24u32) & 0xff) as u8);
    let b0 = t[at];
    let b1 = t[at + 1];
    let b2 = t[at + 2];
    let b3 = t[at + 3];
    assert(b0 == (v & 0xff) as u8 && b1 == ((v >> 8u32) & 0xff) as u8 && b2 == ((v >> 16u32)
        & 0xff) as u8 && b3 == ((v >> 24u32) & 0xff) as u8 ==> (b0 as u32) | ((b1 as u32)
        << 8u32) | ((b2 as u32) << 16u32) | ((b3 as u32) << 24u32) == v) by (bit_vector);
}

/// A `u32` decoded from bytes that a splice elsewhere left alone is unchanged.
pub proof fn lemma_le32_frame(s: Seq<u8>, at: int, t: Seq<u8>, other: int)
    requires
        0 <= other,
        other + 4 <= s.len(),
        other + 4 <= at || at + t.len() <= other,
    ensures
        spec_le32(splice(s, at, t), other) == spec_le32(s, other),
{
    let u = splice(s, at, t);
    assert(u[other] == s[other] && u[other + 1] == s[other + 1] && u[other + 2] == s[other
        + 2] && u[other + 3] == s[other + 3]);
}

/// Decode the little-endian `u32` at byte `at` of `s`.
pub fn get_le32(s: &[u8], at: usize) -> (r: u32)
    requires
        at + 4 <= s@.len(),
    ensures
        r == spec_le32(s@, at as int),
{
    (s[at] as u32) | ((s[at + 1] as u32) << 8u32) | ((s[at + 2] as u32) << 16u32) | ((s[at
        + 3] as u32) << 24u32)
}

/// Encode `v` little-endian into bytes `at .. at + 4` of `s`.
pub fn put_le32(s: &mut Vec<u8>, at: usize, v: u32)
    requires
        at + 4 <= old(s)@.len(),
    ensures
        final(s)@ == splice(old(s)@, at as int, spec_le32_bytes(v)),
{
    let _len = s.len();
    s.set(at, (v & 0xff) as u8);
    s.set(at + 1, ((v >> 8u32) & 0xff) as u8);
    s.set(at + 2, ((v >> 16u32) & 0xff) as u8);
    s.set(at + 3, ((v >> 24u32) & 0xff) as u8);
    assert(s@ =~= splice(old(s)@, at as int, spec_le32_bytes(v)));
}

/// The filesystem superblock, stored in block 0.
#[derive(Clone, Copy, Debug, PartialEq, Eq, Structural)]
pub struct SuperBlock {
    pub magic: u32,
    pub block_size: u32,
    pub total_blocks: u32,
    pub ninodes: u32,
    pub inode_bitmap_start: u32,
    pub inode_bitmap_len: u32,
    pub data_bitmap_start: u32,
    pub data_bitmap_len: u32,
    pub inode_table_start: u32,
    pub inode_table_len: u32,
    pub data_start: u32,
    pub data_len: u32,
    pub root_inode: u32,
}

impl SuperBlock {
    /// The superblock that the first [`SUPERBLOCK_SIZE`] bytes of `s` encode.
    pub open spec fn spec_decode(s: Seq<u8>) -> SuperBlock {
        SuperBlock {
            magic: spec_le32(s, 0),
            block_size: spec_le32(s, 4),
            total_blocks: spec_le32(s, 8),
            ninodes: spec_le32(s, 12),
            inode_bitmap_start: spec_le32(s, 16),
            inode_bitmap_len: spec_le32(s, 20),
            data_bitmap_start: spec_le32(s, 24),
            data_bitmap_len: spec_le32(s, 28),
            inode_table_start: spec_le32(s, 32),
            inode_table_len: spec_le32(s, 36),
            data_start: spec_le32(s, 40),
            data_len: spec_le32(s, 44),
            root_inode: spec_le32(s, 48),
        }
    }

    /// Decode a superblock from the start of `s`.
    pub fn decode(s: &[u8]) -> (r: SuperBlock)
        requires
            SUPERBLOCK_SIZE <= s@.len(),
        ensures
            r == SuperBlock::spec_decode(s@),
    {
        SuperBlock {
            magic: get_le32(s, 0),
            block_size: get_le32(s, 4),
            total_blocks: get_le32(s, 8),
            ninodes: get_le32(s, 12),
            inode_bitmap_start: get_le32(s, 16),
            inode_bitmap_len: get_le32(s, 20),
            data_bitmap_start: get_le32(s, 24),
            data_bitmap_len: get_le32(s, 28),
            inode_table_start: get_le32(s, 32),
            inode_table_len: get_le32(s, 36),
            data_start: get_le32(s, 40),
            data_len: get_le32(s, 44),
            root_inode: get_le32(s, 48),
        }
    }

    /// Encode this superblock into the start of `s`, leaving the rest as it was.
    pub fn encode(&self, s: &mut Vec<u8>)
        requires
            SUPERBLOCK_SIZE <= old(s)@.len(),
        ensures
            final(s)@.len() == old(s)@.len(),
            SuperBlock::spec_decode(final(s)@) == *self,
            forall|j: int| SUPERBLOCK_SIZE <= j < old(s)@.len() ==> #[trigger] final(s)@[j] == old(
                s,
            )@[j],
    {
        let fields: [u32; 13] = [
            self.magic,
            self.block_size,
            self.total_blocks,
            self.ninodes,
            self.inode_bitmap_start,
            self.inode_bitmap_len,
            self.data_bitmap_start,
            self.data_bitmap_len,
            self.inode_table_start,
            self.inode_table_len,
            self.data_start,
            self.data_len,
            self.root_inode,
        ];
        let mut k: usize = 0;
        while k < 13
            invariant
                k <= 13,
                s@.len() == old(s)@.len(),
                SUPERBLOCK_SIZE <= s@.len(),
                forall|i: int| 0 <= i < k ==> spec_le32(s@, 4 * i) == #[trigger] fields@[i],
                forall|j: int| 4 * k <= j < s@.len() ==> #[trigger] s@[j] == old(s)@[j],
            decreases 13 - k,
        {
            let ghost before = s@;
            put_le32(s, 4 * k, fields[k]);
            proof {
                lemma_le32_roundtrip(before, 4 * k as int, fields@[k as int]);
                assert forall|i: int| 0 <= i < k + 1 implies spec_le32(s@, 4 * i)
                    == #[trigger] fields@[i] by {
                    if i < k {
                        lemma_le32_frame(before, 4 * k as int, spec_le32_bytes(fields@[k as int]), 4 * i);
                    }
                }
            }
            k = k + 1;
        }
        proof {
            assert(fields@[0] == self.magic);
            assert(fields@[12] == self.root_inode);
            assert(SuperBlock::spec_decode(s@) =~= *self) by {
                assert(spec_le32(s@, 0) == fields@[0]);
                assert(spec_le32(s@, 4) == fields@[1]);
                assert(spec_le32(s@, 8) == fields@[2]);
                assert(spec_le32(s@, 12) == fields@[3]);
                assert(spec_le32(s@, 16) == fields@[4]);
                assert(spec_le32(s@, 20) == fields@[5]);
                assert(spec_le32(s@, 24) == fields@[6]);
                assert(spec_le32(s@, 28) == fields@[7]);
                assert(spec_le32(s@, 32) == fields@[8]);
                assert(spec_le32(s@, 36) == fields@[9]);
                assert(spec_le32(s@, 40) == fields@[10]);
                assert(spec_le32(s@, 44) == fields@[11]);
                assert(spec_le32(s@, 48) == fields@[12]);
            }
        }
    }
}

/// A 128-byte on-disk inode.
///
/// Blocks are addressed directly, then through single- and double-indirect
/// pointers. Zero denotes an unallocated pointer.
#[derive(Clone, Copy, Debug, PartialEq, Eq)]
pub struct DiskInode {
    /// Raw [`InodeType`]; use [`InodeType::from_raw`] to interpret.
    pub type_: u32,
    pub size: u32,
    pub nlink: u32,
    pub _reserved: u32,
    pub direct: [u32; DIRECT_COUNT],
    pub indirect: u32,
    pub double_indirect: u32,
}

impl DiskInode {
    /// The inode encoded at byte `at` of `s` is this one.
    pub open spec fn encoded_at(&self, s: Seq<u8>, at: int) -> bool {
        &&& self.type_ == spec_le32(s, at)
        &&& self.size == spec_le32(s, at + 4)
        &&& self.nlink == spec_le32(s, at + 8)
        &&& self._reserved == spec_le32(s, at + 12)
        &&& forall|k: int| 0 <= k < DIRECT_COUNT ==> #[trigger] self.direct@[k] == spec_le32(s, at + 16 + 4 * k)
        &&& self.indirect == spec_le32(s, at + 120)
        &&& self.double_indirect == spec_le32(s, at + 124)
    }

    /// Decoding gives back what was encoded: the bytes at `at` hold one inode only.
    pub proof fn lemma_encoding_unique(self, other: DiskInode, s: Seq<u8>, at: int)
        requires
            self.encoded_at(s, at),
            other.encoded_at(s, at),
        ensures
            self == other,
    {
        assert(self.direct =~= other.direct);
    }

    /// An inode encoded at the start of `t` is encoded at `at` once `t` is spliced
    /// in there.
    pub proof fn lemma_encoded_splice(self, s: Seq<u8>, at: int, t: Seq<u8>)
        requires
            self.encoded_at(t, 0),
            t.len() == INODE_SIZE,
            0 <= at,
            at + INODE_SIZE <= s.len(),
        ensures
            self.encoded_at(splice(s, at, t), at),
    {
        let u = splice(s, at, t);
        assert forall|k: int| 0 <= k <= 124 implies #[trigger] spec_le32(t, k) == spec_le32(u, at + k) by {
            assert(u[at + k] == t[k]);
            assert(u[at + k + 1] == t[k + 1]);
            assert(u[at + k + 2] == t[k + 2]);
            assert(u[at + k + 3] == t[k + 3]);
        }
        assert(spec_le32(t, 0) == spec_le32(u, at));
        assert(spec_le32(t, 4) == spec_le32(u, at + 4));
        assert(spec_le32(t, 8) == spec_le32(u, at + 8));
        assert(spec_le32(t, 12) == spec_le32(u, at + 12));
        assert(spec_le32(t, 120) == spec_le32(u, at + 120));
        assert(spec_le32(t, 124) == spec_le32(u, at + 124));
        assert forall|k: int| 0 <= k < DIRECT_COUNT implies #[trigger] self.direct@[k] == spec_le32(u, at + 16 + 4 * k) by {
            assert(spec_le32(t, 16 + 4 * k) == spec_le32(u, at + 16 + 4 * k));
        }
    }

    /// The all-zero inode: free, empty, with no blocks.
    pub fn zeroed() -> (r: DiskInode)
        ensures
            r.type_ == 0 && r.size == 0 && r.nlink == 0 && r._reserved == 0,
            forall|k: int| 0 <= k < DIRECT_COUNT ==> #[trigger] r.direct@[k] == 0,
            r.indirect == 0 && r.double_indirect == 0,
    {
        DiskInode {
            type_: 0,
            size: 0,
            nlink: 0,
            _reserved: 0,
            direct: [0u32; DIRECT_COUNT],
            indirect: 0,
            double_indirect: 0,
        }
    }

    /// Decode the inode at byte `at` of `s`.
    pub fn decode(s: &[u8], at: usize) -> (r: DiskInode)
        requires
            at + INODE_SIZE <= s@.len(),
        ensures
            r.encoded_at(s@, at as int),
    {
        let len = s.len();
        let mut direct = [0u32; DIRECT_COUNT];
        let mut k: usize = 0;
        while k < DIRECT_COUNT
            invariant
                k <= DIRECT_COUNT,
                len == s@.len(),
                at + INODE_SIZE <= s@.len(),
                forall|j: int| 0 <= j < k ==> #[trigger] direct@[j] == spec_le32(s@, at + 16 + 4 * j),
            decreases DIRECT_COUNT - k,
        {
            direct[k] = get_le32(s, at + 16 + 4 * k);
            k = k + 1;
        }
        DiskInode {
            type_: get_le32(s, at),
            size: get_le32(s, at + 4),
            nlink: get_le32(s, at + 8),
            _reserved: get_le32(s, at + 12),
            direct,
            indirect: get_le32(s, at + 120),
            double_indirect: get_le32(s, at + 124),
        }
    }

    /// Encode this inode into bytes `at .. at + 128` of `s`.
    pub fn encode(&self, s: &mut Vec<u8>, at: usize)
        requires
            at + INODE_SIZE <= old(s)@.len(),
        ensures
            final(s)@.len() == old(s)@.len(),
            self.encoded_at(final(s)@, at as int),
            forall|j: int|
                0 <= j < old(s)@.len() && !(at <= j < at + INODE_SIZE) ==> #[trigger] final(s)@[j]
                    == old(s)@[j],
    {
        let len = s.len();
        let mut words: [u32; 32] = [0u32; 32];
        words[0] = self.type_;
        words[1] = self.size;
        words[2] = self.nlink;
        words[3] = self._reserved;
        let mut k: usize = 0;
        while k < DIRECT_COUNT
            invariant
                k <= DIRECT_COUNT,
                words@[0] == self.type_,
                words@[1] == self.size,
                words@[2] == self.nlink,
                words@[3] == self._reserved,
                forall|j: int| 0 <= j < k ==> #[trigger] words@[4 + j] == self.direct@[j],
            decreases DIRECT_COUNT - k,
        {
            words[4 + k] = self.direct[k];
            k = k + 1;
        }
        words[30] = self.indirect;
        words[31] = self.double_indirect;
        let mut w: usize = 0;
        while w < 32
            invariant
                w <= 32,
                s@.len() == old(s)@.len(),
                len == s@.len(),
                at + INODE_SIZE <= s@.len(),
                forall|i: int| 0 <= i < w ==> spec_le32(s@, at + 4 * i) == #[trigger] words@[i],
                forall|j: int|
                    0 <= j < s@.len() && !(at <= j < at + 4 * w) ==> #[trigger] s@[j] == old(
                        s,
                    )@[j],
            decreases 32 - w,
        {
            let ghost before = s@;
            put_le32(s, at + 4 * w, words[w]);
            proof {
                lemma_le32_roundtrip(before, at + 4 * w, words@[w as int]);
                assert forall|i: int| 0 <= i < w + 1 implies spec_le32(s@, at + 4 * i)
                    == #[trigger] words@[i] by {
                    if i < w {
                        lemma_le32_frame(before, at + 4 * w, spec_le32_bytes(words@[w as int]), at + 4 * i);
                    }
                }
            }
            w = w + 1;
        }
        proof {
            assert(spec_le32(s@, at + 4 * 0) == words@[0]);
            assert(spec_le32(s@, at + 4 * 1) == words@[1]);
            assert(spec_le32(s@, at + 4 * 2) == words@[2]);
            assert(spec_le32(s@, at + 4 * 3) == words@[3]);
            assert(spec_le32(s@, at + 4 * 30) == words@[30]);
            assert(spec_le32(s@, at + 4 * 31) == words@[31]);
            assert forall|k: int| 0 <= k < DIRECT_COUNT implies #[trigger] self.direct@[k]
                == spec_le32(s@, at + 16 + 4 * k) by {
                assert(spec_le32(s@, at + 4 * (4 + k)) == words@[4 + k]);
            }
        }
    }
}

/// A 32-byte directory entry.
///
/// Names use an explicit length and are not NUL-terminated. Every slot below a
/// directory's size is live; removal compacts entries and does not preserve order.
#[derive(Clone, Copy, Debug, PartialEq, Eq)]
pub struct DirEntry {
    pub inode: u32,
    pub name_len: u8,
    pub name: [u8; NAME_MAX],
}

/// Validated interpretation of [`DiskInode::type_`].
#[derive(Clone, Copy, Debug, PartialEq, Eq, Structural)]
pub enum InodeType {
    Free,
    File,
    Dir,
}

impl InodeType {
    /// The raw value each kind is stored as.
    pub open spec fn spec_as_raw(self) -> u32 {
        match self {
            InodeType::Free => 0,
            InodeType::File => 1,
            InodeType::Dir => 2,
        }
    }

    /// The kind stored as `raw`, if any.
    pub open spec fn spec_from_raw(raw: u32) -> Option<InodeType> {
        if raw == 0 {
            Some(InodeType::Free)
        } else if raw == 1 {
            Some(InodeType::File)
        } else if raw == 2 {
            Some(InodeType::Dir)
        } else {
            None
        }
    }

    pub fn from_raw(raw: u32) -> (r: Option<InodeType>)
        ensures
            r == InodeType::spec_from_raw(raw),
    {
        match raw {
            0 => Some(InodeType::Free),
            1 => Some(InodeType::File),
            2 => Some(InodeType::Dir),
            _ => None,
        }
    }

    pub fn as_raw(self) -> (r: u32)
        ensures
            r == self.spec_as_raw(),
    {
        match self {
            InodeType::Free => 0,
            InodeType::File => 1,
            InodeType::Dir => 2,
        }
    }
}

/// Every kind reads back as itself from its raw value, and no other raw value names
/// a kind.
pub proof fn lemma_inode_type_roundtrip(t: InodeType, raw: u32)
    ensures
        InodeType::spec_from_raw(t.spec_as_raw()) == Some(t),
        InodeType::spec_from_raw(raw) is Some <==> raw <= 2,
{
}

/// `core::str::from_utf8`: the bytes as a string slice when they are valid UTF-8.
///
/// The contract claims that `Some` comes back exactly for the byte strings that the
/// Unicode standard's UTF-8 rules accept, holding those very bytes.
#[verifier::external_body]
fn str_from_utf8(bytes: &[u8]) -> (r: Option<&str>)
    ensures
        match r {
            Some(s) => valid_utf8(bytes@) && s.spec_bytes() == bytes@,
            None => !valid_utf8(bytes@),
        },
{
    core::str::from_utf8(bytes).ok()
}

/// The name a stored name's bytes show: themselves when they are valid UTF-8,
/// otherwise the empty name.
pub open spec fn shown_name(b: Seq<u8>) -> Seq<u8> {
    if valid_utf8(b) {
        b
    } else {
        Seq::empty()
    }
}

/// The 32 bytes of a directory entry for `inode` named `name` (of at most
/// [`NAME_MAX`] bytes): the inode little-endian, the name's length, the name, then
/// zeros.
pub open spec fn entry_bytes(inode: u32, name: Seq<u8>) -> Seq<u8> {
    spec_le32_bytes(inode) + seq![name.len() as u8] + name + Seq::new((NAME_MAX - name.len()) as nat, |j: int| 0u8)
}

/// Four bytes read as a little-endian `u32` and written back are the same bytes.
pub proof fn lemma_le32_bytes_of(s: Seq<u8>, at: int)
    requires
        0 <= at,
        at + 4 <= s.len(),
    ensures
        spec_le32_bytes(spec_le32(s, at)) == s.subrange(at, at + 4),
{
    let b0 = s[at];
    let b1 = s[at + 1];
    let b2 = s[at + 2];
    let b3 = s[at + 3];
    let v = spec_le32(s, at);
    assert(v == (b0 as u32) | ((b1 as u32) << 8u32) | ((b2 as u32) << 16u32) | ((b3 as u32) << 24u32));
    assert((v & 0xff) as u8 == b0 && ((v >> 8u32) & 0xff) as u8 == b1 && ((v >> 16u32) & 0xff) as u8 == b2 && ((v
        >> 24u32) & 0xff) as u8 == b3) by (bit_vector)
        requires
            v == (b0 as u32) | ((b1 as u32) << 8u32) | ((b2 as u32) << 16u32) | ((b3 as u32) << 24u32),
    ;
    assert(spec_le32_bytes(v) =~= s.subrange(at, at + 4));
}

impl DirEntry {
    /// The stored name's bytes: the first `name_len` bytes of the field, clamped to
    /// the field's width.
    pub open spec fn spec_name_bytes(&self) -> Seq<u8> {
        self.name@.take(if self.name_len as int > NAME_MAX { NAME_MAX as int } else { self.name_len as int })
    }

    /// The entry encoded at byte `at` of `s` is this one.
    pub open spec fn encoded_at(&self, s: Seq<u8>, at: int) -> bool {
        &&& self.inode == spec_le32(s, at)
        &&& self.name_len == s[at + 4]
        &&& forall|k: int| 0 <= k < NAME_MAX ==> #[trigger] self.name@[k] == s[at + 5 + k]
    }

    /// Decoding gives back what was encoded: the bytes at `at` hold one entry only.
    pub proof fn lemma_encoding_unique(self, other: DirEntry, s: Seq<u8>, at: int)
        requires
            self.encoded_at(s, at),
            other.encoded_at(s, at),
        ensures
            self == other,
    {
        assert(self.name =~= other.name);
    }

    /// Builds an entry, truncating `name` to [`NAME_MAX`] bytes.
    pub fn new(inode: u32, name: &str) -> (r: DirEntry)
        ensures
            r.inode == inode,
            r.name_len as int == if name.spec_bytes().len() > NAME_MAX {
                NAME_MAX as int
            } else {
                name.spec_bytes().len() as int
            },
            r.spec_name_bytes() == name.spec_bytes().take(r.name_len as int),
            forall|k: int| r.name_len <= k < NAME_MAX ==> #[trigger] r.name@[k] == 0,
    {
        DirEntry::from_name_bytes(inode, name.as_bytes())
    }

    /// Builds an entry from a name's bytes, truncating them to [`NAME_MAX`].
    pub(crate) fn from_name_bytes(inode: u32, bytes: &[u8]) -> (r: DirEntry)
        ensures
            r.inode == inode,
            r.name_len as int == if bytes@.len() > NAME_MAX {
                NAME_MAX as int
            } else {
                bytes@.len() as int
            },
            r.spec_name_bytes() == bytes@.take(r.name_len as int),
            forall|k: int| r.name_len <= k < NAME_MAX ==> #[trigger] r.name@[k] == 0,
    {
        let n: usize = if bytes.len() > NAME_MAX {
            NAME_MAX
        } else {
            bytes.len()
        };
        let mut field = [0u8; NAME_MAX];
        let mut k: usize = 0;
        while k < n
            invariant
                k <= n,
                n <= NAME_MAX,
                n <= bytes@.len(),
                forall|j: int| 0 <= j < k ==> #[trigger] field@[j] == bytes@[j],
                forall|j: int| k <= j < NAME_MAX ==> #[trigger] field@[j] == 0,
            decreases n - k,
        {
            field[k] = bytes[k];
            k = k + 1;
        }
        let r = DirEntry { inode, name_len: n as u8, name: field };
        assert(r.spec_name_bytes() =~= bytes@.take(n as int));
        r
    }

    /// Returns the name, clamping corrupt lengths and mapping invalid UTF-8 to empty.
    pub fn name(&self) -> (r: &str)
        ensures
            r.spec_bytes() == shown_name(self.spec_name_bytes()),
    {
        let end: usize = if (self.name_len as usize) < NAME_MAX {
            self.name_len as usize
        } else {
            NAME_MAX
        };
        let bytes = slice_prefix(&self.name, end);
        match str_from_utf8(bytes) {
            Some(s) => s,
            None => {
                proof {
                    reveal_strlit("");
                    assert(""@.len() == 0);
                    assert(""@ =~= Seq::<char>::empty());
                }
                ""
            },
        }
    }

    /// Decode the entry at byte `at` of `s`.
    pub fn decode(s: &[u8], at: usize) -> (r: DirEntry)
        requires
            at + DIRENT_SIZE <= s@.len(),
        ensures
            r.encoded_at(s@, at as int),
    {
        let len = s.len();
        let mut field = [0u8; NAME_MAX];
        let mut k: usize = 0;
        while k < NAME_MAX
            invariant
                k <= NAME_MAX,
                len == s@.len(),
                at + DIRENT_SIZE <= s@.len(),
                forall|j: int| 0 <= j < k ==> #[trigger] field@[j] == s@[at + 5 + j],
            decreases NAME_MAX - k,
        {
            field[k] = s[at + 5 + k];
            k = k + 1;
        }
        DirEntry { inode: get_le32(s, at), name_len: s[at + 4], name: field }
    }

    /// Encode this entry into bytes `at .. at + 32` of `s`.
    pub fn encode(&self, s: &mut Vec<u8>, at: usize)
        requires
            at + DIRENT_SIZE <= old(s)@.len(),
        ensures
            final(s)@.len() == old(s)@.len(),
            self.encoded_at(final(s)@, at as int),
            forall|j: int|
                0 <= j < old(s)@.len() && !(at <= j < at + DIRENT_SIZE) ==> #[trigger] final(s)@[j]
                    == old(s)@[j],
    {
        let len = s.len();
        put_le32(s, at, self.inode);
        proof {
            lemma_le32_roundtrip(old(s)@, at as int, self.inode);
        }
        let ghost after_inode = s@;
        s.set(at + 4, self.name_len);
        assert(s@[at as int] == after_inode[at as int] && s@[at + 1] == after_inode[at + 1] && s@[at
            + 2] == after_inode[at + 2] && s@[at + 3] == after_inode[at + 3]);
        let mut k: usize = 0;
        while k < NAME_MAX
            invariant
                k <= NAME_MAX,
                len == s@.len(),
                s@.len() == old(s)@.len(),
                at + DIRENT_SIZE <= s@.len(),
                spec_le32(s@, at as int) == self.inode,
                s@[at + 4] == self.name_len,
                forall|j: int| 0 <= j < k ==> #[trigger] s@[at + 5 + j] == self.name@[j],
                forall|j: int|
                    0 <= j < old(s)@.len() && !(at <= j < at + DIRENT_SIZE) ==> #[trigger] s@[j]
                        == old(s)@[j],
            decreases NAME_MAX - k,
        {
            let ghost before = s@;
            s.set(at + 5 + k, self.name[k]);
            assert(s@[at as int] == before[at as int] && s@[at + 1] == before[at + 1] && s@[at
                + 2] == before[at + 2] && s@[at + 3] == before[at + 3]);
            k = k + 1;
        }
    }
}

/// The first `end` bytes of a name field.
fn slice_prefix(field: &[u8; NAME_MAX], end: usize) -> (r: &[u8])
    requires
        end <= NAME_MAX,
    ensures
        r@ == field@.take(end as int),
{
    vstd::slice::slice_subrange(field.as_slice(), 0, end)
}

} // verus!
