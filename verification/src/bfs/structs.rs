//! On-disk structures of the block file system and its free-block bitmap.
use vstd::prelude::*;
use vstd::utf8::valid_utf8;
use vstd::string::StringSliceAdditionalSpecFns;
use bitvec::order::Lsb0;
use bitvec::vec::BitVec;
use crate::util::Dirty;
use crate::vfs::{FileType, FsError, Timespec};

verus! {

/// Device id of a node that is not a device.
pub const NODEVICE: usize = 100;

/// magic number for sfs
pub const MAGIC: u32 = 0x2f8dbe2b;

/// log2( size of block )
pub const BLKSIZE_LOG2: u8 = 12;

/// size of block
pub const BLKSIZE: usize = 4096;

/// number of direct blocks in inode
pub const NDIRECT: usize = 12;

/// max length of infomation
pub const MAX_INFO_LEN: usize = 31;

/// max length of filename
pub const MAX_FNAME_LEN: usize = 255;

/// max file size in theory (48KB + 4MB + 4GB); the file size is stored in u32
pub const MAX_FILE_SIZE: usize = 0xffffffff;

/// block the superblock lives in
pub const BLKN_SUPER: usize = 0;

/// location of the root dir inode
pub const BLKN_ROOT: usize = 1;

/// 1st block of the freemap
pub const BLKN_FREEMAP: usize = 2;

/// number of bits in a block
pub const BLKBITS: usize = 32768;

/// size of one entry
pub const ENTRY_SIZE: usize = 4;

/// number of entries in a block
pub const BLK_NENTRY: usize = 1024;

/// size of a dirent used in the size field
pub const DIRENT_SIZE: usize = 260;

/// max number of blocks with direct blocks
pub const MAX_NBLOCK_DIRECT: usize = 12;

/// max number of blocks with indirect blocks
pub const MAX_NBLOCK_INDIRECT: usize = 1036;

/// max number of blocks with double indirect blocks
pub const MAX_NBLOCK_DOUBLE_INDIRECT: usize = 1049612;

/// The index of a block on the device.
pub type BlockId = usize;

/// The number of an inode: the block it is stored in.
pub type InodeId = usize;

/// The length of a NUL-terminated name: the bytes before the first zero byte
/// (all of them when there is none).
pub open spec fn name_len(s: Seq<u8>) -> nat
    decreases s.len(),
{
    if s.len() == 0 || s[0] == 0 {
        0
    } else {
        1 + name_len(s.drop_first())
    }
}

/// The bytes before `name_len`: none of them is zero, and the byte at
/// `name_len`, if any, is zero.
pub proof fn lemma_name_len(s: Seq<u8>)
    ensures
        name_len(s) <= s.len(),
        forall|i: int| 0 <= i < name_len(s) ==> s[i] != 0,
        name_len(s) < s.len() ==> s[name_len(s) as int] == 0,
    decreases s.len(),
{
    if s.len() > 0 && s[0] != 0 {
        lemma_name_len(s.drop_first());
        assert forall|i: int| 0 <= i < name_len(s) implies s[i] != 0 by {
            if i > 0 {
                assert(s[i] == s.drop_first()[i - 1]);
            }
        }
    }
}


/// A name stored with `Str256::from` reads back, with `as_ref`, as the same
/// bytes, provided it holds no zero byte and leaves room for one.
pub proof fn lemma_str256_round_trip(name: Seq<u8>)
    requires
        name.len() < 256,
        !name.contains(0u8),
    ensures
        ({
            let stored = name + Seq::new((256 - name.len()) as nat, |i: int| 0u8);
            &&& name_len(stored) == name.len()
            &&& stored.take(name_len(stored) as int) == name
        }),
{
    let stored = name + Seq::new((256 - name.len()) as nat, |i: int| 0u8);
    lemma_name_len(stored);
    let n = name_len(stored) as int;
    if n < name.len() {
        assert(stored[n] == name[n]);
    } else if n > name.len() {
        assert(stored[name.len() as int] == 0);
    }
    assert(stored.take(n) =~= name);
}

/// Position of the first zero byte of `s`, or `s.len()` when there is none.
fn find_nul(s: &[u8]) -> (r: usize)
    ensures
        r == name_len(s@),
{
    proof {
        lemma_name_len(s@);
    }
    let mut i: usize = 0;
    while i < s.len() && s[i] != 0
        invariant
            i <= s@.len(),
            name_len(s@) <= s@.len(),
            forall|j: int| 0 <= j < name_len(s@) ==> s@[j] != 0,
            name_len(s@) < s@.len() ==> s@[name_len(s@) as int] == 0,
            i <= name_len(s@),
        decreases s@.len() - i,
    {
        i += 1;
    }
    i
}

/// Checks that `v` is UTF-8 and views it as text.
///
/// Calls `core::str::from_utf8`, whose documentation says it returns the
/// bytes as a `&str` exactly when they are valid UTF-8.
#[verifier::external_body]
pub(crate) fn str_from_utf8(v: &[u8]) -> (r: Option<&str>)
    ensures
        r is Some <==> valid_utf8(v@),
        r matches Some(s) ==> s.spec_bytes() == v@,
{
    core::str::from_utf8(v).ok()
}

/// A name of at most 256 bytes, padded with zero bytes.
#[derive(Clone, Copy)]
pub struct Str256(pub [u8; 256]);

/// A text of at most 32 bytes, padded with zero bytes.
#[derive(Clone)]
pub struct Str32(pub [u8; 32]);

impl Str256 {
    /// The bytes of `s`, followed by zero bytes.
    pub fn from(s: &str) -> (r: Str256)
        requires
            s.spec_bytes().len() <= 256,
        ensures
            r.0@ == s.spec_bytes() + Seq::new((256 - s.spec_bytes().len()) as nat, |i: int| 0u8),
    {
        let bytes = s.as_bytes();
        let mut ret = [0u8; 256];
        let mut i: usize = 0;
        while i < bytes.len()
            invariant
                bytes@ == s.spec_bytes(),
                bytes@.len() <= 256,
                i <= bytes@.len(),
                ret@.len() == 256,
                forall|j: int| 0 <= j < i ==> #[trigger] ret@[j] == bytes@[j],
                forall|j: int| i <= j < 256 ==> #[trigger] ret@[j] == 0,
            decreases bytes@.len() - i,
        {
            ret[i] = bytes[i];
            i += 1;
        }
        let r = Str256(ret);
        assert(r.0@ =~= s.spec_bytes() + Seq::new((256 - s.spec_bytes().len()) as nat, |i: int| 0u8));
        r
    }

    /// The name: the bytes before the first zero byte, as text.
    pub fn as_ref(&self) -> (r: &str)
        requires
            name_len(self.0@) < 256,
            valid_utf8(self.0@.take(name_len(self.0@) as int)),
        ensures
            r.spec_bytes() == self.0@.take(name_len(self.0@) as int),
    {
        let len = find_nul(self.0.as_slice());
        let bytes = slice_prefix(self.0.as_slice(), len);
        let r = str_from_utf8(bytes);
        r.unwrap()
    }
}

impl Str32 {
    /// The text: the bytes before the first zero byte.
    pub fn as_ref(&self) -> (r: &str)
        requires
            name_len(self.0@) < 32,
            valid_utf8(self.0@.take(name_len(self.0@) as int)),
        ensures
            r.spec_bytes() == self.0@.take(name_len(self.0@) as int),
    {
        let len = find_nul(self.0.as_slice());
        let bytes = slice_prefix(self.0.as_slice(), len);
        let r = str_from_utf8(bytes);
        r.unwrap()
    }
}

/// The first `len` elements of `s`.
pub(crate) fn slice_prefix(s: &[u8], len: usize) -> (r: &[u8])
    requires
        len <= s@.len(),
    ensures
        r@ == s@.take(len as int),
{
    let (a, _) = s.split_at(len);
    a
}

/// A directory entry: a name and the inode it names.
#[derive(Clone, Copy)]
pub struct DiskEntry {
    pub inode_id: InodeId,
    pub name: Str256,
}

/// On-disk superblock
pub struct SuperBlock {
    /// magic number, should be SFS_MAGIC
    pub magic: u32,
    /// number of blocks in fs
    pub blocks: u32,
    /// number of unused blocks in fs
    pub unused_blocks: u32,
    /// information for sfs
    pub info: Str32,
    /// number of freemap blocks
    pub free_map_blocks: u32,
}

/// inode (on disk)
pub struct DiskINode {
    /// size of the file (in bytes)
    pub size: u32,
    /// one of SYS_TYPE_* above
    pub type_: FileType,
    /// number of hard links to this file
    pub nlinks: u16,
    /// number of blocks
    pub blocks: u32,
    /// direct blocks
    pub direct: [u32; NDIRECT],
    /// indirect blocks
    pub indirect: u32,
    /// double indirect blocks
    pub db_indirect: u32,
    /// device inode id for char/block device (major, minor)
    pub device_inode_id: usize,
    /// Time of last access
    pub atime: Timespec,
    /// Time of last modification
    pub mtime: Timespec,
    /// Time of last change
    pub ctime: Timespec,
}

/// The time zero.
pub open spec fn time_zero() -> Timespec {
    Timespec { sec: 0, nsec: 0 }
}

impl DiskINode {
    /// The inode fields describe an empty, unlinked node of this type and device.
    pub open spec fn is_empty_node(&self, type_: FileType, device_inode_id: usize) -> bool {
        &&& self.size == 0
        &&& self.type_ == type_
        &&& self.nlinks == 0
        &&& self.blocks == 0
        &&& forall|i: int| 0 <= i < NDIRECT ==> #[trigger] self.direct@[i] == 0
        &&& self.indirect == 0
        &&& self.db_indirect == 0
        &&& self.device_inode_id == device_inode_id
        &&& self.atime == time_zero()
        &&& self.mtime == time_zero()
        &&& self.ctime == time_zero()
    }

    fn new_empty(type_: FileType, device_inode_id: usize) -> (r: Self)
        ensures
            r.is_empty_node(type_, device_inode_id),
    {
        let r = DiskINode {
            size: 0,
            type_,
            nlinks: 0,
            blocks: 0,
            direct: [0u32; 12],
            indirect: 0,
            db_indirect: 0,
            device_inode_id,
            atime: Timespec { sec: 0, nsec: 0 },
            mtime: Timespec { sec: 0, nsec: 0 },
            ctime: Timespec { sec: 0, nsec: 0 },
        };
        r
    }

    /// An empty regular file.
    pub fn new_file() -> (r: Self)
        ensures
            r.is_empty_node(FileType::File, NODEVICE),
    {
        Self::new_empty(FileType::File, NODEVICE)
    }

    /// An empty symbolic link.
    pub fn new_symlink() -> (r: Self)
        ensures
            r.is_empty_node(FileType::SymLink, NODEVICE),
    {
        Self::new_empty(FileType::SymLink, NODEVICE)
    }

    /// An empty directory.
    pub fn new_dir() -> (r: Self)
        ensures
            r.is_empty_node(FileType::Dir, NODEVICE),
    {
        Self::new_empty(FileType::Dir, NODEVICE)
    }

    /// A character device node for device `device_inode_id`.
    pub fn new_chardevice(device_inode_id: usize) -> (r: Self)
        ensures
            r.is_empty_node(FileType::CharDevice, device_inode_id),
    {
        Self::new_empty(FileType::CharDevice, device_inode_id)
    }
}

/// A growable vector of bits.
#[verifier::external_body]
pub struct BitMap {
    bits: BitVec<u8, Lsb0>,
}

/// The bits of a bitmap, in index order.
pub uninterp spec fn bits_of(v: BitMap) -> Seq<bool>;

/// `len` bits, all equal to `bit`.
///
/// Calls `BitVec::repeat`, which makes a bit-vector of `len` copies of `bit`;
/// it panics when `len` exceeds the largest length a bit-vector can encode,
/// `usize::MAX >> 3`.
#[verifier::external_body]
fn bits_repeat(bit: bool, len: usize) -> (r: BitMap)
    requires
        len <= usize::MAX / 8,
    ensures
        bits_of(r) == Seq::new(len as nat, |i: int| bit),
{
    BitMap { bits: BitVec::repeat(bit, len) }
}

/// Number of bits.
///
/// Calls `BitVec::len`, which returns the number of bits held.
#[verifier::external_body]
fn bits_len(v: &BitMap) -> (r: usize)
    ensures
        r == bits_of(*v).len(),
{
    v.bits.len()
}

/// Bit `i`.
///
/// Reads `v[i]` (indexing of `BitVec`), which returns bit `i` and panics
/// when `i` is out of bounds.
#[verifier::external_body]
fn bits_get(v: &BitMap, i: usize) -> (r: bool)
    requires
        i < bits_of(*v).len(),
    ensures
        r == bits_of(*v)[i as int],
{
    v.bits[i]
}

/// Sets bit `i` to `value`.
///
/// Calls `BitSlice::set`, which writes bit `i`, leaves the others, and
/// panics when `i` is out of bounds.
#[verifier::external_body]
fn bits_set(v: &mut BitMap, i: usize, value: bool)
    requires
        i < bits_of(*old(v)).len(),
    ensures
        bits_of(*final(v)) == bits_of(*old(v)).update(i as int, value),
{
    v.bits.set(i, value)
}

/// A clean bitmap of `blocks` bits, all set when `free`, all clear otherwise.
pub fn free_map_with(free: bool, blocks: usize) -> (r: FreeMap)
    requires
        blocks <= usize::MAX / 8,
    ensures
        bits_of(r.val()) == Seq::new(blocks as nat, |i: int| free),
        !r.is_dirty(),
{
    Dirty::new(bits_repeat(free, blocks))
}

/// The bitmap of blocks: bit `i` is set when block `i` is free.
pub type FreeMap = Dirty<BitMap>;

/// The index of the first set bit, if any.
pub open spec fn first_set(s: Seq<bool>) -> Option<int> {
    if exists|i: int| 0 <= i < s.len() && s[i] {
        Some(choose|i: int| 0 <= i < s.len() && s[i] && forall|j: int| 0 <= j < i ==> !s[j])
    } else {
        None
    }
}

/// When some bit is set, `first_set` is the lowest one.
pub proof fn lemma_first_set(s: Seq<bool>)
    ensures
        match first_set(s) {
            Some(i) => 0 <= i < s.len() && s[i] && forall|j: int| 0 <= j < i ==> !s[j],
            None => forall|j: int| 0 <= j < s.len() ==> !s[j],
        },
{
    if exists|i: int| 0 <= i < s.len() && s[i] {
        let w = choose|i: int| 0 <= i < s.len() && s[i];
        lemma_lowest_set(s, w);
    }
}

proof fn lemma_lowest_set(s: Seq<bool>, w: int)
    requires
        0 <= w < s.len(),
        s[w],
    ensures
        exists|i: int| 0 <= i < s.len() && s[i] && forall|j: int| 0 <= j < i ==> !s[j],
    decreases w,
{
    if exists|j: int| 0 <= j < w && s[j] {
        let v = choose|j: int| 0 <= j < w && s[j];
        lemma_lowest_set(s, v);
    }
}

/// Handing out and taking back units of a resource.
pub trait Alloc {
    /// Which units are free.
    spec fn free_units(&self) -> Seq<bool>;

    /// Whether the units were changed since they were last stored.
    spec fn changed(&self) -> bool;

    /// Takes the lowest free unit, if there is one.
    fn allocate(&mut self) -> (r: Option<usize>)
        ensures
            first_set(old(self).free_units()) is None ==> r is None && final(self).free_units()
                == old(self).free_units() && final(self).changed() == old(self).changed(),
            first_set(old(self).free_units()) is Some ==> r is Some,
            r matches Some(i) ==> first_set(old(self).free_units()) == Some(i as int)
                && final(self).free_units() == old(self).free_units().update(i as int, false)
                && final(self).changed(),
    ;

    /// Gives unit `id` back. Unit numbers past the end are refused; the unit
    /// just past the end is never asked for.
    fn dealloc(&mut self, id: usize) -> (r: Result<(), FsError>)
        requires
            id != old(self).free_units().len(),
        ensures
            id > old(self).free_units().len() ==> r == Err::<(), FsError>(FsError::InvalidParam)
                && final(self).free_units() == old(self).free_units() && final(self).changed()
                == old(self).changed(),
            id < old(self).free_units().len() ==> r is Ok && final(self).free_units() == old(
                self,
            ).free_units().update(id as int, true) && final(self).changed(),
    ;
}

impl Alloc for FreeMap {
    open spec fn free_units(&self) -> Seq<bool> {
        bits_of(self.val())
    }

    open spec fn changed(&self) -> bool {
        self.is_dirty()
    }

    fn allocate(&mut self) -> (r: Option<usize>) {
        proof {
            lemma_first_set(bits_of(self.val()));
        }
        let len = bits_len(self.get());
        let mut i: usize = 0;
        while i < len
            invariant
                len == bits_of(self.val()).len(),
                i <= len,
                forall|j: int| 0 <= j < i ==> !bits_of(self.val())[j],
                self == old(self),
            decreases len - i,
        {
            if bits_get(self.get(), i) {
                let ghost s = bits_of(self.val());
                proof {
                    // bit `i` is set and no lower one is: it is the lowest set bit
                    lemma_first_set(s);
                    assert(first_set(s) == Some(i as int));
                }
                let bits = self.get_mut();
                bits_set(bits, i, false);
                return Some(i);
            }
            i += 1;
        }
        None
    }

    fn dealloc(&mut self, id: usize) -> (r: Result<(), FsError>) {
        if id > bits_len(self.get()) {
            return Err(FsError::InvalidParam);
        }
        let bits = self.get_mut();
        bits_set(bits, id, true);
        Ok(())
    }
}

/// Giving back the unit just handed out restores the bitmap.
pub proof fn lemma_dealloc_undoes_allocate(free: Seq<bool>, i: int)
    requires
        first_set(free) == Some(i),
    ensures
        free.update(i, false).update(i, true) == free,
{
    lemma_first_set(free);
    assert(free.update(i, false).update(i, true) =~= free);
}

} // verus!
