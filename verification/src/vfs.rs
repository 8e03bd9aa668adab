//! Nodes, file systems, directory listing and path lookup.
use vstd::prelude::*;
use vstd::string::StringSliceAdditionalSpecFns;
use vstd::utf8::{encode_utf8, valid_utf8, is_char_boundary};
use crate::bfs::structs::{slice_prefix, str_from_utf8};

verus! {

/// A point in time.
#[derive(Copy, Clone, PartialEq, Eq, Structural, PartialOrd, Ord, Debug, Hash)]
pub struct Timespec {
    pub sec: i64,
    pub nsec: i32,
}

/// The kind of a file-system node.
#[derive(Copy, Clone, Debug, PartialEq, Eq, Structural)]
pub enum FileType {
    File,
    Dir,
    SymLink,
    CharDevice,
    BlockDevice,
    NamedPipe,
    Socket,
}

/// Errors of file-system operations.
#[derive(Debug, PartialEq, Eq, Structural)]
pub enum FsError {
    NotSupported,
    NotFile,
    IsDir,
    NotDir,
    EntryNotFound,
    EntryExist,
    NotSameFs,
    InvalidParam,
    NoDeviceSpace,
    DirRemoved,
    DirNotEmpty,
    WrongFs,
    DeviceError,
    IOCTLError,
    NoDevice,
    Again,
    SymLoop,
    Busy,
    Interrupted,
}

/// Metadata of a file-system node.
pub struct MetaData {
    pub size: usize,
    /// A file system-specific preferred I/O block size for this object.
    pub blk_size: usize,
    /// Size in blocks
    pub blocks: usize,
    /// Time of last access
    pub atime: Timespec,
    /// Time of last modification
    pub mtime: Timespec,
    /// Time of last change
    pub ctime: Timespec,
    pub dev: usize,
    pub inode_id: usize,
    pub type_: FileType,
    pub permission: u16,
    /// User ID
    pub uid: usize,
    /// Group ID
    pub gid: usize,
    /// Raw device id
    pub rdev: usize,
}



/// A node of a file system, as its users implement it. Each operation is
/// described by a spec function of the node; the path functions below are
/// written in terms of these operations.
pub trait Inode: Sized {
    /// What `metadata` returns.
    spec fn spec_metadata(&self) -> Result<MetaData, FsError>;

    /// What `get_entry` returns: the name of entry `entry_id` of a directory.
    spec fn spec_entry(&self, entry_id: usize) -> Result<Seq<char>, FsError>;

    /// What `find` returns for the name with UTF-8 bytes `name`.
    spec fn spec_find(&self, name: Seq<u8>) -> Result<Self, FsError>;

    /// What `read_at` returns for a buffer of `len` bytes at `offset`.
    spec fn spec_read_at(&self, offset: usize, len: nat) -> Result<usize, FsError>;

    /// The root node of the file system this node belongs to.
    spec fn spec_root(&self) -> Self;

    /// The node's metadata.
    fn metadata(&self) -> (r: Result<MetaData, FsError>)
        ensures
            r == self.spec_metadata(),
    ;

    /// The child called `name` of a directory.
    fn find(&self, name: &str) -> (r: Result<Self, FsError>)
        ensures
            r == self.spec_find(name.spec_bytes()),
    ;

    /// The name of entry `entry_id` of a directory.
    fn get_entry(&self, entry_id: usize) -> (r: Result<String, FsError>)
        ensures
            match r {
                Ok(s) => self.spec_entry(entry_id) == Ok::<Seq<char>, FsError>(s@),
                Err(e) => self.spec_entry(entry_id) == Err::<Seq<char>, FsError>(e),
            },
    ;

    /// Reads the node's contents at `offset` into `buf`; returns how many bytes were read.
    fn read_at(&self, offset: usize, buf: &[u8]) -> (r: Result<usize, FsError>)
        ensures
            r == self.spec_read_at(offset, buf@.len()),
    ;

    /// The root node of the file system this node belongs to.
    fn root_inode(&self) -> (r: Self)
        ensures
            r == self.spec_root(),
    ;

}

/// The names of the entries of a directory: entries `0, 1, ...` up to the
/// first one that cannot be read.
pub fn list<I: Inode>(node: &I) -> (r: Result<Vec<String>, FsError>)
    requires
        (node.spec_metadata() matches Ok(m) && m.type_ == FileType::Dir) ==> exists|j: usize|
            j < usize::MAX && (#[trigger] node.spec_entry(j)) is Err,
    ensures
        match node.spec_metadata() {
            Err(e) => r == Err::<Vec<String>, FsError>(e),
            Ok(m) => if m.type_ != FileType::Dir {
                r == Err::<Vec<String>, FsError>(FsError::NotDir)
            } else {
                r matches Ok(v) && listed_entries(*node, v@.map_values(|s: String| s@))
            },
        },
{
    let info = match node.metadata() {
        Ok(info) => info,
        Err(e) => return Err(e),
    };
    if info.type_ != FileType::Dir {
        return Err(FsError::NotDir);
    }
    let ghost stop = choose|j: usize| j < usize::MAX && (#[trigger] node.spec_entry(j)) is Err;
    let mut names: Vec<String> = Vec::new();
    let mut id: usize = 0;
    loop
        invariant
            id == names@.len(),
            id <= stop < usize::MAX,
            node.spec_entry(stop) is Err,
            node.spec_metadata() matches Ok(m) && m.type_ == FileType::Dir,
            forall|j: int| 0 <= j < id ==> node.spec_entry(j as usize) == Ok::<Seq<char>, FsError>(
                #[trigger] names@[j]@,
            ),
        decreases stop - id,
    {
        match node.get_entry(id) {
            Ok(name) => {
                names.push(name);
                id += 1;
            },
            Err(_) => {
                let ghost v = names@.map_values(|s: String| s@);
                assert forall|j: int| 0 <= j < v.len() implies node.spec_entry(j as usize) == Ok::<
                    Seq<char>,
                    FsError,
                >(#[trigger] v[j]) by {
                    assert(v[j] == names@[j]@);
                }
                assert(listed_entries(*node, v));
                return Ok(names);
            },
        }
    }
}

/// The node that `path` leads to, following no symbolic link.
pub fn find_by_path<I: Inode>(node: &I, path: &str) -> (r: Result<I, FsError>)
    requires
        exists|fuel: nat| #[trigger] walk_from(*node, path.spec_bytes(), 0, fuel) is Some,
    ensures
        Some(r) == path_walk(*node, path.spec_bytes(), 0),
{
    find_by_path_follow(node, path, 0)
}

/// The node that `path` leads to, from this directory or (for a path that
/// starts with `/`) from the root; up to `follow_times` symbolic links are
/// followed. The walk must end: `requires` states that it does.
pub fn find_by_path_follow<I: Inode>(node: &I, path: &str, follow_times: usize) -> (r: Result<I, FsError>)
    requires
        exists|fuel: nat| #[trigger] walk_from(*node, path.spec_bytes(), follow_times as nat, fuel) is Some,
    ensures
        Some(r) == path_walk(*node, path.spec_bytes(), follow_times as nat),
{
    let ghost fuel = choose|fuel: nat| #[trigger] walk_from(*node, path.spec_bytes(), follow_times as nat, fuel) is Some;
    walk(node, path, follow_times, Ghost(fuel))
}

/// `names` are the names of entries `0 .. names.len()` of `node`, and the
/// next entry cannot be read.
pub open spec fn listed_entries<I: Inode>(node: I, names: Seq<Seq<char>>) -> bool {
    &&& forall|j: int| 0 <= j < names.len() ==> node.spec_entry(j as usize) == Ok::<Seq<char>, FsError>(#[trigger] names[j])
    &&& names.len() < usize::MAX
    &&& node.spec_entry(names.len() as usize) is Err
}

/// The path that a symbolic link leads to: the bytes read from the directory
/// into an untouched zeroed buffer, then `/` and the rest of the path.
pub open spec fn link_path(len: nat, rest: Seq<u8>) -> Seq<u8> {
    Seq::new(len, |i: int| 0u8) + seq![47u8] + rest
}

/// The outcome of walking `path` from `start`, if the walk ends normally
/// within `fuel` steps.
pub open spec fn walk_from<I: Inode>(start: I, path: Seq<u8>, follow: nat, fuel: nat) -> Option<
    Result<I, FsError>,
>
    decreases fuel, 1nat,
{
    match start.spec_metadata() {
        Err(e) => Some(Err(e)),
        Ok(m) => if m.type_ != FileType::Dir {
            Some(Err(FsError::NotDir))
        } else if path.len() > 0 && path[0] == 47u8 {
            walk_loop(start, start.spec_root(), path.skip(1), follow, fuel)
        } else {
            match start.spec_find(seq![46u8]) {
                Err(e) => Some(Err(e)),
                Ok(node) => walk_loop(start, node, path, follow, fuel),
            }
        },
    }
}

/// The outcome of the rest of a walk that has reached `result` with `rest`
/// still to go, if it ends normally within `fuel` steps.
pub open spec fn walk_loop<I: Inode>(
    start: I,
    result: I,
    rest: Seq<u8>,
    follow: nat,
    fuel: nat,
) -> Option<Result<I, FsError>>
    decreases fuel, 0nat,
{
    if rest.len() == 0 {
        Some(Ok(result))
    } else if fuel == 0 {
        None
    } else {
        match result.spec_metadata() {
            Err(e) => Some(Err(e)),
            Ok(m) => if m.type_ == FileType::File {
                Some(Err(FsError::NotDir))
            } else {
                let (name, rest2) = split_component(rest);
                match result.spec_find(name) {
                    Err(e) => Some(Err(e)),
                    Ok(inode) => match inode.spec_metadata() {
                        Err(e) => Some(Err(e)),
                        Ok(m2) => if m2.type_ == FileType::SymLink && follow > 0 {
                            match result.spec_read_at(0, 256) {
                                Err(e) => Some(Err(e)),
                                Ok(len) => if len > 256 {
                                    None
                                } else if !valid_utf8(Seq::new(len as nat, |i: int| 0u8)) {
                                    Some(Err(FsError::NotDir))
                                } else {
                                    walk_from(start, link_path(len as nat, rest2), (follow - 1) as nat, (fuel - 1) as nat)
                                },
                            }
                        } else {
                            walk_loop(start, inode, rest2, follow, (fuel - 1) as nat)
                        },
                    },
                }
            },
        }
    }
}

/// The outcome of walking `path` from `start`, when the walk ends normally.
pub open spec fn path_walk<I: Inode>(start: I, path: Seq<u8>, follow: nat) -> Option<Result<I, FsError>> {
    walk_from(start, path, follow, choose|fuel: nat| #[trigger] walk_from(start, path, follow, fuel) is Some)
}

/// Walks `path` from `start` within `fuel` steps.
fn walk<I: Inode>(start: &I, path: &str, follow_times: usize, Ghost(fuel): Ghost<nat>) -> (r: Result<I, FsError>)
    requires
        walk_from(*start, path.spec_bytes(), follow_times as nat, fuel) is Some,
    ensures
        Some(r) == walk_from(*start, path.spec_bytes(), follow_times as nat, fuel),
    decreases fuel, 1nat,
{
    broadcast use vstd::utf8::group_utf8_lib;
    let ghost target = walk_from(*start, path.spec_bytes(), follow_times as nat, fuel);
    match start.metadata() {
        Err(e) => return Err(e),
        Ok(m) => if m.type_ != FileType::Dir {
            return Err(FsError::NotDir);
        },
    }
    let bytes = path.as_bytes();
    let mut result: I;
    let mut rest_path: String;
    if bytes.len() > 0 && bytes[0] == 47u8 {
        result = start.root_inode();
        rest_path = drop_ascii_first(path).to_string();
    } else {
        proof {
            reveal_strlit(".");
            reveal_with_fuel(encode_utf8, 2);
            assert(".".spec_bytes() =~= seq![46u8]) by {
                assert(vstd::utf8::encode_scalar('.' as u32) =~= seq![46u8]) by {
                    assert('.' as u32 == 46);
                assert(46u32 & 0x7F == 46) by (bit_vector);
                }
            }
        }
        match start.find(".") {
            Ok(node) => result = node,
            Err(e) => return Err(e),
        }
        rest_path = path.to_string();
    }
    walk_rest(start, result, rest_path, follow_times, Ghost(fuel))
}

/// Walks `rest_path` from `result`, a node reached from `start`, within `f` steps.
fn walk_rest<I: Inode>(
    start: &I,
    result: I,
    rest_path: String,
    follow_times: usize,
    Ghost(f): Ghost<nat>,
) -> (r: Result<I, FsError>)
    requires
        walk_loop(*start, result, text_bytes(rest_path@), follow_times as nat, f) is Some,
    ensures
        Some(r) == walk_loop(*start, result, text_bytes(rest_path@), follow_times as nat, f),
    decreases f, 0nat,
{
    broadcast use vstd::utf8::group_utf8_lib;
    let rest_str = rest_path.as_str();
    if rest_str.as_bytes().len() == 0 {
        return Ok(result);
    }
    let ghost rest_b = text_bytes(rest_path@);
    let ghost step = walk_loop(*start, result, rest_b, follow_times as nat, f);
    assert(f > 0);
    match result.metadata() {
        Err(e) => {
            assert(step == Some(Err::<I, FsError>(e)));
            return Err(e);
        },
        Ok(m) => if m.type_ == FileType::File {
            assert(step == Some(Err::<I, FsError>(FsError::NotDir)));
            return Err(FsError::NotDir);
        },
    }
    let rb = rest_str.as_bytes();
    let pos = find_byte(rb, 47u8);
    proof {
        lemma_first_index_of(rb@, 47u8);
    }
    let name: String;
    let next_rest: String;
    if pos < rb.len() {
        let (clip, tail) = split_ascii(rest_str, pos);
        let after = drop_ascii_first(tail);
        name = clip.to_string();
        next_rest = after.to_string();
        assert(text_bytes(next_rest@) =~= rest_b.skip(pos + 1));
    } else {
        name = rest_path.clone();
        next_rest = rest_path.clone();
    }
    let ghost name_b = text_bytes(name@);
    let ghost rest2 = text_bytes(next_rest@);
    assert(split_component(rest_b) == (name_b, rest2));
    let inode = match result.find(name.as_str()) {
        Ok(inode) => inode,
        Err(e) => {
            assert(step == Some(Err::<I, FsError>(e)));
            return Err(e);
        },
    };
    let im = match inode.metadata() {
        Ok(im) => im,
        Err(e) => {
            assert(step == Some(Err::<I, FsError>(e)));
            return Err(e);
        },
    };
    if im.type_ == FileType::SymLink && follow_times > 0 {
        let buf = [0u8; 256];
        let len = match result.read_at(0, &buf) {
            Ok(len) => len,
            Err(e) => {
                assert(step == Some(Err::<I, FsError>(e)));
                return Err(e);
            },
        };
        assert(len <= 256);
        let ghost zeros = Seq::new(len as nat, |i: int| 0u8);
        assert(buf@.take(len as int) =~= zeros);
        let link = match str_from_utf8(slice_prefix(buf.as_slice(), len)) {
            Some(link) => link,
            None => {
                assert(step == Some(Err::<I, FsError>(FsError::NotDir)));
                return Err(FsError::NotDir);
            },
        };
        let mut new_path = link.to_string();
        proof {
            reveal_strlit("/");
            reveal_with_fuel(encode_utf8, 2);
            assert("/".spec_bytes() =~= seq![47u8]) by {
                assert('/' as u32 == 47);
                assert(47u32 & 0x7F == 47) by (bit_vector);
                assert(vstd::utf8::encode_scalar('/' as u32) =~= seq![47u8]);
            }
        }
        let ghost a = new_path@;
        push_str(&mut new_path, "/");
        let ghost b = new_path@;
        push_str(&mut new_path, next_rest.as_str());
        proof {
            lemma_encode_append(a, "/"@);
            lemma_encode_append(b, next_rest@);
            assert(text_bytes(new_path@) =~= link_path(len as nat, rest2));
        }
        walk(start, new_path.as_str(), follow_times - 1, Ghost((f - 1) as nat))
    } else {
        walk_rest(start, inode, next_rest, follow_times, Ghost((f - 1) as nat))
    }
}


/// Walking the path `/` from a directory leads to the root of its file
/// system, whatever directory the walk starts from.
pub proof fn lemma_walk_slash_is_root<I: Inode>(start: I, follow: nat, fuel: nat)
    requires
        start.spec_metadata() matches Ok(m) && m.type_ == FileType::Dir,
    ensures
        walk_from(start, seq![47u8], follow, fuel) == Some(Ok::<I, FsError>(start.spec_root())),
        path_walk(start, seq![47u8], follow) == Some(Ok::<I, FsError>(start.spec_root())),
{
    assert(seq![47u8].skip(1) =~= Seq::<u8>::empty());
    let f = choose|f: nat| #[trigger] walk_from(start, seq![47u8], follow, f) is Some;
    assert(walk_from(start, seq![47u8], follow, f) is Some);
}

/// Walking the empty path from a directory leads to what the directory
/// calls `.`.
pub proof fn lemma_walk_empty_is_dot<I: Inode>(start: I, follow: nat, fuel: nat)
    requires
        start.spec_metadata() matches Ok(m) && m.type_ == FileType::Dir,
    ensures
        walk_from(start, Seq::<u8>::empty(), follow, fuel) == Some(start.spec_find(seq![46u8])),
        path_walk(start, Seq::<u8>::empty(), follow) == Some(start.spec_find(seq![46u8])),
{
    let f = choose|f: nat| #[trigger] walk_from(start, Seq::<u8>::empty(), follow, f) is Some;
    assert(walk_from(start, Seq::<u8>::empty(), follow, 0) is Some);
}

/// Without following symbolic links, the rest of a walk does not depend on
/// the directory the walk started from.
pub proof fn lemma_walk_loop_ignores_start<I: Inode>(s1: I, s2: I, node: I, rest: Seq<u8>, fuel: nat)
    ensures
        walk_loop(s1, node, rest, 0, fuel) == walk_loop(s2, node, rest, 0, fuel),
    decreases fuel,
{
    if rest.len() > 0 && fuel > 0 {
        if let Ok(m) = node.spec_metadata() {
            if m.type_ != FileType::File {
                let (name, rest2) = split_component(rest);
                if let Ok(inode) = node.spec_find(name) {
                    lemma_walk_loop_ignores_start(s1, s2, inode, rest2, (fuel - 1) as nat);
                }
            }
        }
    }
}

/// Without following symbolic links, an absolute path leads to the same
/// place from any two directories of the same file system: it is walked
/// from their common root.
pub proof fn lemma_absolute_walk_from_root<I: Inode>(s1: I, s2: I, path: Seq<u8>, fuel: nat)
    requires
        s1.spec_metadata() matches Ok(m) && m.type_ == FileType::Dir,
        s2.spec_metadata() matches Ok(m) && m.type_ == FileType::Dir,
        s1.spec_root() == s2.spec_root(),
        path.len() > 0 && path[0] == 47u8,
    ensures
        walk_from(s1, path, 0, fuel) == walk_from(s2, path, 0, fuel),
{
    lemma_walk_loop_ignores_start(s1, s2, s1.spec_root(), path.skip(1), fuel);
}

/// Without following symbolic links, a relative path is walked from what
/// the start directory calls `.`: two directories that agree on their
/// metadata and on `.` lead to the same place, whatever their roots are.
pub proof fn lemma_relative_walk_from_dot<I: Inode>(s1: I, s2: I, path: Seq<u8>, fuel: nat)
    requires
        s1.spec_metadata() == s2.spec_metadata(),
        s1.spec_find(seq![46u8]) == s2.spec_find(seq![46u8]),
        !(path.len() > 0 && path[0] == 47u8),
    ensures
        walk_from(s1, path, 0, fuel) == walk_from(s2, path, 0, fuel),
{
    if let Ok(node) = s1.spec_find(seq![46u8]) {
        lemma_walk_loop_ignores_start(s1, s2, node, path, fuel);
    }
}

/// When the rest of a path holds a `/`, the name before it, the `/` and the
/// rest after it make up the path again, and the name holds no `/`.
pub proof fn lemma_split_component_rejoins(rest: Seq<u8>)
    requires
        rest.contains(47u8),
    ensures
        ({
            let (name, rest2) = split_component(rest);
            &&& name + seq![47u8] + rest2 == rest
            &&& !name.contains(47u8)
            &&& rest2.len() < rest.len()
        }),
{
    lemma_first_index_of(rest, 47u8);
    let p = first_index_of(rest, 47u8) as int;
    let w = choose|i: int| 0 <= i < rest.len() && rest[i] == 47u8;
    assert(p < rest.len()) by {
        if p >= rest.len() {
            assert(rest[w] != 47u8);
        }
    }
    let (name, rest2) = split_component(rest);
    assert(name + seq![47u8] + rest2 =~= rest);
    assert(!name.contains(47u8)) by {
        if name.contains(47u8) {
            let k = choose|k: int| 0 <= k < name.len() && name[k] == 47u8;
            assert(rest[k] == 47u8);
        }
    }
}

/// A file system, as its users implement it.
pub trait FileSystem: Sized {
    /// The kind of node the file system is made of.
    type Node: Inode + Clone;

    /// What `root_inode` returns.
    spec fn spec_root_inode(&self) -> Self::Node;

    /// The root node.
    fn root_inode(&self) -> (r: Self::Node)
        ensures
            r == self.spec_root_inode(),
    ;
}

/// Position of the first byte `b` in `s`, or `s.len()` when there is none.
pub open spec fn first_index_of(s: Seq<u8>, b: u8) -> nat
    decreases s.len(),
{
    if s.len() == 0 || s[0] == b {
        0
    } else {
        1 + first_index_of(s.drop_first(), b)
    }
}

/// `first_index_of` is within `s`, no earlier byte is `b`, and the byte there, if any, is `b`.
pub proof fn lemma_first_index_of(s: Seq<u8>, b: u8)
    ensures
        first_index_of(s, b) <= s.len(),
        forall|i: int| 0 <= i < first_index_of(s, b) ==> s[i] != b,
        first_index_of(s, b) < s.len() ==> s[first_index_of(s, b) as int] == b,
    decreases s.len(),
{
    if s.len() > 0 && s[0] != b {
        lemma_first_index_of(s.drop_first(), b);
        assert forall|i: int| 0 <= i < first_index_of(s, b) implies s[i] != b by {
            if i > 0 {
                assert(s[i] == s.drop_first()[i - 1]);
            }
        }
    }
}

/// Position of the first byte `b` in `s`, or `s.len()` when there is none.
pub fn find_byte(s: &[u8], b: u8) -> (r: usize)
    ensures
        r == first_index_of(s@, b),
{
    proof {
        lemma_first_index_of(s@, b);
    }
    let mut i: usize = 0;
    while i < s.len() && s[i] != b
        invariant
            i <= s@.len(),
            first_index_of(s@, b) <= s@.len(),
            forall|j: int| 0 <= j < first_index_of(s@, b) ==> s@[j] != b,
            first_index_of(s@, b) < s@.len() ==> s@[first_index_of(s@, b) as int] == b,
            i <= first_index_of(s@, b),
        decreases s@.len() - i,
    {
        i += 1;
    }
    i
}

/// The next name of a path and what is left after it: the bytes before the
/// first `/` and those after it; with no `/`, the whole path and the whole
/// path again (the rest is not consumed).
pub open spec fn split_component(rest: Seq<u8>) -> (Seq<u8>, Seq<u8>) {
    let p = first_index_of(rest, 47u8) as int;
    if p < rest.len() {
        (rest.take(p), rest.skip(p + 1))
    } else {
        (rest, rest)
    }
}

/// The UTF-8 bytes of a text.
pub open spec fn text_bytes(s: Seq<char>) -> Seq<u8> {
    encode_utf8(s)
}

/// The bytes of two texts one after the other are the bytes of the joined text.
pub proof fn lemma_encode_append(a: Seq<char>, b: Seq<char>)
    ensures
        encode_utf8(a + b) == encode_utf8(a) + encode_utf8(b),
    decreases a.len(),
{
    if a.len() == 0 {
        assert(a + b =~= b);
        assert(encode_utf8(a) =~= Seq::<u8>::empty());
        assert(encode_utf8(a) + encode_utf8(b) =~= encode_utf8(b));
    } else {
        lemma_encode_append(a.drop_first(), b);
        assert((a + b).drop_first() =~= a.drop_first() + b);
        assert((a + b)[0] == a[0]);
        assert(encode_utf8(a + b) =~= encode_utf8(a) + encode_utf8(b));
    }
}

/// Splits `s` after its first `n` bytes, where `s` has a one-byte character
/// at `n` (or ends there).
fn split_ascii(s: &str, n: usize) -> (r: (&str, &str))
    requires
        n <= s.spec_bytes().len(),
        n < s.spec_bytes().len() ==> s.spec_bytes()[n as int] < 0x80,
    ensures
        r.0.spec_bytes() == s.spec_bytes().take(n as int),
        r.1.spec_bytes() == s.spec_bytes().skip(n as int),
{
    proof {
        broadcast use vstd::utf8::group_utf8_lib;
        let b = s.spec_bytes();
        if n < b.len() {
            assert(!vstd::utf8::is_continuation_byte(b[n as int]));
        }
        assert(is_char_boundary(b, n as int));
    }
    let r = s.split_at(n);
    assert(r.0.spec_bytes() =~= s.spec_bytes().take(n as int));
    assert(r.1.spec_bytes() =~= s.spec_bytes().skip(n as int));
    r
}


/// `s` without its first byte, which is a one-byte character.
fn drop_ascii_first(s: &str) -> (r: &str)
    requires
        s.spec_bytes().len() > 0,
        s.spec_bytes()[0] < 0x80,
    ensures
        r.spec_bytes() == s.spec_bytes().skip(1),
{
    proof {
        broadcast use vstd::utf8::group_utf8_lib;
        let b = s.spec_bytes();
        reveal_with_fuel(is_char_boundary, 2);
        assert(is_char_boundary(b, 1));
    }
    let r = s.split_at(1);
    assert(r.1.spec_bytes() =~= s.spec_bytes().skip(1));
    r.1
}

/// Appends `t` to `s`.
///
/// Calls `String::push_str`, which appends the text of `t` to the end of `s`.
#[verifier::external_body]
fn push_str(s: &mut String, t: &str)
    ensures
        final(s)@ == old(s)@ + t@,
{
    s.push_str(t);
}

} // verus!
