//! File systems mounted on directories of other file systems, seen as one tree.
use vstd::prelude::*;
use vstd::string::StringSliceAdditionalSpecFns;
use std::collections::BTreeMap;
use crate::vfs::{FileSystem, FsError, Inode};

verus! {

/// The number of an inode within its file system.
pub type InodeId = usize;

/// A node of the tree: a node of one of the mounted file systems, and the
/// number of that file system in the tree.
pub struct MNode<N> {
    pub inner: N,
    pub fs: usize,
}

/// A file system of the tree: the file system itself, the file systems
/// mounted on its directories (by inode number), and the node it is mounted
/// on, unless it is the root of the tree.
pub struct MountFs<F: FileSystem> {
    inner: F,
    mount_points: BTreeMap<InodeId, usize>,
    self_mountpoint: Option<MNode<F::Node>>,
}

/// File systems mounted on one another: file system 0 is the root, and
/// each other one is mounted on a node of a file system listed before it.
pub struct MountTree<F: FileSystem> {
    fss: Vec<MountFs<F>>,
}

impl<F: FileSystem> MountTree<F> {
    /// The number of file systems in the tree.
    pub closed spec fn len(&self) -> nat {
        self.fss@.len()
    }

    /// File system `i` of the tree.
    pub closed spec fn spec_fs(&self, i: int) -> F {
        self.fss@[i].inner
    }

    /// The file systems mounted on nodes of file system `i`, by inode number.
    pub closed spec fn spec_mount_points(&self, i: int) -> Map<InodeId, usize> {
        self.fss@[i].mount_points@
    }

    /// The node that file system `i` is mounted on, if any.
    pub closed spec fn spec_mountpoint(&self, i: int) -> Option<MNode<F::Node>> {
        self.fss@[i].self_mountpoint
    }

    /// Every file system but the first is mounted on a node of an earlier
    /// one, and every mount point names a file system of the tree.
    pub closed spec fn wf(&self) -> bool {
        &&& self.fss@.len() >= 1
        &&& self.fss@[0].self_mountpoint is None
        &&& forall|i: int|
            0 < i < self.fss@.len() ==> ((#[trigger] self.fss@[i]).self_mountpoint matches Some(mp)
                && mp.fs < i)
        &&& forall|i: int, k: InodeId|
            0 <= i < self.fss@.len() && #[trigger] self.fss@[i].mount_points@.contains_key(k)
                ==> self.fss@[i].mount_points@[k] < self.fss@.len()
    }

    /// A node of the tree names one of its file systems.
    pub open spec fn valid_node(&self, node: MNode<F::Node>) -> bool {
        node.fs < self.len()
    }

    /// The root node of the whole tree, as seen from file system `i`: the
    /// root of the file system at the top of the chain of mount points.
    pub open spec fn spec_root_inode(&self, i: nat) -> MNode<F::Node>
        decreases i,
    {
        match self.spec_mountpoint(i as int) {
            Some(mp) => if mp.fs < i {
                self.spec_root_inode(mp.fs as nat)
            } else {
                self.spec_mountpoint_root_inode(i)
            },
            None => self.spec_mountpoint_root_inode(i),
        }
    }

    /// The root node of file system `i` itself.
    pub open spec fn spec_mountpoint_root_inode(&self, i: nat) -> MNode<F::Node> {
        MNode { inner: self.spec_fs(i as int).spec_root_inode(), fs: i as usize }
    }


    /// A copy of `node`.
    fn copy_node(node: &MNode<F::Node>) -> (r: MNode<F::Node>)
        ensures
            r.fs == node.fs,
            cloned(node.inner, r.inner),
    {
        MNode { inner: node.inner.clone(), fs: node.fs }
    }

    /// Mounts `fs` on `node`, a node of the tree: the new file system gets
    /// the next number, which is returned, and is registered under the
    /// node's inode number in the node's file system.
    pub fn mount(&mut self, node: &MNode<F::Node>, fs: F) -> (r: Result<usize, FsError>)
        requires
            old(self).wf(),
            old(self).valid_node(*node),
        ensures
            final(self).wf(),
            match node.inner.spec_metadata() {
                Err(e) => r == Err::<usize, FsError>(e) && *final(self) == *old(self),
                Ok(m) => {
                    let n = old(self).len();
                    &&& (r matches Ok(i) && i as nat == n)
                    &&& final(self).len() == n + 1
                    &&& final(self).spec_fs(n as int) == fs
                    &&& final(self).spec_mount_points(n as int) == Map::<InodeId, usize>::empty()
                    &&& (final(self).spec_mountpoint(n as int) matches Some(mp) && mp.fs == node.fs
                        && cloned(node.inner, mp.inner))
                    &&& final(self).spec_mount_points(node.fs as int) == old(self).spec_mount_points(
                        node.fs as int,
                    ).insert(m.inode_id, n as usize)
                    &&& forall|j: int|
                        0 <= j < n && j != node.fs ==> #[trigger] final(self).spec_mount_points(j)
                            == old(self).spec_mount_points(j)
                    &&& forall|j: int|
                        0 <= j < n ==> #[trigger] final(self).spec_fs(j) == old(self).spec_fs(j)
                            && final(self).spec_mountpoint(j) == old(self).spec_mountpoint(j)
                },
            },
    {
        let mount_fs = MountFs {
            inner: fs,
            mount_points: BTreeMap::new(),
            self_mountpoint: Some(Self::copy_node(node)),
        };
        let meta = match node.inner.metadata() {
            Ok(meta) => meta,
            Err(e) => return Err(e),
        };
        let id = self.fss.len();
        let ghost old_fss = self.fss@;
        self.fss.push(mount_fs);
        self.fss[node.fs].mount_points.insert(meta.inode_id, id);
        proof {
            assert forall|i: int|
                0 < i < self.fss@.len() implies ((#[trigger] self.fss@[i]).self_mountpoint matches Some(mp)
                && mp.fs < i) by {
                if i < id {
                    assert(self.fss@[i].self_mountpoint == old_fss[i].self_mountpoint);
                }
            }
            assert forall|i: int, k: InodeId|
                0 <= i < self.fss@.len() && #[trigger] self.fss@[i].mount_points@.contains_key(k)
                implies self.fss@[i].mount_points@[k] < self.fss@.len() by {
                if i < id && i != node.fs {
                    assert(self.fss@[i] == old_fss[i]);
                } else if i == node.fs && k != meta.inode_id {
                    assert(old_fss[i].mount_points@.contains_key(k));
                }
            }
            assert forall|j: int| 0 <= j < id && j != node.fs implies #[trigger] self.spec_mount_points(j)
                == old(self).spec_mount_points(j) by {
                assert(self.fss@[j] == old_fss[j]);
            }
            assert forall|j: int| 0 <= j < id implies #[trigger] self.spec_fs(j) == old(self).spec_fs(j)
                && self.spec_mountpoint(j) == old(self).spec_mountpoint(j) by {
                if j != node.fs {
                    assert(self.fss@[j] == old_fss[j]);
                }
            }
        }
        Ok(id)
    }

    /// The file system mounted on `node`, seen from its root node, or `None`
    /// when nothing is mounted there.
    pub fn change_inode(&self, node: &MNode<F::Node>) -> (r: Result<Option<MNode<F::Node>>, FsError>)
        requires
            self.wf(),
            self.valid_node(*node),
        ensures
            match node.inner.spec_metadata() {
                Err(e) => r == Err::<Option<MNode<F::Node>>, FsError>(e),
                Ok(m) => if self.spec_mount_points(node.fs as int).contains_key(m.inode_id) {
                    r == Ok::<Option<MNode<F::Node>>, FsError>(
                        Some(
                            self.spec_mountpoint_root_inode(
                                self.spec_mount_points(node.fs as int)[m.inode_id] as nat,
                            ),
                        ),
                    )
                } else {
                    r == Ok::<Option<MNode<F::Node>>, FsError>(None)
                },
            },
    {
        let meta = match node.inner.metadata() {
            Ok(meta) => meta,
            Err(e) => return Err(e),
        };
        match self.fss[node.fs].mount_points.get(&meta.inode_id) {
            Some(fs) => {
                proof {
                    assert(self.fss@[node.fs as int].mount_points@.contains_key(meta.inode_id));
                }
                Ok(Some(self.mountpoint_root_inode(*fs)))
            },
            None => Ok(None),
        }
    }

    /// Whether `node` is the root node of its own file system: the inode
    /// numbers of the two are compared.
    pub fn is_mountpoint_root_inode(&self, node: &MNode<F::Node>) -> (r: Result<bool, FsError>)
        requires
            self.valid_node(*node),
        ensures
            match self.spec_mountpoint_root_inode(node.fs as nat).inner.spec_metadata() {
                Err(e) => r == Err::<bool, FsError>(e),
                Ok(rm) => match node.inner.spec_metadata() {
                    Err(e) => r == Err::<bool, FsError>(e),
                    Ok(m) => r == Ok::<bool, FsError>(rm.inode_id == m.inode_id),
                },
            },
    {
        let root = self.mountpoint_root_inode(node.fs);
        let root_id = match root.inner.metadata() {
            Ok(meta) => meta.inode_id,
            Err(e) => return Err(e),
        };
        let id = match node.inner.metadata() {
            Ok(meta) => meta.inode_id,
            Err(e) => return Err(e),
        };
        Ok(root_id == id)
    }

    /// The node called `name` next to or under `node`: `..` goes up (out of
    /// a mounted file system at its root, to the parent of the node it is
    /// mounted on), `.` and the empty name stay, and any other name is looked
    /// up in the file system mounted on `node`, if any, else in `node`.
    pub fn find(&self, node: &MNode<F::Node>, name: &str) -> (r: Result<MNode<F::Node>, FsError>)
        requires
            self.wf(),
            self.valid_node(*node),
        ensures
            r matches Ok(m) ==> self.valid_node(m),
            name.spec_bytes() == seq![46u8, 46u8] ==> match self.spec_mountpoint_root_inode(
                node.fs as nat,
            ).inner.spec_metadata() {
                Err(e) => r == Err::<MNode<F::Node>, FsError>(e),
                Ok(rm) => match node.inner.spec_metadata() {
                    Err(e) => r == Err::<MNode<F::Node>, FsError>(e),
                    Ok(m) => if rm.inode_id == m.inode_id {
                        match self.spec_mountpoint(node.fs as int) {
                            Some(mp) => match mp.inner.spec_find(seq![46u8, 46u8]) {
                                Err(e) => r == Err::<MNode<F::Node>, FsError>(e),
                                Ok(up) => r == Ok::<MNode<F::Node>, FsError>(MNode { inner: up, fs: mp.fs }),
                            },
                            None => (r matches Ok(same) && same.fs == node.fs && cloned(node.inner, same.inner)),
                        }
                    } else {
                        match node.inner.spec_find(seq![46u8, 46u8]) {
                            Err(e) => r == Err::<MNode<F::Node>, FsError>(e),
                            Ok(up) => r == Ok::<MNode<F::Node>, FsError>(MNode { inner: up, fs: node.fs }),
                        }
                    },
                },
            },
            (name.spec_bytes() == seq![46u8] || name.spec_bytes().len() == 0) ==> (r matches Ok(same)
                && same.fs == node.fs && cloned(node.inner, same.inner)),
            name.spec_bytes() != seq![46u8, 46u8] && name.spec_bytes() != seq![46u8]
                && name.spec_bytes().len() != 0 ==> match node.inner.spec_metadata() {
                Err(e) => r == Err::<MNode<F::Node>, FsError>(e),
                Ok(m) => {
                    let base = if self.spec_mount_points(node.fs as int).contains_key(m.inode_id) {
                        self.spec_mountpoint_root_inode(
                            self.spec_mount_points(node.fs as int)[m.inode_id] as nat,
                        ).inner
                    } else {
                        node.inner
                    };
                    match base.spec_find(name.spec_bytes()) {
                        Err(e) => r == Err::<MNode<F::Node>, FsError>(e),
                        Ok(child) => r == Ok::<MNode<F::Node>, FsError>(MNode { inner: child, fs: node.fs }),
                    }
                },
            },
    {
        let bytes = name.as_bytes();
        let dotdot = dot_dot();
        let is_dotdot = bytes.len() == 2 && bytes[0] == 46u8 && bytes[1] == 46u8;
        let is_dot = bytes.len() == 1 && bytes[0] == 46u8;
        proof {
            assert(is_dotdot <==> name.spec_bytes() == seq![46u8, 46u8]) by {
                if name.spec_bytes() == seq![46u8, 46u8] {
                    assert(bytes@.len() == 2);
                }
                if is_dotdot {
                    assert(bytes@ =~= seq![46u8, 46u8]);
                }
            }
            assert(is_dot <==> name.spec_bytes() == seq![46u8]) by {
                if is_dot {
                    assert(bytes@ =~= seq![46u8]);
                }
            }
        }
        if is_dotdot {
            let at_root = match self.is_mountpoint_root_inode(node) {
                Ok(b) => b,
                Err(e) => return Err(e),
            };
            if at_root {
                match &self.fss[node.fs].self_mountpoint {
                    Some(inode) => {
                        proof {
                            if node.fs > 0 {
                                let _ = self.fss@[node.fs as int];
                            }
                        }
                        match inode.inner.find(dotdot) {
                            Ok(up) => Ok(MNode { inner: up, fs: inode.fs }),
                            Err(e) => Err(e),
                        }
                    },
                    None => Ok(Self::copy_node(node)),
                }
            } else {
                match node.inner.find(dotdot) {
                    Ok(up) => Ok(MNode { inner: up, fs: node.fs }),
                    Err(e) => Err(e),
                }
            }
        } else if is_dot || bytes.len() == 0 {
            Ok(Self::copy_node(node))
        } else {
            let self_inode = match self.change_inode(node) {
                Ok(o) => o,
                Err(e) => return Err(e),
            };
            let child = match self_inode {
                Some(mounted) => mounted.inner.find(name),
                None => node.inner.find(name),
            };
            match child {
                Ok(child) => Ok(MNode { inner: child, fs: node.fs }),
                Err(e) => Err(e),
            }
        }
    }

    /// A tree of one file system.
    pub fn new(inner: F) -> (r: Self)
        ensures
            r.wf(),
            r.len() == 1,
            r.spec_fs(0) == inner,
            r.spec_mount_points(0) == Map::<InodeId, usize>::empty(),
    {
        let mut fss: Vec<MountFs<F>> = Vec::new();
        fss.push(MountFs { inner, mount_points: BTreeMap::new(), self_mountpoint: None });
        MountTree { fss }
    }

    /// The root node of file system `fs` itself.
    pub fn mountpoint_root_inode(&self, fs: usize) -> (r: MNode<F::Node>)
        requires
            fs < self.len(),
        ensures
            r == self.spec_mountpoint_root_inode(fs as nat),
    {
        MNode { inner: self.fss[fs].inner.root_inode(), fs }
    }

    /// The root node of file system `i` is the root of that file system,
    /// tagged with `i`.
    pub proof fn lemma_mountpoint_root_is_own_root(&self, i: nat)
        requires
            i < self.len(),
        ensures
            self.spec_mountpoint_root_inode(i).inner == self.spec_fs(i as int).spec_root_inode(),
            self.spec_mountpoint_root_inode(i).fs == i as usize,
    {
    }

    /// Seen from any file system of the tree, the root of the whole tree is
    /// the root of file system 0, tagged with 0; in particular a file system
    /// mounted on a node of another one has the same tree root as that one.
    pub proof fn lemma_root_inode_is_top(&self, i: nat)
        requires
            self.wf(),
            i < self.len(),
        ensures
            self.spec_root_inode(i) == (MNode { inner: self.spec_fs(0).spec_root_inode(), fs: 0usize }),
            self.spec_mountpoint(i as int) matches Some(mp) ==> self.spec_root_inode(i)
                == self.spec_root_inode(mp.fs as nat),
        decreases i,
    {
        if i > 0 {
            let _ = self.fss@[i as int];
            let mp = self.spec_mountpoint(i as int)->Some_0;
            self.lemma_root_inode_is_top(mp.fs as nat);
        }
    }

    /// The root node of the whole tree, reached from file system `fs` by
    /// going up the mount points.
    pub fn root_inode(&self, fs: usize) -> (r: MNode<F::Node>)
        requires
            self.wf(),
            fs < self.len(),
        ensures
            r == self.spec_root_inode(fs as nat),
            r.fs < self.len(),
        decreases fs,
    {
        match &self.fss[fs].self_mountpoint {
            Some(inode) => {
                proof {
                    if fs > 0 {
                        let _ = self.fss@[fs as int];
                    }
                }
                self.root_inode(inode.fs)
            },
            None => self.mountpoint_root_inode(fs),
        }
    }
}

/// The name `..`.
fn dot_dot() -> (r: &'static str)
    ensures
        r.spec_bytes() == seq![46u8, 46u8],
{
    proof {
        reveal_strlit("..");
        reveal_with_fuel(vstd::utf8::encode_utf8, 3);
        assert('.' as u32 == 46);
        assert(46u32 & 0x7F == 46) by (bit_vector);
        assert(vstd::utf8::encode_scalar('.' as u32) =~= seq![46u8]);
        assert("..".spec_bytes() =~= seq![46u8, 46u8]);
    }
    ".."
}

} // verus!
