//! The storage engine and POSIX facade: a single mounted store whose state
//! is a table of nodes (one per live path), a table of open handles, the
//! recorded hardlink aliases, and the descriptor and inode pools.
//!
//! Every operation's contract is stated against the abstract tree — a map
//! from paths to node values — so properties of sequences of operations can
//! be proved at the map level.

use vstd::prelude::*;
use vstd::utf8::{valid_utf8, decode_utf8, encode_utf8};
use crate::node::{Attr, Node, NodeKind, NodeV, Handle, HandleV, FileHandle, DirHandle, LinkSet,
    DirentV, FileData,
    NodeStats, Dirent, StatFs, DumpEntry, BLOCK_SIZE, REGION_SIZE, get_default_permissions,
    sanitize_permissions, spec_sanitize_permissions};
use crate::path::{root_path, canon_spec, dirname_spec, basename_spec, path_split_spec, path_canon,
    path_dirname, path_basename, path_split, str_eq, str_chars, str_starts_with};
use crate::ext::{pool_new, pool_request, pool_return, pool_used_ids, chars_to_string,
    bytes_to_string};

verus! {

broadcast use vstd::utf8::encode_utf8_decode_utf8, vstd::utf8::encode_utf8_valid_utf8;

/// The abstract tree: path to node value, for all live paths.
pub open spec fn nmap_of(nodes: Seq<Node>) -> Map<Seq<char>, NodeV>
    decreases nodes.len(),
{
    if nodes.len() == 0 {
        Map::<Seq<char>, NodeV>::empty()
    } else {
        nmap_of(nodes.drop_last()).insert(nodes.last().path@, nodes.last()@)
    }
}

/// No two stored nodes share a path.
pub open spec fn unique_paths(nodes: Seq<Node>) -> bool {
    forall|i: int, j: int| 0 <= i < j < nodes.len() ==> nodes[i].path@ != nodes[j].path@
}

/// A path is in the tree exactly when some node carries it.
pub proof fn lemma_nmap_contains(nodes: Seq<Node>, p: Seq<char>)
    ensures
        nmap_of(nodes).contains_key(p) <==> exists|i: int|
            0 <= i < nodes.len() && nodes[i].path@ == p,
    decreases nodes.len(),
{
    if nodes.len() > 0 {
        lemma_nmap_contains(nodes.drop_last(), p);
        if nodes.last().path@ == p {
            assert(nodes[nodes.len() - 1].path@ == p);
        } else if nmap_of(nodes).contains_key(p) {
            let i = choose|i: int| 0 <= i < nodes.drop_last().len() && nodes.drop_last()[i].path@
                == p;
            assert(nodes[i].path@ == p);
        } else if exists|i: int| 0 <= i < nodes.len() && nodes[i].path@ == p {
            let i = choose|i: int| 0 <= i < nodes.len() && nodes[i].path@ == p;
            assert(nodes.drop_last()[i].path@ == p);
        }
    }
}

/// With unique paths, the tree maps each stored path to that node's value.
pub proof fn lemma_nmap_index(nodes: Seq<Node>, i: int)
    requires
        unique_paths(nodes),
        0 <= i < nodes.len(),
    ensures
        nmap_of(nodes).contains_key(nodes[i].path@),
        nmap_of(nodes)[nodes[i].path@] == nodes[i]@,
    decreases nodes.len(),
{
    if i == nodes.len() - 1 {
    } else {
        lemma_nmap_index(nodes.drop_last(), i);
        assert(nodes.drop_last()[i] == nodes[i]);
        assert(nodes.last().path@ != nodes[i].path@);
    }
}

/// Appending a node with a fresh path inserts it into the tree.
pub proof fn lemma_nmap_push(nodes: Seq<Node>, n: Node)
    ensures
        nmap_of(nodes.push(n)) == nmap_of(nodes).insert(n.path@, n@),
{
    assert(nodes.push(n).drop_last() =~= nodes);
    assert(nodes.push(n).last() == n);
}

/// Replacing the node at an index, keeping its path, updates the tree at
/// that path.
pub proof fn lemma_nmap_update(nodes: Seq<Node>, i: int, n: Node)
    requires
        unique_paths(nodes),
        0 <= i < nodes.len(),
        n.path@ == nodes[i].path@,
    ensures
        nmap_of(nodes.update(i, n)) == nmap_of(nodes).insert(n.path@, n@),
    decreases nodes.len(),
{
    if i == nodes.len() - 1 {
        assert(nodes.update(i, n).drop_last() =~= nodes.drop_last());
        assert(nodes.update(i, n).last() == n);
        assert(nmap_of(nodes.drop_last()).insert(nodes.last().path@, nodes.last()@).insert(
            n.path@,
            n@,
        ) =~= nmap_of(nodes.drop_last()).insert(n.path@, n@));
    } else {
        lemma_nmap_update(nodes.drop_last(), i, n);
        assert(nodes.update(i, n).drop_last() =~= nodes.drop_last().update(i, n));
        assert(nodes.update(i, n).last() == nodes.last());
        assert(nodes.last().path@ != n.path@);
        assert(nmap_of(nodes.drop_last()).insert(n.path@, n@).insert(
            nodes.last().path@,
            nodes.last()@,
        ) =~= nmap_of(nodes.drop_last()).insert(nodes.last().path@, nodes.last()@).insert(
            n.path@,
            n@,
        ));
    }
}

/// Removing the node at an index removes its path from the tree.
pub proof fn lemma_nmap_remove(nodes: Seq<Node>, i: int)
    requires
        unique_paths(nodes),
        0 <= i < nodes.len(),
    ensures
        nmap_of(nodes.remove(i)) == nmap_of(nodes).remove(nodes[i].path@),
    decreases nodes.len(),
{
    if i == nodes.len() - 1 {
        assert(nodes.remove(i) =~= nodes.drop_last());
        lemma_nmap_contains(nodes.drop_last(), nodes.last().path@);
        assert(forall|j: int| 0 <= j < nodes.drop_last().len() ==> nodes.drop_last()[j].path@
            != nodes.last().path@);
        assert(!nmap_of(nodes.drop_last()).contains_key(nodes.last().path@));
        assert(nmap_of(nodes.drop_last()).insert(nodes.last().path@, nodes.last()@).remove(
            nodes.last().path@,
        ) =~= nmap_of(nodes.drop_last()));
    } else {
        lemma_nmap_remove(nodes.drop_last(), i);
        assert(nodes.remove(i).drop_last() =~= nodes.drop_last().remove(i));
        assert(nodes.remove(i).last() == nodes.last());
        assert(nodes.drop_last()[i] == nodes[i]);
        assert(nodes.last().path@ != nodes[i].path@);
        assert(nmap_of(nodes.drop_last()).remove(nodes[i].path@).insert(
            nodes.last().path@,
            nodes.last()@,
        ) =~= nmap_of(nodes.drop_last()).insert(nodes.last().path@, nodes.last()@).remove(
            nodes[i].path@,
        ));
    }
}

/// The open-descriptor map: descriptor to handle value.
pub open spec fn fdmap_of(handles: Seq<Handle>) -> Map<usize, HandleV>
    decreases handles.len(),
{
    if handles.len() == 0 {
        Map::<usize, HandleV>::empty()
    } else {
        fdmap_of(handles.drop_last()).insert(handles.last().spec_fd(), handles.last()@)
    }
}

/// No two open handles share a descriptor.
pub open spec fn unique_fds(handles: Seq<Handle>) -> bool {
    forall|i: int, j: int| 0 <= i < j < handles.len() ==> handles[i].spec_fd()
        != handles[j].spec_fd()
}

/// A descriptor is open exactly when some handle carries it.
pub proof fn lemma_fdmap_contains(handles: Seq<Handle>, fd: usize)
    ensures
        fdmap_of(handles).contains_key(fd) <==> exists|i: int|
            0 <= i < handles.len() && handles[i].spec_fd() == fd,
    decreases handles.len(),
{
    if handles.len() > 0 {
        lemma_fdmap_contains(handles.drop_last(), fd);
        if handles.last().spec_fd() == fd {
            assert(handles[handles.len() - 1].spec_fd() == fd);
        } else if fdmap_of(handles).contains_key(fd) {
            let i = choose|i: int| 0 <= i < handles.drop_last().len()
                && handles.drop_last()[i].spec_fd() == fd;
            assert(handles[i].spec_fd() == fd);
        } else if exists|i: int| 0 <= i < handles.len() && handles[i].spec_fd() == fd {
            let i = choose|i: int| 0 <= i < handles.len() && handles[i].spec_fd() == fd;
            assert(handles.drop_last()[i].spec_fd() == fd);
        }
    }
}

/// With unique descriptors, the map gives each stored handle's value.
pub proof fn lemma_fdmap_index(handles: Seq<Handle>, i: int)
    requires
        unique_fds(handles),
        0 <= i < handles.len(),
    ensures
        fdmap_of(handles).contains_key(handles[i].spec_fd()),
        fdmap_of(handles)[handles[i].spec_fd()] == handles[i]@,
    decreases handles.len(),
{
    if i == handles.len() - 1 {
    } else {
        lemma_fdmap_index(handles.drop_last(), i);
        assert(handles.drop_last()[i] == handles[i]);
        assert(handles.last().spec_fd() != handles[i].spec_fd());
    }
}

/// Appending a handle with a fresh descriptor inserts it into the map.
pub proof fn lemma_fdmap_push(handles: Seq<Handle>, h: Handle)
    ensures
        fdmap_of(handles.push(h)) == fdmap_of(handles).insert(h.spec_fd(), h@),
{
    assert(handles.push(h).drop_last() =~= handles);
    assert(handles.push(h).last() == h);
}

/// Replacing the handle at an index, keeping its descriptor, updates the
/// map at that descriptor.
pub proof fn lemma_fdmap_update(handles: Seq<Handle>, i: int, h: Handle)
    requires
        unique_fds(handles),
        0 <= i < handles.len(),
        h.spec_fd() == handles[i].spec_fd(),
    ensures
        fdmap_of(handles.update(i, h)) == fdmap_of(handles).insert(h.spec_fd(), h@),
    decreases handles.len(),
{
    if i == handles.len() - 1 {
        assert(handles.update(i, h).drop_last() =~= handles.drop_last());
        assert(handles.update(i, h).last() == h);
        assert(fdmap_of(handles.drop_last()).insert(handles.last().spec_fd(),
            handles.last()@).insert(h.spec_fd(), h@) =~= fdmap_of(handles.drop_last()).insert(
            h.spec_fd(),
            h@,
        ));
    } else {
        lemma_fdmap_update(handles.drop_last(), i, h);
        assert(handles.update(i, h).drop_last() =~= handles.drop_last().update(i, h));
        assert(handles.update(i, h).last() == handles.last());
        assert(handles.last().spec_fd() != h.spec_fd());
        assert(fdmap_of(handles.drop_last()).insert(h.spec_fd(), h@).insert(
            handles.last().spec_fd(),
            handles.last()@,
        ) =~= fdmap_of(handles.drop_last()).insert(handles.last().spec_fd(),
            handles.last()@).insert(h.spec_fd(), h@));
    }
}

/// Removing the handle at an index removes its descriptor from the map.
pub proof fn lemma_fdmap_remove(handles: Seq<Handle>, i: int)
    requires
        unique_fds(handles),
        0 <= i < handles.len(),
    ensures
        fdmap_of(handles.remove(i)) == fdmap_of(handles).remove(handles[i].spec_fd()),
    decreases handles.len(),
{
    if i == handles.len() - 1 {
        assert(handles.remove(i) =~= handles.drop_last());
        lemma_fdmap_contains(handles.drop_last(), handles.last().spec_fd());
        assert(forall|j: int| 0 <= j < handles.drop_last().len() ==> handles.drop_last()[
            j].spec_fd() != handles.last().spec_fd());
        assert(!fdmap_of(handles.drop_last()).contains_key(handles.last().spec_fd()));
        assert(fdmap_of(handles.drop_last()).insert(handles.last().spec_fd(),
            handles.last()@).remove(handles.last().spec_fd()) =~= fdmap_of(handles.drop_last()));
    } else {
        lemma_fdmap_remove(handles.drop_last(), i);
        assert(handles.remove(i).drop_last() =~= handles.drop_last().remove(i));
        assert(handles.remove(i).last() == handles.last());
        assert(handles.drop_last()[i] == handles[i]);
        assert(handles.last().spec_fd() != handles[i].spec_fd());
        assert(fdmap_of(handles.drop_last()).remove(handles[i].spec_fd()).insert(
            handles.last().spec_fd(),
            handles.last()@,
        ) =~= fdmap_of(handles.drop_last()).insert(handles.last().spec_fd(),
            handles.last()@).remove(handles[i].spec_fd()));
    }
}

/// The mounted store.
pub struct Fs {
    /// One node per live path.
    nodes: Vec<Node>,
    /// The open handles.
    handles: Vec<Handle>,
    /// The recorded hardlink aliases, keyed by target path.
    links: Vec<LinkSet>,
    /// Pool of descriptor numbers; a descriptor is the pool id plus 2.
    fd_pool: id_pool::IdPool,
    /// Pool of inode numbers.
    ino_pool: id_pool::IdPool,
}

/// True when the path names an internal hardlink alias in the tree.
pub open spec fn is_link_at(t: Map<Seq<char>, NodeV>, q: Seq<char>) -> bool {
    t.contains_key(q) && t[q].attr.link
}

/// True when the path names a user-visible symbolic link in the tree.
pub open spec fn is_symlink_at(t: Map<Seq<char>, NodeV>, q: Seq<char>) -> bool {
    t.contains_key(q) && t[q].attr.symlink
}

/// The path a link node points at: its content, decoded as UTF-8.
pub open spec fn link_target(t: Map<Seq<char>, NodeV>, q: Seq<char>) -> Seq<char> {
    decode_utf8(t[q].content)
}

/// The hop budget of both resolvers.
pub const MAX_HOPS: usize = 100;

/// Follows internal hardlinks: normalizes, and while the path names an
/// alias, hops to its target; gives up when the budget runs out.
pub open spec fn resolve_hard_spec(t: Map<Seq<char>, NodeV>, p: Seq<char>, fuel: nat) -> Option<
    Seq<char>,
>
    decreases fuel,
{
    let q = canon_spec(p);
    if is_link_at(t, q) {
        if fuel == 0 {
            None
        } else {
            resolve_hard_spec(t, link_target(t, q), (fuel - 1) as nat)
        }
    } else {
        Some(q)
    }
}

/// Follows hardlinks and then symbolic links, each hop with a fresh
/// hardlink budget; gives up when the symlink budget runs out.
pub open spec fn resolve_full_spec(t: Map<Seq<char>, NodeV>, p: Seq<char>, fuel: nat) -> Option<
    Seq<char>,
>
    decreases fuel,
{
    match resolve_hard_spec(t, p, MAX_HOPS as nat) {
        Option::None => None,
        Option::Some(q) => if is_symlink_at(t, q) {
            if fuel == 0 {
                None
            } else {
                resolve_full_spec(t, link_target(t, q), (fuel - 1) as nat)
            }
        } else {
            Some(q)
        },
    }
}

/// A path exists when it fully resolves to a live path.
pub open spec fn exists_spec(t: Map<Seq<char>, NodeV>, p: Seq<char>) -> bool {
    match resolve_full_spec(t, p, MAX_HOPS as nat) {
        Option::Some(q) => t.contains_key(q),
        Option::None => false,
    }
}

/// The attempt counter of the resolvers, as a number.
pub open spec fn att_of(attempt: Option<usize>) -> int {
    match attempt {
        Option::Some(a) => a as int,
        Option::None => 0,
    }
}

impl Fs {
    /// The abstract tree of the store.
    pub closed spec fn tree(self) -> Map<Seq<char>, NodeV> {
        nmap_of(self.nodes@)
    }

    /// The open descriptors of the store.
    pub closed spec fn fds(self) -> Map<usize, HandleV> {
        fdmap_of(self.handles@)
    }

    spec fn nodes_ok(self) -> bool {
        &&& unique_paths(self.nodes@)
        &&& forall|i: int, j: int| 0 <= i < j < self.nodes@.len() ==> self.nodes@[i].attr.ino
            != self.nodes@[j].attr.ino
        &&& forall|i: int| 0 <= i < self.nodes@.len() ==> pool_used_ids(self.ino_pool).contains(
            #[trigger] self.nodes@[i].attr.ino,
        )
        &&& forall|i: int| #![trigger self.nodes@[i].attr] 0 <= i < self.nodes@.len() ==> ((
        self.nodes@[i].attr.link || self.nodes@[i].attr.symlink) ==> valid_utf8(
            self.nodes@[i].content@,
        ))
        &&& forall|i: int| #![trigger self.nodes@[i].kind] 0 <= i < self.nodes@.len() ==> (
        self.nodes@[i].kind is Dir ==> self.nodes@[i].content@.len() == 0)
    }

    spec fn handles_ok(self) -> bool {
        &&& unique_fds(self.handles@)
        &&& forall|i: int| #![trigger self.handles@[i].spec_fd()] 0 <= i < self.handles@.len()
            ==> self.handles@[i].spec_fd() >= 3 && pool_used_ids(self.fd_pool).contains(
            (self.handles@[i].spec_fd() - 2) as usize,
        )
    }

    spec fn links_ok(self) -> bool {
        forall|i: int, j: int| 0 <= i < j < self.links@.len() ==> self.links@[i].target@
            != self.links@[j].target@
    }

    /// The store's well-formedness: unique paths and inodes, a root
    /// directory, unique descriptors at 3 or above, and link nodes whose
    /// content decodes as a path.
    pub closed spec fn wf(self) -> bool {
        &&& self.nodes_ok()
        &&& self.handles_ok()
        &&& self.links_ok()
        &&& self.tree().contains_key(root_path())
        &&& self.tree()[root_path()].kind is Dir
        &&& !self.tree()[root_path()].attr.link
        &&& !self.tree()[root_path()].attr.symlink
    }

    /// Every open descriptor is at least 3: 0, 1 and 2 stay reserved.
    pub proof fn lemma_fds_ge3(self)
        requires
            self.wf(),
        ensures
            forall|fd: usize| #[trigger] self.fds().contains_key(fd) ==> fd >= 3,
    {
        assert forall|fd: usize| #[trigger] self.fds().contains_key(fd) implies fd >= 3 by {
            lemma_fdmap_contains(self.handles@, fd);
            let i = choose|i: int| 0 <= i < self.handles@.len() && self.handles@[i].spec_fd()
                == fd;
        }
    }

    /// Every well-formed store has a root directory.
    pub proof fn lemma_wf_root(self)
        requires
            self.wf(),
        ensures
            self.tree().contains_key(root_path()),
            self.tree()[root_path()].kind is Dir,
            !self.tree()[root_path()].attr.link,
            !self.tree()[root_path()].attr.symlink,
    {
    }

    /// The root always exists: the path `/` resolves to the live root
    /// directory in every well-formed store.
    pub proof fn lemma_root_exists(self)
        requires
            self.wf(),
        ensures
            exists_spec(self.tree(), root_path()),
    {
        lemma_canon_root();
        assert(!is_link_at(self.tree(), root_path()));
        assert(resolve_hard_spec(self.tree(), root_path(), MAX_HOPS as nat) == Some(root_path()));
        assert(!is_symlink_at(self.tree(), root_path()));
    }

    /// Mounts a fresh store: only the root directory exists, nothing is
    /// open, and the root's times are the given mount time.
    pub fn mount(build_time: u64) -> (r: Fs)
        ensures
            r.wf(),
            r.tree() == Map::<Seq<char>, NodeV>::empty().insert(
                root_path(),
                NodeV {
                    kind: NodeKind::Dir,
                    content: Seq::<u8>::empty(),
                    attr: root_attr(build_time),
                },
            ),
            r.fds() == Map::<usize, HandleV>::empty(),
            r.alias_map() == Map::<Seq<char>, Seq<Seq<char>>>::empty(),
            r.fd_ids() == Set::<usize>::empty(),
            r.ino_ids() == Set::<usize>::empty().insert(mounted_root_ino()),
    {
        let mut ino_pool = pool_new();
        let root_ino = match pool_request(&mut ino_pool) {
            Some(i) => i,
            None => {
                proof {
                    assert(pool_used_ids(ino_pool).contains(1usize));
                    assert(false);
                }
                1
            },
        };
        proof {
            assert(root_ino == 1) by {
                if root_ino > 1 {
                    assert(Set::<usize>::empty().contains(1usize));
                }
            }
        }
        let root = vec!['/'];
        proof {
            assert(root@ =~= root_path());
        }
        let root_node = Node {
            path: chars_to_string(&root),
            kind: NodeKind::Dir,
            content: Vec::new(),
            attr: Attr {
                ino: root_ino,
                mode: crate::S_IFDIR | crate::DEFAULT_PERM_DIR,
                uid: 0,
                gid: 0,
                nlink: 1,
                atime: build_time,
                mtime: build_time,
                ctime: build_time,
                birthtime: build_time,
                link: false,
                symlink: false,
            },
        };
        let mut nodes: Vec<Node> = Vec::new();
        let ghost base = nodes@;
        nodes.push(root_node);
        proof {
            lemma_nmap_push(base, nodes@[0]);
            assert(nmap_of(base) =~= Map::<Seq<char>, NodeV>::empty());
            lemma_nmap_index(nodes@, 0);
        }
        let r = Fs {
            nodes,
            handles: Vec::new(),
            links: Vec::new(),
            fd_pool: pool_new(),
            ino_pool,
        };
        proof {
            assert(r.fds() =~= Map::<usize, HandleV>::empty());
            assert(r.alias_map() =~= Map::<Seq<char>, Seq<Seq<char>>>::empty());
            assert(r.tree() =~= Map::<Seq<char>, NodeV>::empty().insert(
                root_path(),
                NodeV {
                    kind: NodeKind::Dir,
                    content: Seq::<u8>::empty(),
                    attr: root_attr(build_time),
                },
            ));
        }
        r
    }

    /// Index of the node at exactly this path, when one exists.
    fn find_idx(&self, path: &str) -> (r: Option<usize>)
        ensures
            match r {
                Some(i) => {
                    &&& i < self.nodes@.len()
                    &&& self.nodes@[i as int].path@ == path@
                    &&& self.tree().contains_key(path@)
                    &&& unique_paths(self.nodes@) ==> self.tree()[path@] == self.nodes@[i as int]@
                },
                None => !self.tree().contains_key(path@),
            },
    {
        let n = self.nodes.len();
        let mut i: usize = 0;
        while i < n
            invariant
                i <= n,
                n == self.nodes@.len(),
                forall|j: int| 0 <= j < i ==> self.nodes@[j].path@ != path@,
            decreases n - i,
        {
            if str_eq(self.nodes[i].path.as_str(), path) {
                proof {
                    lemma_nmap_contains(self.nodes@, path@);
                    if unique_paths(self.nodes@) {
                        lemma_nmap_index(self.nodes@, i as int);
                    }
                }
                return Some(i);
            }
            i += 1;
        }
        proof {
            lemma_nmap_contains(self.nodes@, path@);
        }
        None
    }
}

/// What a node value looks like after an attribute patch.
pub open spec fn with_attr(nv: NodeV, a: Attr) -> NodeV {
    NodeV { kind: nv.kind, content: nv.content, attr: a }
}

/// What a node value looks like after an access-time touch.
pub open spec fn with_atime(nv: NodeV, now: u64) -> NodeV {
    with_attr(nv, Attr { atime: now, ..nv.attr })
}

/// The user-visible stat record of a node value.
pub open spec fn stats_of(nv: NodeV) -> NodeStats {
    NodeStats {
        dev: 0,
        ino: nv.attr.ino,
        mode: nv.attr.mode,
        nlink: nv.attr.nlink,
        uid: nv.attr.uid,
        gid: nv.attr.gid,
        rdev: 0,
        size: nv.content.len() as usize,
        blksize: BLOCK_SIZE,
        blocks: BLOCK_SIZE,
        atimeMs: nv.attr.atime,
        mtimeMs: nv.attr.mtime,
        ctimeMs: nv.attr.ctime,
        birthtimeMs: nv.attr.birthtime,
    }
}

/// True when the path, canonicalized, names a directory.
pub open spec fn is_dir_spec(t: Map<Seq<char>, NodeV>, p: Seq<char>) -> bool {
    t.contains_key(canon_spec(p)) && t[canon_spec(p)].kind is Dir
}

/// True when the path, canonicalized, names a file (links included).
pub open spec fn is_file_spec(t: Map<Seq<char>, NodeV>, p: Seq<char>) -> bool {
    t.contains_key(canon_spec(p)) && t[canon_spec(p)].kind is File
}

impl Fs {
    /// Replaces the attribute record of the node at an index, keeping its
    /// inode number.
    fn patch_attr(&mut self, i: usize, a: Attr)
        requires
            old(self).wf(),
            i < old(self).nodes@.len(),
            a.ino == old(self).nodes@[i as int].attr.ino,
            (a.link || a.symlink) ==> valid_utf8(old(self).nodes@[i as int].content@),
            old(self).nodes@[i as int].path@ == root_path() ==> !a.link && !a.symlink,
        ensures
            final(self).wf(),
            final(self).nodes@ == old(self).nodes@.update(
                i as int,
                Node {
                    path: old(self).nodes@[i as int].path,
                    kind: old(self).nodes@[i as int].kind,
                    content: old(self).nodes@[i as int].content,
                    attr: a,
                },
            ),
            final(self).tree() == old(self).tree().insert(
                old(self).nodes@[i as int].path@,
                with_attr(old(self).nodes@[i as int]@, a),
            ),
            final(self).handles@ == old(self).handles@,
            final(self).fds() == old(self).fds(),
            final(self).links@ == old(self).links@,
            final(self).fd_pool == old(self).fd_pool,
            final(self).ino_pool == old(self).ino_pool,
    {
        self.nodes[i].attr = a;
        proof {
            assert(self.nodes@ =~= old(self).nodes@.update(
                i as int,
                Node {
                    path: old(self).nodes@[i as int].path,
                    kind: old(self).nodes@[i as int].kind,
                    content: old(self).nodes@[i as int].content,
                    attr: a,
                },
            ));
            lemma_nmap_update(old(self).nodes@, i as int, self.nodes@[i as int]);
            lemma_nmap_index(old(self).nodes@, i as int);
            let rid = choose|j: int| 0 <= j < old(self).nodes@.len() && old(self).nodes@[j].path@
                == root_path();
            lemma_nmap_contains(old(self).nodes@, root_path());
            lemma_nmap_index(self.nodes@, rid);
        }
    }

    /// Follows internal hardlinks: normalizes the path and hops through
    /// alias nodes; `None` when the hop budget (100, less the attempts
    /// already made) runs out.
    pub fn follow_link(&self, path: &str, attempt: Option<usize>) -> (r: Option<String>)
        requires
            self.wf(),
            att_of(attempt) <= MAX_HOPS as int,
        ensures
            (match r {
                Some(s) => resolve_hard_spec(
                    self.tree(),
                    path@,
                    (MAX_HOPS as int - att_of(attempt)) as nat,
                ) == Some(s@),
                None => resolve_hard_spec(
                    self.tree(),
                    path@,
                    (MAX_HOPS as int - att_of(attempt)) as nat,
                ) is None,
            }),
        decreases MAX_HOPS as int - att_of(attempt),
    {
        let att: usize = match attempt {
            Some(a) => a,
            None => 0,
        };
        let p = path_canon(path);
        let ghost fuel = (MAX_HOPS as int - att_of(attempt)) as nat;
        match self.find_idx(p.as_str()) {
            Some(i) => {
                if self.nodes[i].attr.link {
                    if att >= MAX_HOPS {
                        return None;
                    }
                    let bytes = self.nodes[i].content.clone();
                    proof {
                        assert(bytes@ =~= self.nodes@[i as int].content@);
                    }
                    match bytes_to_string(bytes) {
                        Some(t) => {
                            proof {
                                assert(link_target(self.tree(), p@) == t@);
                            }
                            self.follow_link(t.as_str(), Some(att + 1))
                        },
                        None => {
                            proof {
                                assert(false);
                            }
                            None
                        },
                    }
                } else {
                    Some(p)
                }
            },
            None => Some(p),
        }
    }

    /// Resolves a path fully: hardlinks first, then symbolic links, each
    /// symlink hop with a fresh hardlink budget; `None` when the symlink
    /// budget (100, less the attempts already made) runs out.
    pub fn realpath_sync(&self, path: &str, attempt: Option<usize>) -> (r: Option<String>)
        requires
            self.wf(),
            att_of(attempt) <= MAX_HOPS as int,
        ensures
            (match r {
                Some(s) => resolve_full_spec(
                    self.tree(),
                    path@,
                    (MAX_HOPS as int - att_of(attempt)) as nat,
                ) == Some(s@),
                None => resolve_full_spec(
                    self.tree(),
                    path@,
                    (MAX_HOPS as int - att_of(attempt)) as nat,
                ) is None,
            }),
        decreases MAX_HOPS as int - att_of(attempt),
    {
        let att: usize = match attempt {
            Some(a) => a,
            None => 0,
        };
        let p = match self.follow_link(path, None) {
            Some(p) => p,
            None => {
                return None;
            },
        };
        match self.find_idx(p.as_str()) {
            Some(i) => {
                if self.nodes[i].attr.symlink {
                    if att >= MAX_HOPS {
                        return None;
                    }
                    let bytes = self.nodes[i].content.clone();
                    proof {
                        assert(bytes@ =~= self.nodes@[i as int].content@);
                    }
                    match bytes_to_string(bytes) {
                        Some(t) => {
                            proof {
                                assert(link_target(self.tree(), p@) == t@);
                            }
                            self.realpath_sync(t.as_str(), Some(att + 1))
                        },
                        None => {
                            proof {
                                assert(false);
                            }
                            None
                        },
                    }
                } else {
                    Some(p)
                }
            },
            None => Some(p),
        }
    }

    /// True when the path fully resolves to a live node.
    pub fn exists_sync(&self, path: &str) -> (r: bool)
        requires
            self.wf(),
        ensures
            r == exists_spec(self.tree(), path@),
    {
        match self.realpath_sync(path, None) {
            Some(p) => self.find_idx(p.as_str()).is_some(),
            None => false,
        }
    }

    /// True when the path (canonicalized, not followed) names a directory.
    pub fn is_directory(&self, path: &str) -> (r: bool)
        requires
            self.wf(),
        ensures
            r == is_dir_spec(self.tree(), path@),
    {
        let p = path_canon(path);
        match self.find_idx(p.as_str()) {
            Some(i) => match self.nodes[i].kind {
                NodeKind::Dir => true,
                NodeKind::File => false,
            },
            None => false,
        }
    }

    /// True when the path (canonicalized, not followed) names a file.
    pub fn is_file(&self, path: &str) -> (r: bool)
        requires
            self.wf(),
        ensures
            r == is_file_spec(self.tree(), path@),
    {
        let p = path_canon(path);
        match self.find_idx(p.as_str()) {
            Some(i) => match self.nodes[i].kind {
                NodeKind::File => true,
                NodeKind::Dir => false,
            },
            None => false,
        }
    }

    /// True when the path (canonicalized, not followed) is a symbolic link.
    pub fn is_symlink(&self, path: &str) -> (r: bool)
        requires
            self.wf(),
        ensures
            r == is_symlink_at(self.tree(), canon_spec(path@)),
    {
        let p = path_canon(path);
        match self.find_idx(p.as_str()) {
            Some(i) => self.nodes[i].attr.symlink,
            None => false,
        }
    }

    /// Stats a path, following links, and touches its access time; `None`
    /// exactly when the path does not exist.
    pub fn stat_sync(&mut self, path: &str, now: u64) -> (r: Option<NodeStats>)
        requires
            old(self).wf(),
        ensures
            final(self).wf(),
            r is Some <==> exists_spec(old(self).tree(), path@),
            final(self).fds() == old(self).fds(),
            final(self).alias_map() == old(self).alias_map(),
            final(self).fd_ids() == old(self).fd_ids(),
            final(self).ino_ids() == old(self).ino_ids(),
            (match r {
                Some(st) => {
                    let q = resolve_full_spec(old(self).tree(), path@, MAX_HOPS as nat).unwrap();
                    &&& st == stats_of(old(self).tree()[q])
                    &&& final(self).tree() == old(self).tree().insert(
                        q,
                        with_atime(old(self).tree()[q], now),
                    )
                },
                None => final(self).tree() == old(self).tree(),
            }),
    {
        let p = match self.realpath_sync(path, None) {
            Some(p) => p,
            None => {
                return None;
            },
        };
        match self.find_idx(p.as_str()) {
            Some(i) => {
                let n = &self.nodes[i];
                let st = NodeStats {
                    dev: 0,
                    ino: n.attr.ino,
                    mode: n.attr.mode,
                    nlink: n.attr.nlink,
                    uid: n.attr.uid,
                    gid: n.attr.gid,
                    rdev: 0,
                    size: n.content.len(),
                    blksize: BLOCK_SIZE,
                    blocks: BLOCK_SIZE,
                    atimeMs: n.attr.atime,
                    mtimeMs: n.attr.mtime,
                    ctimeMs: n.attr.ctime,
                    birthtimeMs: n.attr.birthtime,
                };
                let a = Attr { atime: now, ..self.nodes[i].attr };
                self.patch_attr(i, a);
                Some(st)
            },
            None => None,
        }
    }

    /// Stats a path following hardlinks only, so a symbolic link is statted
    /// itself; touches the access time of what it stats.
    pub fn lstat_sync(&mut self, path: &str, now: u64) -> (r: Option<NodeStats>)
        requires
            old(self).wf(),
        ensures
            final(self).wf(),
            final(self).fds() == old(self).fds(),
            final(self).alias_map() == old(self).alias_map(),
            final(self).fd_ids() == old(self).fd_ids(),
            final(self).ino_ids() == old(self).ino_ids(),
            (match resolve_hard_spec(old(self).tree(), path@, MAX_HOPS as nat) {
                Option::Some(q) => if old(self).tree().contains_key(q) {
                    &&& r == Some(stats_of(old(self).tree()[q]))
                    &&& final(self).tree() == old(self).tree().insert(
                        q,
                        with_atime(old(self).tree()[q], now),
                    )
                } else {
                    r is None && final(self).tree() == old(self).tree()
                },
                Option::None => r is None && final(self).tree() == old(self).tree(),
            }),
    {
        let p = match self.follow_link(path, None) {
            Some(p) => p,
            None => {
                return None;
            },
        };
        match self.find_idx(p.as_str()) {
            Some(i) => {
                let n = &self.nodes[i];
                let st = NodeStats {
                    dev: 0,
                    ino: n.attr.ino,
                    mode: n.attr.mode,
                    nlink: n.attr.nlink,
                    uid: n.attr.uid,
                    gid: n.attr.gid,
                    rdev: 0,
                    size: n.content.len(),
                    blksize: BLOCK_SIZE,
                    blocks: BLOCK_SIZE,
                    atimeMs: n.attr.atime,
                    mtimeMs: n.attr.mtime,
                    ctimeMs: n.attr.ctime,
                    birthtimeMs: n.attr.birthtime,
                };
                let a = Attr { atime: now, ..self.nodes[i].attr };
                self.patch_attr(i, a);
                Some(st)
            },
            None => None,
        }
    }
}

/// The alias map: target path to its recorded alias paths, in order.
pub open spec fn lmap_of(links: Seq<LinkSet>) -> Map<Seq<char>, Seq<Seq<char>>>
    decreases links.len(),
{
    if links.len() == 0 {
        Map::<Seq<char>, Seq<Seq<char>>>::empty()
    } else {
        lmap_of(links.drop_last()).insert(links.last().target@, links.last().aliases.deep_view())
    }
}

/// No two alias groups share a target.
pub open spec fn unique_targets(links: Seq<LinkSet>) -> bool {
    forall|i: int, j: int| 0 <= i < j < links.len() ==> links[i].target@ != links[j].target@
}

/// A target is in the alias map exactly when some group carries it.
pub proof fn lemma_lmap_contains(links: Seq<LinkSet>, p: Seq<char>)
    ensures
        lmap_of(links).contains_key(p) <==> exists|i: int|
            0 <= i < links.len() && links[i].target@ == p,
    decreases links.len(),
{
    if links.len() > 0 {
        lemma_lmap_contains(links.drop_last(), p);
        if links.last().target@ == p {
            assert(links[links.len() - 1].target@ == p);
        } else if lmap_of(links).contains_key(p) {
            let i = choose|i: int| 0 <= i < links.drop_last().len() && links.drop_last()[i].target@
                == p;
            assert(links[i].target@ == p);
        } else if exists|i: int| 0 <= i < links.len() && links[i].target@ == p {
            let i = choose|i: int| 0 <= i < links.len() && links[i].target@ == p;
            assert(links.drop_last()[i].target@ == p);
        }
    }
}

/// With unique targets, the map gives each stored group's aliases.
pub proof fn lemma_lmap_index(links: Seq<LinkSet>, i: int)
    requires
        unique_targets(links),
        0 <= i < links.len(),
    ensures
        lmap_of(links).contains_key(links[i].target@),
        lmap_of(links)[links[i].target@] == links[i].aliases.deep_view(),
    decreases links.len(),
{
    if i == links.len() - 1 {
    } else {
        lemma_lmap_index(links.drop_last(), i);
        assert(links.drop_last()[i] == links[i]);
        assert(links.last().target@ != links[i].target@);
    }
}

/// Appending a group with a fresh target inserts it into the map.
pub proof fn lemma_lmap_push(links: Seq<LinkSet>, l: LinkSet)
    ensures
        lmap_of(links.push(l)) == lmap_of(links).insert(l.target@, l.aliases.deep_view()),
{
    assert(links.push(l).drop_last() =~= links);
    assert(links.push(l).last() == l);
}

/// Replacing the group at an index, keeping its target, updates the map.
pub proof fn lemma_lmap_update(links: Seq<LinkSet>, i: int, l: LinkSet)
    requires
        unique_targets(links),
        0 <= i < links.len(),
        l.target@ == links[i].target@,
    ensures
        lmap_of(links.update(i, l)) == lmap_of(links).insert(l.target@, l.aliases.deep_view()),
    decreases links.len(),
{
    if i == links.len() - 1 {
        assert(links.update(i, l).drop_last() =~= links.drop_last());
        assert(links.update(i, l).last() == l);
        assert(lmap_of(links.drop_last()).insert(links.last().target@,
            links.last().aliases.deep_view()).insert(l.target@, l.aliases.deep_view())
            =~= lmap_of(links.drop_last()).insert(l.target@, l.aliases.deep_view()));
    } else {
        lemma_lmap_update(links.drop_last(), i, l);
        assert(links.update(i, l).drop_last() =~= links.drop_last().update(i, l));
        assert(links.update(i, l).last() == links.last());
        assert(links.last().target@ != l.target@);
        assert(lmap_of(links.drop_last()).insert(l.target@, l.aliases.deep_view()).insert(
            links.last().target@,
            links.last().aliases.deep_view(),
        ) =~= lmap_of(links.drop_last()).insert(links.last().target@,
            links.last().aliases.deep_view()).insert(l.target@, l.aliases.deep_view()));
    }
}

/// Removing the group at an index removes its target from the map.
pub proof fn lemma_lmap_remove(links: Seq<LinkSet>, i: int)
    requires
        unique_targets(links),
        0 <= i < links.len(),
    ensures
        lmap_of(links.remove(i)) == lmap_of(links).remove(links[i].target@),
    decreases links.len(),
{
    if i == links.len() - 1 {
        assert(links.remove(i) =~= links.drop_last());
        lemma_lmap_contains(links.drop_last(), links.last().target@);
        assert(forall|j: int| 0 <= j < links.drop_last().len() ==> links.drop_last()[j].target@
            != links.last().target@);
        assert(!lmap_of(links.drop_last()).contains_key(links.last().target@));
        assert(lmap_of(links.drop_last()).insert(links.last().target@,
            links.last().aliases.deep_view()).remove(links.last().target@) =~= lmap_of(
            links.drop_last(),
        ));
    } else {
        lemma_lmap_remove(links.drop_last(), i);
        assert(links.remove(i).drop_last() =~= links.drop_last().remove(i));
        assert(links.remove(i).last() == links.last());
        assert(links.drop_last()[i] == links[i]);
        assert(links.last().target@ != links[i].target@);
        assert(lmap_of(links.drop_last()).remove(links[i].target@).insert(
            links.last().target@,
            links.last().aliases.deep_view(),
        ) =~= lmap_of(links.drop_last()).insert(links.last().target@,
            links.last().aliases.deep_view()).remove(links[i].target@));
    }
}

/// True when an id pool is too full to serve another request: every id up
/// to nearly the top of the space is already out.
pub open spec fn id_space_tight(s: Set<usize>) -> bool {
    forall|j: usize| 1 <= j < usize::MAX - 2 ==> s.contains(j)
}

impl Fs {
    /// The ids the descriptor pool has handed out.
    pub closed spec fn fd_ids(self) -> Set<usize> {
        pool_used_ids(self.fd_pool)
    }

    /// The ids the inode pool has handed out.
    pub closed spec fn ino_ids(self) -> Set<usize> {
        pool_used_ids(self.ino_pool)
    }

    /// The recorded hardlink aliases, keyed by target path.
    pub closed spec fn alias_map(self) -> Map<Seq<char>, Seq<Seq<char>>> {
        lmap_of(self.links@)
    }

    /// The child paths of a directory, in storage order.
    pub closed spec fn children_of(self, d: Seq<char>) -> Seq<Seq<char>> {
        child_paths(self.nodes@, d)
    }

    /// A path is among a directory's children exactly when it is live, is
    /// not the root, and has the directory as its parent.
    pub proof fn lemma_children_iff(self, d: Seq<char>, p: Seq<char>)
        ensures
            self.children_of(d).contains(p) <==> (self.tree().contains_key(p) && p != root_path()
                && dirname_spec(p) == d),
    {
        lemma_child_paths_iff(self.nodes@, d, p);
        lemma_nmap_contains(self.nodes@, p);
    }

    /// Replaces the content and attributes of the node at an index, keeping
    /// its inode number and kind.
    fn set_node(&mut self, i: usize, content: Vec<u8>, a: Attr)
        requires
            old(self).wf(),
            i < old(self).nodes@.len(),
            a.ino == old(self).nodes@[i as int].attr.ino,
            (a.link || a.symlink) ==> valid_utf8(content@),
            old(self).nodes@[i as int].kind is Dir ==> content@.len() == 0,
            old(self).nodes@[i as int].path@ == root_path() ==> !a.link && !a.symlink,
        ensures
            final(self).wf(),
            final(self).nodes@.len() == old(self).nodes@.len(),
            final(self).tree() == old(self).tree().insert(
                old(self).nodes@[i as int].path@,
                NodeV { kind: old(self).nodes@[i as int].kind, content: content@, attr: a },
            ),
            final(self).handles@ == old(self).handles@,
            final(self).fds() == old(self).fds(),
            final(self).links@ == old(self).links@,
            final(self).alias_map() == old(self).alias_map(),
            final(self).fd_ids() == old(self).fd_ids(),
            final(self).ino_ids() == old(self).ino_ids(),
    {
        let ghost oldnodes = self.nodes@;
        let path_keep = self.nodes[i].path.clone();
        let kind_keep = self.nodes[i].kind;
        self.nodes[i] = Node { path: path_keep, kind: kind_keep, content, attr: a };
        proof {
            assert(self.nodes@[i as int].path@ == oldnodes[i as int].path@);
            assert(self.nodes@ =~= oldnodes.update(i as int, self.nodes@[i as int]));
            lemma_nmap_update(oldnodes, i as int, self.nodes@[i as int]);
            lemma_nmap_index(oldnodes, i as int);
            lemma_nmap_contains(oldnodes, root_path());
            let rid = choose|j: int| 0 <= j < oldnodes.len() && oldnodes[j].path@ == root_path();
            lemma_nmap_index(self.nodes@, rid);
        }
    }

    /// Creates a node at a fresh path, drawing it a fresh inode number.
    /// `None` exactly when the inode pool is too full to serve.
    fn create_node(&mut self, path: String, kind: NodeKind, content: Vec<u8>, a: Attr) -> (r:
        Option<usize>)
        requires
            old(self).wf(),
            !old(self).tree().contains_key(path@),
            (a.link || a.symlink) ==> valid_utf8(content@),
            kind is Dir ==> content@.len() == 0,
        ensures
            final(self).wf(),
            (match r {
                Some(ino) => {
                    &&& !id_space_tight(old(self).ino_ids())
                    &&& final(self).tree() == old(self).tree().insert(
                        path@,
                        NodeV { kind, content: content@, attr: Attr { ino, ..a } },
                    )
                    &&& !old(self).ino_ids().contains(ino)
                    &&& final(self).ino_ids() == old(self).ino_ids().insert(ino)
                },
                None => {
                    &&& id_space_tight(old(self).ino_ids())
                    &&& final(self).tree() == old(self).tree()
                    &&& final(self).ino_ids() == old(self).ino_ids()
                },
            }),
            final(self).handles@ == old(self).handles@,
            final(self).fds() == old(self).fds(),
            final(self).links@ == old(self).links@,
            final(self).alias_map() == old(self).alias_map(),
            final(self).fd_ids() == old(self).fd_ids(),
    {
        let ino = match pool_request(&mut self.ino_pool) {
            Some(id) => id,
            None => {
                return None;
            },
        };
        if ino >= usize::MAX - 2 {
            pool_return(&mut self.ino_pool, ino);
            proof {
                assert(pool_used_ids(self.ino_pool) =~= old(self).ino_ids());
            }
            return None;
        }
        let ghost oldnodes = self.nodes@;
        let n = Node { path, kind, content, attr: Attr { ino, ..a } };
        proof {
            lemma_nmap_contains(oldnodes, n.path@);
        }
        self.nodes.push(n);
        proof {
            lemma_nmap_push(oldnodes, self.nodes@.last());
            assert(self.nodes@.drop_last() =~= oldnodes);
            lemma_nmap_contains(self.nodes@, root_path());
            lemma_nmap_contains(oldnodes, root_path());
            let rid = choose|j: int| 0 <= j < oldnodes.len() && oldnodes[j].path@ == root_path();
            lemma_nmap_index(self.nodes@, rid);
            assert(forall|j: int| 0 <= j < oldnodes.len() ==> self.nodes@[j] == oldnodes[j]);
        }
        Some(ino)
    }

    /// Removes the node at an index and returns its inode number to the
    /// pool; the root cannot be removed.
    fn remove_node_at(&mut self, i: usize)
        requires
            old(self).wf(),
            i < old(self).nodes@.len(),
            old(self).nodes@[i as int].path@ != root_path(),
        ensures
            final(self).wf(),
            final(self).nodes@.len() == old(self).nodes@.len() - 1,
            final(self).tree() == old(self).tree().remove(old(self).nodes@[i as int].path@),
            final(self).handles@ == old(self).handles@,
            final(self).fds() == old(self).fds(),
            final(self).links@ == old(self).links@,
            final(self).alias_map() == old(self).alias_map(),
            final(self).fd_ids() == old(self).fd_ids(),
            final(self).ino_ids() == old(self).ino_ids().remove(
                old(self).nodes@[i as int].attr.ino,
            ),
    {
        let ghost oldnodes = self.nodes@;
        let n = self.nodes.remove(i);
        pool_return(&mut self.ino_pool, n.attr.ino);
        proof {
            lemma_nmap_remove(oldnodes, i as int);
            lemma_nmap_contains(oldnodes, root_path());
            let rid = choose|j: int| 0 <= j < oldnodes.len() && oldnodes[j].path@ == root_path();
            if rid < i {
                assert(self.nodes@[rid] == oldnodes[rid]);
                lemma_nmap_index(self.nodes@, rid);
            } else {
                assert(self.nodes@[rid - 1] == oldnodes[rid]);
                lemma_nmap_index(self.nodes@, rid - 1);
            }
        }
    }

    /// Records an alias under a target path.
    fn links_add(&mut self, target: &str, alias: String)
        requires
            old(self).wf(),
        ensures
            final(self).wf(),
            final(self).nodes@ == old(self).nodes@,
            final(self).tree() == old(self).tree(),
            final(self).fds() == old(self).fds(),
            final(self).fd_ids() == old(self).fd_ids(),
            final(self).ino_ids() == old(self).ino_ids(),
            final(self).alias_map() == old(self).alias_map().insert(
                target@,
                (if old(self).alias_map().contains_key(target@) {
                    old(self).alias_map()[target@]
                } else {
                    Seq::<Seq<char>>::empty()
                }).push(alias@),
            ),
    {
        let ghost oldlinks = self.links@;
        let ghost av = alias@;
        let n = self.links.len();
        let mut i: usize = 0;
        while i < n
            invariant
                i <= n,
                n == self.links@.len(),
                old(self).wf(),
                self == old(self),
                oldlinks == self.links@,
                av == alias@,
                forall|j: int| 0 <= j < i ==> self.links@[j].target@ != target@,
            decreases n - i,
        {
            if str_eq(self.links[i].target.as_str(), target) {
                let ghost oldal = self.links@[i as int].aliases.deep_view();
                proof {
                    lemma_lmap_index(self.links@, i as int);
                }
                let tgt = self.links[i].target.clone();
                let mut als = self.links[i].aliases.clone();
                proof {
                    assert(als.deep_view() =~~= oldal);
                }
                let ghost dv = als.deep_view();
                let ghost before = als@;
                als.push(alias);
                proof {
                    assert(als@ == before.push(alias));
                    assert forall|j: int| 0 <= j < als@.len() implies als.deep_view()[j] == (
                    dv.push(av))[j] by {
                        assert(als.deep_view()[j] == als@[j].deep_view());
                        if j < before.len() {
                            assert(als@[j] == before[j]);
                            assert(dv.push(av)[j] == dv[j]);
                            assert(dv[j] == before[j].deep_view());
                        } else {
                            assert(als@[j] == alias);
                            assert(dv.push(av)[j] == av);
                        }
                    }
                    assert(als.deep_view() =~= dv.push(av));
                    assert(als.deep_view() =~~= oldal.push(av));
                }
                let replaced = LinkSet { target: tgt, aliases: als };
                self.links[i] = replaced;
                proof {
                    assert(self.links@ =~= oldlinks.update(i as int, self.links@[i as int]));
                    lemma_lmap_update(oldlinks, i as int, self.links@[i as int]);
                }
                return ;
            }
            i += 1;
        }
        proof {
            lemma_lmap_contains(oldlinks, target@);
        }
        let mut aliases: Vec<String> = Vec::new();
        aliases.push(alias);
        let tv = str_chars(target);
        let l = LinkSet { target: chars_to_string(&tv), aliases };
        proof {
            assert(l.aliases.deep_view() =~~= Seq::<Seq<char>>::empty().push(av));
        }
        self.links.push(l);
        proof {
            assert(self.links@.drop_last() =~= oldlinks);
            lemma_lmap_push(oldlinks, self.links@.last());
        }
    }

    /// The recorded aliases of a target, cloned; empty when none are
    /// recorded.
    fn links_get(&self, target: &str) -> (r: Vec<String>)
        requires
            self.wf(),
        ensures
            r.deep_view() == (if self.alias_map().contains_key(target@) {
                self.alias_map()[target@]
            } else {
                Seq::<Seq<char>>::empty()
            }),
    {
        let n = self.links.len();
        let mut i: usize = 0;
        while i < n
            invariant
                i <= n,
                n == self.links@.len(),
                self.wf(),
                forall|j: int| 0 <= j < i ==> self.links@[j].target@ != target@,
            decreases n - i,
        {
            if str_eq(self.links[i].target.as_str(), target) {
                proof {
                    lemma_lmap_index(self.links@, i as int);
                }
                let mut out: Vec<String> = Vec::new();
                let m = self.links[i].aliases.len();
                let mut k: usize = 0;
                while k < m
                    invariant
                        k <= m,
                        i < self.links@.len(),
                        m == self.links@[i as int].aliases@.len(),
                        out.deep_view() =~= self.links@[i as int].aliases.deep_view().subrange(
                            0,
                            k as int,
                        ),
                    decreases m - k,
                {
                    let ghost prev = out.deep_view();
                    out.push(self.links[i].aliases[k].clone());
                    proof {
                        assert(out.deep_view() =~~= prev.push(
                            self.links@[i as int].aliases.deep_view()[k as int],
                        ));
                        assert(self.links@[i as int].aliases.deep_view().subrange(0, k + 1)
                            =~= self.links@[i as int].aliases.deep_view().subrange(0,
                            k as int).push(self.links@[i as int].aliases.deep_view()[k as int]));
                    }
                    k += 1;
                }
                proof {
                    assert(self.links@[i as int].aliases.deep_view().subrange(
                        0,
                        m as int,
                    ) =~= self.links@[i as int].aliases.deep_view());
                }
                return out;
            }
            i += 1;
        }
        proof {
            lemma_lmap_contains(self.links@, target@);
        }
        Vec::new()
    }

    /// Drops the alias group of a target, if one is recorded.
    fn links_remove(&mut self, target: &str)
        requires
            old(self).wf(),
        ensures
            final(self).wf(),
            final(self).nodes@ == old(self).nodes@,
            final(self).tree() == old(self).tree(),
            final(self).fds() == old(self).fds(),
            final(self).fd_ids() == old(self).fd_ids(),
            final(self).ino_ids() == old(self).ino_ids(),
            final(self).alias_map() == old(self).alias_map().remove(target@),
    {
        let ghost oldlinks = self.links@;
        let n = self.links.len();
        let mut i: usize = 0;
        while i < n
            invariant
                i <= n,
                n == self.links@.len(),
                old(self).wf(),
                self == old(self),
                oldlinks == self.links@,
                forall|j: int| 0 <= j < i ==> self.links@[j].target@ != target@,
            decreases n - i,
        {
            if str_eq(self.links[i].target.as_str(), target) {
                proof {
                    lemma_lmap_remove(oldlinks, i as int);
                }
                self.links.remove(i);
                proof {
                    assert(forall|j: int| 0 <= j < i ==> self.links@[j] == oldlinks[j]);
                    assert(forall|j: int| i <= j < self.links@.len() ==> self.links@[j]
                        == oldlinks[j + 1]);
                    assert(unique_targets(self.links@));
                }
                return ;
            }
            i += 1;
        }
        proof {
            lemma_lmap_contains(oldlinks, target@);
            assert(old(self).alias_map().remove(target@) =~= old(self).alias_map());
        }
    }
}

/// Read-only open flag, in storage-engine encoding.
pub const O_RDONLY: u32 = 1;

/// Write-only open flag.
pub const O_WRONLY: u32 = 2;

/// Read-write open flag.
pub const O_RDWR: u32 = 3;

/// Create the file when it is missing.
pub const O_CREAT: u32 = 0x0100;

/// Fail when the file already exists.
pub const O_EXCL: u32 = 0x0200;

/// Truncate the file on open.
pub const O_TRUNC: u32 = 0x0400;

/// Every write goes to the end of the file.
pub const O_APPEND: u32 = 0x0800;

/// The storage flags a textual open mode maps to; anything unknown reads.
pub open spec fn flag_bits(f: Seq<char>) -> u32 {
    if f == "r"@ || f == "rs"@ || f == "sr"@ {
        O_RDONLY
    } else if f == "r+"@ || f == "rs+"@ || f == "sr+"@ {
        O_RDWR
    } else if f == "w"@ {
        O_WRONLY | O_CREAT | O_TRUNC
    } else if f == "wx"@ || f == "xw"@ {
        O_WRONLY | O_CREAT | O_TRUNC | O_EXCL
    } else if f == "w+"@ {
        O_RDWR | O_CREAT | O_TRUNC
    } else if f == "wx+"@ || f == "xw+"@ {
        O_RDWR | O_CREAT | O_TRUNC | O_EXCL
    } else if f == "a"@ {
        O_WRONLY | O_APPEND | O_CREAT
    } else if f == "ax"@ || f == "xa"@ {
        O_WRONLY | O_APPEND | O_CREAT | O_EXCL
    } else if f == "a+"@ {
        O_RDWR | O_APPEND | O_CREAT
    } else if f == "ax+"@ || f == "xa+"@ {
        O_RDWR | O_APPEND | O_CREAT | O_EXCL
    } else {
        O_RDONLY
    }
}

/// The storage flags of an optional textual mode; absent means read.
pub open spec fn spec_open_flags(flags: Option<Seq<char>>) -> u32 {
    match flags {
        Option::Some(f) => flag_bits(f),
        Option::None => O_RDONLY,
    }
}

/// Maps a node-style textual open mode to storage-engine open flags.
pub fn fs_flag_node_to_lfs(flags: Option<&str>) -> (r: u32)
    ensures
        r == (match flags {
            Option::Some(f) => flag_bits(f@),
            Option::None => O_RDONLY,
        }),
{
    let f = match flags {
        Some(f) => f,
        None => {
            return O_RDONLY;
        },
    };
    if str_eq(f, "r") || str_eq(f, "rs") || str_eq(f, "sr") {
        O_RDONLY
    } else if str_eq(f, "r+") || str_eq(f, "rs+") || str_eq(f, "sr+") {
        O_RDWR
    } else if str_eq(f, "w") {
        O_WRONLY | O_CREAT | O_TRUNC
    } else if str_eq(f, "wx") || str_eq(f, "xw") {
        O_WRONLY | O_CREAT | O_TRUNC | O_EXCL
    } else if str_eq(f, "w+") {
        O_RDWR | O_CREAT | O_TRUNC
    } else if str_eq(f, "wx+") || str_eq(f, "xw+") {
        O_RDWR | O_CREAT | O_TRUNC | O_EXCL
    } else if str_eq(f, "a") {
        O_WRONLY | O_APPEND | O_CREAT
    } else if str_eq(f, "ax") || str_eq(f, "xa") {
        O_WRONLY | O_APPEND | O_CREAT | O_EXCL
    } else if str_eq(f, "a+") {
        O_RDWR | O_APPEND | O_CREAT
    } else if str_eq(f, "ax+") || str_eq(f, "xa+") {
        O_RDWR | O_APPEND | O_CREAT | O_EXCL
    } else {
        O_RDONLY
    }
}

/// True when the flags permit writing.
pub open spec fn flag_writable(flags: u32) -> bool {
    flags & 3 != O_RDONLY
}

/// True when the flags permit reading.
pub open spec fn flag_readable(flags: u32) -> bool {
    flags & 3 != O_WRONLY
}

/// When a file open succeeds: the path names a file that is not opened
/// exclusively, or it is missing, creation was asked for, and its parent is
/// a live directory.
pub open spec fn open_file_ok(t: Map<Seq<char>, NodeV>, p: Seq<char>, flags: u32) -> bool {
    let q = canon_spec(p);
    if t.contains_key(q) {
        t[q].kind is File && flags & O_EXCL == 0
    } else {
        &&& flags & O_CREAT != 0
        &&& t.contains_key(dirname_spec(q))
        &&& t[dirname_spec(q)].kind is Dir
    }
}

/// An existing node right after a file open: truncated when asked to write
/// with truncation, and its access time touched.
pub open spec fn opened_node(nv: NodeV, flags: u32, now: u64) -> NodeV {
    NodeV {
        kind: nv.kind,
        content: if flags & O_TRUNC != 0 && flag_writable(flags) {
            Seq::<u8>::empty()
        } else {
            nv.content
        },
        attr: Attr { atime: now, ..nv.attr },
    }
}

/// The attribute record of a file created by open.
pub open spec fn fresh_file_attr(mode: u32, now: u64, ino: usize) -> Attr {
    Attr {
        ino,
        mode: crate::S_IFREG | spec_sanitize_permissions(mode),
        uid: 0,
        gid: 0,
        nlink: 1,
        atime: now,
        mtime: now,
        ctime: now,
        birthtime: now,
        link: false,
        symlink: false,
    }
}

impl Fs {
    /// Index of the handle open at a descriptor, when one is.
    fn find_handle(&self, fd: usize) -> (r: Option<usize>)
        requires
            self.wf(),
        ensures
            match r {
                Some(i) => {
                    &&& i < self.handles@.len()
                    &&& self.handles@[i as int].spec_fd() == fd
                    &&& self.fds().contains_key(fd)
                    &&& self.fds()[fd] == self.handles@[i as int]@
                },
                None => !self.fds().contains_key(fd),
            },
    {
        let n = self.handles.len();
        let mut i: usize = 0;
        while i < n
            invariant
                i <= n,
                self.wf(),
                n == self.handles@.len(),
                forall|j: int| 0 <= j < i ==> self.handles@[j].spec_fd() != fd,
            decreases n - i,
        {
            if self.handles[i].fd() == fd {
                proof {
                    lemma_fdmap_contains(self.handles@, fd);
                    lemma_fdmap_index(self.handles@, i as int);
                }
                return Some(i);
            }
            i += 1;
        }
        proof {
            lemma_fdmap_contains(self.handles@, fd);
        }
        None
    }

    /// Draws a descriptor from the pool; `None` exactly when the pool is
    /// too full to serve.
    fn alloc_fd(&mut self) -> (r: Option<usize>)
        requires
            old(self).wf(),
        ensures
            final(self).wf(),
            final(self).nodes@ == old(self).nodes@,
            final(self).handles@ == old(self).handles@,
            final(self).links@ == old(self).links@,
            final(self).tree() == old(self).tree(),
            final(self).fds() == old(self).fds(),
            final(self).alias_map() == old(self).alias_map(),
            final(self).ino_ids() == old(self).ino_ids(),
            (match r {
                Some(fd) => {
                    &&& fd >= 3
                    &&& !id_space_tight(old(self).fd_ids())
                    &&& !old(self).fd_ids().contains((fd - 2) as usize)
                    &&& !old(self).fds().contains_key(fd)
                    &&& forall|j: usize| 1 <= j < fd - 2 ==> old(self).fd_ids().contains(j)
                    &&& final(self).fd_ids() == old(self).fd_ids().insert((fd - 2) as usize)
                },
                None => {
                    &&& id_space_tight(old(self).fd_ids())
                    &&& final(self).fd_ids() == old(self).fd_ids()
                },
            }),
    {
        let id = match pool_request(&mut self.fd_pool) {
            Some(id) => id,
            None => {
                return None;
            },
        };
        if id >= usize::MAX - 2 {
            pool_return(&mut self.fd_pool, id);
            proof {
                assert(pool_used_ids(self.fd_pool) =~= old(self).fd_ids());
            }
            return None;
        }
        let fd = id + 2;
        proof {
            lemma_fdmap_contains(self.handles@, fd);
            assert(forall|i: int| 0 <= i < self.handles@.len() ==> self.handles@[i].spec_fd()
                != fd);
        }
        Some(fd)
    }

    /// Opens a path as a file, creating it when the flags say so; returns
    /// the new descriptor. `None` when the open cannot succeed or a pool is
    /// too full to serve.
    pub fn open_file_sync(&mut self, path: &str, flags: Option<&str>, mode: Option<u32>, now: u64)
        -> (r: Option<usize>)
        requires
            old(self).wf(),
        ensures
            final(self).wf(),
            final(self).alias_map() == old(self).alias_map(),
            ({
                let t = old(self).tree();
                let q = canon_spec(path@);
                let fb = spec_open_flags(match flags {
                    Option::Some(f) => Option::Some(f@),
                    Option::None => Option::None,
                });
                let m = match mode {
                    Option::Some(m) => m,
                    Option::None => crate::DEFAULT_PERM_FILE,
                };
                match r {
                    Option::Some(fd) => {
                        &&& open_file_ok(t, path@, fb)
                        &&& fd >= 3
                        &&& !old(self).fds().contains_key(fd)
                        &&& !old(self).fd_ids().contains((fd - 2) as usize)
                        &&& forall|j: usize| 1 <= j < fd - 2 ==> old(self).fd_ids().contains(j)
                        &&& final(self).fds() == old(self).fds().insert(
                            fd,
                            HandleV { is_file: true, path: q, pos: 0, flags: fb },
                        )
                        &&& final(self).fd_ids() == old(self).fd_ids().insert((fd - 2) as usize)
                        &&& if t.contains_key(q) {
                            &&& final(self).tree() == t.insert(q, opened_node(t[q], fb, now))
                            &&& final(self).ino_ids() == old(self).ino_ids()
                        } else {
                            &&& final(self).tree() == t.insert(q, final(self).tree()[q])
                            &&& final(self).tree()[q].kind is File
                            &&& final(self).tree()[q].content == Seq::<u8>::empty()
                            &&& final(self).tree()[q].attr == fresh_file_attr(
                                m,
                                now,
                                final(self).tree()[q].attr.ino,
                            )
                            &&& !old(self).ino_ids().contains(final(self).tree()[q].attr.ino)
                            &&& final(self).ino_ids() == old(self).ino_ids().insert(
                                final(self).tree()[q].attr.ino,
                            )
                            &&& forall|k: Seq<char>|
                                t.contains_key(k) ==> final(self).tree()[q].attr.ino
                                    != t[k].attr.ino
                        }
                    },
                    Option::None => {
                        &&& final(self).tree() == t
                        &&& final(self).fds() == old(self).fds()
                        &&& final(self).fd_ids() == old(self).fd_ids()
                        &&& final(self).ino_ids() == old(self).ino_ids()
                        &&& (!open_file_ok(t, path@, fb) || id_space_tight(old(self).fd_ids()) || (
                        !t.contains_key(q) && id_space_tight(old(self).ino_ids())))
                    },
                }
            }),
    {
        let q = path_canon(path);
        let fb = fs_flag_node_to_lfs(flags);
        let m = match mode {
            Some(m) => m,
            None => crate::DEFAULT_PERM_FILE,
        };
        let ghost t = self.tree();
        match self.find_idx(q.as_str()) {
            Some(i) => {
                match self.nodes[i].kind {
                    NodeKind::Dir => {
                        return None;
                    },
                    NodeKind::File => {},
                }
                if fb & O_EXCL != 0 {
                    return None;
                }
                let fd = match self.alloc_fd() {
                    Some(fd) => fd,
                    None => {
                        return None;
                    },
                };
                let a = Attr { atime: now, ..self.nodes[i].attr };
                if fb & O_TRUNC != 0 && fb & 3 != O_RDONLY {
                    self.set_node(i, Vec::new(), a);
                } else {
                    self.patch_attr(i, a);
                }
                let ghost before = self.handles@;
                self.handles.push(Handle::File(FileHandle { fd, path: q, pos: 0, flags: fb }));
                proof {
                    lemma_fdmap_push(before, self.handles@.last());
                    lemma_fdmap_contains(before, fd);
                    assert(forall|j: int| 0 <= j < before.len() ==> self.handles@[j] == before[j]);
                }
                Some(fd)
            },
            None => {
                if fb & O_CREAT == 0 {
                    return None;
                }
                let parent = path_dirname(q.as_str());
                let pok = match self.find_idx(parent.as_str()) {
                    Some(pi) => match self.nodes[pi].kind {
                        NodeKind::Dir => true,
                        NodeKind::File => false,
                    },
                    None => false,
                };
                if !pok {
                    return None;
                }
                let fd = match self.alloc_fd() {
                    Some(fd) => fd,
                    None => {
                        return None;
                    },
                };
                let a = fresh_attr_perm(m, now);
                let qc = q.clone();
                let ino = match self.create_node(qc, NodeKind::File, Vec::new(), a) {
                    Some(ino) => ino,
                    None => {
                        pool_return(&mut self.fd_pool, fd - 2);
                        proof {
                            assert(pool_used_ids(self.fd_pool) =~= old(self).fd_ids());
                        }
                        return None;
                    },
                };
                let ghost before = self.handles@;
                self.handles.push(Handle::File(FileHandle { fd, path: q, pos: 0, flags: fb }));
                proof {
                    lemma_fdmap_push(before, self.handles@.last());
                    lemma_fdmap_contains(before, fd);
                    assert(forall|j: int| 0 <= j < before.len() ==> self.handles@[j] == before[j]);
                    assert(final(self).tree()[canon_spec(path@)].attr == Attr { ino, ..a });
                    assert forall|k: Seq<char>| old(self).tree().contains_key(k) implies ino != old(
                        self,
                    ).tree()[k].attr.ino by {
                        lemma_nmap_contains(old(self).nodes@, k);
                        let j = choose|j: int| 0 <= j < old(self).nodes@.len() && old(
                            self,
                        ).nodes@[j].path@ == k;
                        lemma_nmap_index(old(self).nodes@, j);
                    }
                }
                Some(fd)
            },
        }
    }

    /// Opens a path as a directory and returns the new descriptor; `None`
    /// when the path is not a live directory or the pool is too full.
    pub fn open_dir_sync(&mut self, path: &str, now: u64) -> (r: Option<usize>)
        requires
            old(self).wf(),
        ensures
            final(self).wf(),
            final(self).alias_map() == old(self).alias_map(),
            final(self).ino_ids() == old(self).ino_ids(),
            ({
                let t = old(self).tree();
                let q = canon_spec(path@);
                match r {
                    Option::Some(fd) => {
                        &&& is_dir_spec(t, path@)
                        &&& fd >= 3
                        &&& !old(self).fds().contains_key(fd)
                        &&& !old(self).fd_ids().contains((fd - 2) as usize)
                        &&& forall|j: usize| 1 <= j < fd - 2 ==> old(self).fd_ids().contains(j)
                        &&& final(self).fds() == old(self).fds().insert(
                            fd,
                            HandleV { is_file: false, path: q, pos: 0, flags: 0 },
                        )
                        &&& final(self).fd_ids() == old(self).fd_ids().insert((fd - 2) as usize)
                        &&& final(self).tree() == t.insert(q, with_atime(t[q], now))
                    },
                    Option::None => {
                        &&& final(self).tree() == t
                        &&& final(self).fds() == old(self).fds()
                        &&& final(self).fd_ids() == old(self).fd_ids()
                        &&& (!is_dir_spec(t, path@) || id_space_tight(old(self).fd_ids()))
                    },
                }
            }),
    {
        let q = path_canon(path);
        match self.find_idx(q.as_str()) {
            Some(i) => {
                match self.nodes[i].kind {
                    NodeKind::File => {
                        return None;
                    },
                    NodeKind::Dir => {},
                }
                let fd = match self.alloc_fd() {
                    Some(fd) => fd,
                    None => {
                        return None;
                    },
                };
                let a = Attr { atime: now, ..self.nodes[i].attr };
                self.patch_attr(i, a);
                let ghost before = self.handles@;
                self.handles.push(Handle::Dir(DirHandle { fd, path: q, pos: 0 }));
                proof {
                    lemma_fdmap_push(before, self.handles@.last());
                    lemma_fdmap_contains(before, fd);
                    assert(forall|j: int| 0 <= j < before.len() ==> self.handles@[j] == before[j]);
                }
                Some(fd)
            },
            None => None,
        }
    }

    /// Opens a path: as a directory when it names one, else as a file.
    pub fn open_sync(&mut self, path: &str, flags: Option<&str>, mode: Option<u32>, now: u64) -> (r:
        Option<usize>)
        requires
            old(self).wf(),
        ensures
            final(self).wf(),
            final(self).alias_map() == old(self).alias_map(),
            ({
                let t = old(self).tree();
                let q = canon_spec(path@);
                let fb = spec_open_flags(match flags {
                    Option::Some(f) => Option::Some(f@),
                    Option::None => Option::None,
                });
                if is_dir_spec(t, path@) {
                    match r {
                        Option::Some(fd) => {
                            &&& fd >= 3
                            &&& !old(self).fds().contains_key(fd)
                            &&& final(self).fds() == old(self).fds().insert(
                                fd,
                                HandleV { is_file: false, path: q, pos: 0, flags: 0 },
                            )
                            &&& final(self).tree() == t.insert(q, with_atime(t[q], now))
                        },
                        Option::None => {
                            &&& final(self).tree() == t
                            &&& final(self).fds() == old(self).fds()
                            &&& id_space_tight(old(self).fd_ids())
                        },
                    }
                } else {
                    match r {
                        Option::Some(fd) => {
                            &&& open_file_ok(t, path@, fb)
                            &&& fd >= 3
                            &&& !old(self).fds().contains_key(fd)
                            &&& final(self).fds() == old(self).fds().insert(
                                fd,
                                HandleV { is_file: true, path: q, pos: 0, flags: fb },
                            )
                            &&& if t.contains_key(q) {
                                final(self).tree() == t.insert(q, opened_node(t[q], fb, now))
                            } else {
                                &&& final(self).tree() == t.insert(q, final(self).tree()[q])
                                &&& final(self).tree()[q].kind is File
                                &&& final(self).tree()[q].content == Seq::<u8>::empty()
                            }
                        },
                        Option::None => {
                            &&& final(self).tree() == t
                            &&& final(self).fds() == old(self).fds()
                            &&& (!open_file_ok(t, path@, fb) || id_space_tight(old(self).fd_ids())
                                || (!t.contains_key(q) && id_space_tight(old(self).ino_ids())))
                        },
                    }
                }
            }),
    {
        if self.is_directory(path) {
            self.open_dir_sync(path, now)
        } else {
            self.open_file_sync(path, flags, mode, now)
        }
    }

    /// Closes a descriptor, making it reusable; `None` when it is not open.
    pub fn close_sync(&mut self, fd: usize) -> (r: Option<()>)
        requires
            old(self).wf(),
        ensures
            final(self).wf(),
            final(self).tree() == old(self).tree(),
            final(self).alias_map() == old(self).alias_map(),
            final(self).ino_ids() == old(self).ino_ids(),
            (match r {
                Option::Some(u) => {
                    &&& old(self).fds().contains_key(fd)
                    &&& final(self).fds() == old(self).fds().remove(fd)
                    &&& final(self).fd_ids() == old(self).fd_ids().remove((fd - 2) as usize)
                },
                Option::None => {
                    &&& !old(self).fds().contains_key(fd)
                    &&& final(self).fds() == old(self).fds()
                    &&& final(self).fd_ids() == old(self).fd_ids()
                },
            }),
    {
        let i = match self.find_handle(fd) {
            Some(i) => i,
            None => {
                return None;
            },
        };
        let ghost before = self.handles@;
        let h = self.handles.remove(i);
        let hfd = h.fd();
        pool_return(&mut self.fd_pool, hfd - 2);
        proof {
            lemma_fdmap_remove(before, i as int);
            assert(forall|j: int| 0 <= j < i ==> self.handles@[j] == before[j]);
            assert(forall|j: int| i <= j < self.handles@.len() ==> self.handles@[j] == before[j
                + 1]);
            assert(unique_fds(self.handles@));
            assert forall|j: int| 0 <= j < self.handles@.len() implies self.handles@[j].spec_fd()
                >= 3 && pool_used_ids(self.fd_pool).contains(
                (self.handles@[j].spec_fd() - 2) as usize,
            ) by {
                if j < i {
                    assert(before[j].spec_fd() != before[i as int].spec_fd());
                } else {
                    assert(before[j + 1].spec_fd() != before[i as int].spec_fd());
                }
            }
        }
        Some(())
    }
}

/// A sequence of zero bytes.
pub open spec fn zero_bytes(n: nat) -> Seq<u8> {
    Seq::new(n, |i: int| 0u8)
}

/// Content padded with zeros up to at least the given length.
pub open spec fn pad_to(content: Seq<u8>, n: nat) -> Seq<u8> {
    if content.len() >= n {
        content
    } else {
        content + zero_bytes((n - content.len()) as nat)
    }
}

/// Content after writing `data` at `start`, zero-filling any gap.
pub open spec fn write_at(content: Seq<u8>, start: nat, data: Seq<u8>) -> Seq<u8> {
    let p = pad_to(content, start + data.len());
    p.take(start as int) + data + p.skip((start + data.len()) as int)
}

/// Content after a truncation to exactly `n` bytes, zero-extending.
pub open spec fn resize_to(content: Seq<u8>, n: nat) -> Seq<u8> {
    pad_to(content, n).take(n as int)
}

/// The bytes a read at `start` of at most `len` bytes yields.
pub open spec fn read_slice(content: Seq<u8>, start: nat, len: nat) -> Seq<u8> {
    if start >= content.len() {
        Seq::<u8>::empty()
    } else if start + len <= content.len() {
        content.subrange(start as int, (start + len) as int)
    } else {
        content.subrange(start as int, content.len() as int)
    }
}

/// The buffer offset an I/O call uses; absent means zero.
pub open spec fn off_of(o: Option<usize>) -> nat {
    match o {
        Option::Some(v) => v as nat,
        Option::None => 0,
    }
}

/// The byte count an I/O call uses; absent means the rest of the buffer.
pub open spec fn len_of(o: Option<usize>, buflen: nat, off: nat) -> nat {
    match o {
        Option::Some(v) => v as nat,
        Option::None => (buflen - off) as nat,
    }
}

/// True when a position argument asks for an absolute, cursor-preserving
/// transfer.
pub open spec fn seek_mode(position: Option<i32>) -> bool {
    position is Some && position.unwrap() >= 0
}

/// The buffer arguments of a transfer are in range: the offset and count
/// fit the buffer, and a position is at least -1.
pub open spec fn io_args_ok(buflen: nat, offset: Option<usize>, length: Option<usize>, position: Option<i32>) -> bool {
    let off = off_of(offset);
    &&& off <= buflen
    &&& len_of(length, buflen, off) <= buflen - off
    &&& (position is Some ==> position.unwrap() >= -1)
}

/// Where a read starts: the absolute position when one is given, else the
/// handle's cursor.
pub open spec fn read_start(h: HandleV, position: Option<i32>) -> nat {
    if seek_mode(position) {
        position.unwrap() as nat
    } else {
        h.pos
    }
}

/// Where a write starts: the end of the file under append, else like a
/// read.
pub open spec fn write_start(h: HandleV, position: Option<i32>, content: Seq<u8>) -> nat {
    if h.flags & O_APPEND != 0 {
        content.len()
    } else if seek_mode(position) {
        position.unwrap() as nat
    } else {
        h.pos
    }
}

/// A node value with new content and a touched modification time.
pub open spec fn with_content_mtime(nv: NodeV, content: Seq<u8>, now: u64) -> NodeV {
    NodeV { kind: nv.kind, content, attr: Attr { mtime: now, ..nv.attr } }
}

/// The type bits a node's mode carries: directory, symlink or regular.
pub open spec fn type_bits(nv: NodeV) -> u32 {
    if nv.kind is Dir {
        crate::S_IFDIR
    } else if nv.attr.symlink {
        crate::S_IFLNK
    } else {
        crate::S_IFREG
    }
}

/// A node value after a permission change: type bits kept, permissions
/// replaced, change time touched.
pub open spec fn chmod_node(nv: NodeV, perm: u32, now: u64) -> NodeV {
    with_attr(
        nv,
        Attr { mode: type_bits(nv) | spec_sanitize_permissions(perm), ctime: now, ..nv.attr },
    )
}

/// A node value after an ownership change, change time touched.
pub open spec fn chown_node(nv: NodeV, uid: u32, gid: u32, now: u64) -> NodeV {
    with_attr(nv, Attr { uid, gid, ctime: now, ..nv.attr })
}

/// A node value with both file times replaced.
pub open spec fn utimes_node(nv: NodeV, atime_ms: u64, mtime_ms: u64) -> NodeV {
    with_attr(nv, Attr { atime: atime_ms, mtime: mtime_ms, ..nv.attr })
}

/// Seconds scaled to milliseconds, saturating at the top of the range.
pub open spec fn sec_to_ms(s: u64) -> u64 {
    if s > u64::MAX / 1000 {
        u64::MAX
    } else {
        (s * 1000) as u64
    }
}

impl Fs {
    /// Replaces the cursor of the file handle at an index.
    fn set_handle_pos(&mut self, i: usize, pos: usize)
        requires
            old(self).wf(),
            i < old(self).handles@.len(),
            old(self).handles@[i as int] is File,
        ensures
            final(self).wf(),
            final(self).nodes@ == old(self).nodes@,
            final(self).tree() == old(self).tree(),
            final(self).links@ == old(self).links@,
            final(self).alias_map() == old(self).alias_map(),
            final(self).fd_ids() == old(self).fd_ids(),
            final(self).ino_ids() == old(self).ino_ids(),
            final(self).fds() == old(self).fds().insert(
                old(self).handles@[i as int].spec_fd(),
                HandleV { pos: pos as nat, ..old(self).handles@[i as int]@ },
            ),
    {
        let ghost before = self.handles@;
        let (fd, path, flags) = match &self.handles[i] {
            Handle::File(f) => (f.fd, f.path.clone(), f.flags),
            Handle::Dir(d) => {
                proof {
                    assert(false);
                }
                (d.fd, d.path.clone(), 0)
            },
        };
        self.handles[i] = Handle::File(FileHandle { fd, path, pos, flags });
        proof {
            assert(self.handles@ =~= before.update(i as int, self.handles@[i as int]));
            lemma_fdmap_update(before, i as int, self.handles@[i as int]);
            assert(final(self).fds()[old(self).handles@[i as int].spec_fd()] == HandleV {
                pos: pos as nat,
                ..old(self).handles@[i as int]@
            });
        }
    }

    /// Moves the cursor of an open file: from the start, the current
    /// position or the end, returning the new position. `None` when the
    /// descriptor is no open file, the whence is unknown, or the result
    /// would fall outside the representable range.
    pub fn lseek_sync(&mut self, fd: usize, offset: i32, whence: i32) -> (r: Option<i32>)
        requires
            old(self).wf(),
        ensures
            final(self).wf(),
            final(self).tree() == old(self).tree(),
            final(self).alias_map() == old(self).alias_map(),
            final(self).fd_ids() == old(self).fd_ids(),
            final(self).ino_ids() == old(self).ino_ids(),
            (match r {
                Option::Some(np) => {
                    let h = old(self).fds()[fd];
                    let base: int = (if whence == 0 {
                        0
                    } else if whence == 1 {
                        h.pos as int
                    } else {
                        old(self).tree()[h.path].content.len() as int
                    });
                    &&& old(self).fds().contains_key(fd)
                    &&& h.is_file
                    &&& (whence == 0 || whence == 1 || whence == 2)
                    &&& (whence == 2 ==> old(self).tree().contains_key(h.path))
                    &&& np == base + offset
                    &&& 0 <= np <= i32::MAX
                    &&& final(self).fds() == old(self).fds().insert(
                        fd,
                        HandleV { pos: np as nat, ..h },
                    )
                },
                Option::None => {
                    let h = old(self).fds()[fd];
                    let base: int = (if whence == 0 {
                        0
                    } else if whence == 1 {
                        h.pos as int
                    } else {
                        old(self).tree()[h.path].content.len() as int
                    });
                    &&& final(self).fds() == old(self).fds()
                    &&& !(old(self).fds().contains_key(fd) && h.is_file && (whence == 0 || whence
                        == 1 || whence == 2) && (whence != 2 || old(self).tree().contains_key(
                        h.path,
                    )) && base <= i32::MAX && 0 <= base + offset <= i32::MAX)
                },
            }),
    {
        if whence != 0 && whence != 1 && whence != 2 {
            return None;
        }
        let i = match self.find_handle(fd) {
            Some(i) => i,
            None => {
                return None;
            },
        };
        let (pos, path) = match &self.handles[i] {
            Handle::File(f) => (f.pos, f.path.clone()),
            Handle::Dir(_) => {
                return None;
            },
        };
        let base: usize = if whence == 0 {
            0
        } else if whence == 1 {
            pos
        } else {
            match self.find_idx(path.as_str()) {
                Some(j) => self.nodes[j].content.len(),
                None => {
                    return None;
                },
            }
        };
        let off_wide: i64 = offset as i64;
        let base_wide: i64 = if base > i32::MAX as usize {
            return None;
        } else {
            base as i64
        };
        let np: i64 = base_wide + off_wide;
        if np < 0 || np > i32::MAX as i64 {
            return None;
        }
        self.set_handle_pos(i, np as usize);
        Some(np as i32)
    }

    /// Reads from an open file into `buf[offset .. offset+length]`: from
    /// the given absolute position (cursor preserved), or from the cursor,
    /// which then advances. Returns the byte count, 0 at end of file, and
    /// touches the access time. `None` when the descriptor is no readable
    /// open file, the node is gone, or the buffer arguments do not fit.
    #[verifier::rlimit(100)]
    pub fn read_sync(&mut self, fd: usize, buf: &mut Vec<u8>, offset: Option<usize>, length: Option<
        usize,
    >, position: Option<i32>, now: u64) -> (r: Option<usize>)
        requires
            old(self).wf(),
        ensures
            final(self).wf(),
            final(self).alias_map() == old(self).alias_map(),
            final(self).fd_ids() == old(self).fd_ids(),
            final(self).ino_ids() == old(self).ino_ids(),
            ({
                let t = old(self).tree();
                let h = old(self).fds()[fd];
                let start = read_start(h, position);
                let data = read_slice(
                    t[h.path].content,
                    start,
                    len_of(length, old(buf)@.len(), off_of(offset)),
                );
                match r {
                    Option::Some(n) => {
                        &&& old(self).fds().contains_key(fd)
                        &&& h.is_file
                        &&& flag_readable(h.flags)
                        &&& io_args_ok(old(buf)@.len(), offset, length, position)
                        &&& t.contains_key(h.path)
                        &&& n == data.len()
                        &&& final(buf)@ == write_at(old(buf)@, off_of(offset), data)
                        &&& final(self).tree() == t.insert(h.path, with_atime(t[h.path], now))
                        &&& final(self).fds() == old(self).fds().insert(
                            fd,
                            HandleV {
                                pos: if seek_mode(position) {
                                    h.pos
                                } else {
                                    (start + n) as nat
                                },
                                ..h
                            },
                        )
                    },
                    Option::None => {
                        &&& final(self).tree() == t
                        &&& final(self).fds() == old(self).fds()
                        &&& final(buf)@ == old(buf)@
                        &&& !(old(self).fds().contains_key(fd) && h.is_file && flag_readable(
                            h.flags,
                        ) && io_args_ok(old(buf)@.len(), offset, length, position)
                            && t.contains_key(h.path))
                    },
                }
            }),
    {
        let i = match self.find_handle(fd) {
            Some(i) => i,
            None => {
                return None;
            },
        };
        let (pos, path, flags) = match &self.handles[i] {
            Handle::File(f) => (f.pos, f.path.clone(), f.flags),
            Handle::Dir(_) => {
                return None;
            },
        };
        if flags & 3 == O_WRONLY {
            return None;
        }
        let off: usize = match offset {
            Some(v) => v,
            None => 0,
        };
        if off > buf.len() {
            return None;
        }
        let len_eff: usize = match length {
            Some(v) => v,
            None => buf.len() - off,
        };
        if len_eff > buf.len() - off {
            return None;
        }
        match position {
            Some(p) if p < -1 => {
                return None;
            },
            _ => {},
        }
        let j = match self.find_idx(path.as_str()) {
            Some(j) => j,
            None => {
                return None;
            },
        };
        let absolute = match position {
            Some(p) => p >= 0,
            None => false,
        };
        let start: usize = match position {
            Some(p) => if p >= 0 {
                p as usize
            } else {
                pos
            },
            None => pos,
        };
        let size = self.nodes[j].content.len();
        let n: usize = if start >= size {
            0
        } else {
            let avail = size - start;
            if len_eff <= avail {
                len_eff
            } else {
                avail
            }
        };
        let ghost data = read_slice(self.nodes@[j as int].content@, start as nat, len_eff as nat);
        proof {
            assert(data =~= self.nodes@[j as int].content@.subrange(
                start as int,
                (start + n) as int,
            ) || n == 0);
            if n == 0 {
                assert(data =~= Seq::<u8>::empty());
            }
        }
        if n > 0 {
            copy_into(buf, off, &self.nodes[j].content, start, n);
        } else {
            proof {
                assert(data =~= Seq::<u8>::empty());
                assert(pad_to(buf@, (off + 0) as nat) == buf@);
                assert(write_at(buf@, off as nat, data) =~= buf@);
            }
        }
        let a = Attr { atime: now, ..self.nodes[j].attr };
        self.patch_attr(j, a);
        if !absolute {
            self.set_handle_pos(i, start + n);
        } else {
            proof {
                assert(final(self).fds() =~= old(self).fds().insert(
                    fd,
                    HandleV { pos: old(self).fds()[fd].pos, ..old(self).fds()[fd] },
                ));
            }
        }
        Some(n)
    }

    /// Writes `buf[offset .. offset+length]` into an open file: at the end
    /// under append, at the given absolute position (cursor preserved), or
    /// at the cursor, which then advances. Gaps fill with zeros; the
    /// modification time is touched. `None` when the descriptor is no
    /// writable open file, the node is gone, the buffer arguments do not
    /// fit, or the write would not fit in memory.
    #[verifier::rlimit(100)]
    pub fn write_sync(&mut self, fd: usize, buf: &Vec<u8>, offset: Option<usize>, length: Option<
        usize,
    >, position: Option<i32>, now: u64) -> (r: Option<usize>)
        requires
            old(self).wf(),
        ensures
            final(self).wf(),
            final(self).alias_map() == old(self).alias_map(),
            final(self).fd_ids() == old(self).fd_ids(),
            final(self).ino_ids() == old(self).ino_ids(),
            ({
                let t = old(self).tree();
                let h = old(self).fds()[fd];
                let start = write_start(h, position, t[h.path].content);
                let data = buf@.subrange(
                    off_of(offset) as int,
                    (off_of(offset) + len_of(length, buf@.len(), off_of(offset))) as int,
                );
                match r {
                    Option::Some(n) => {
                        &&& old(self).fds().contains_key(fd)
                        &&& h.is_file
                        &&& flag_writable(h.flags)
                        &&& io_args_ok(buf@.len(), offset, length, position)
                        &&& t.contains_key(h.path)
                        &&& t[h.path].kind is File
                        &&& !t[h.path].attr.link && !t[h.path].attr.symlink
                        &&& n == data.len()
                        &&& final(self).tree() == t.insert(
                            h.path,
                            with_content_mtime(
                                t[h.path],
                                write_at(t[h.path].content, start, data),
                                now,
                            ),
                        )
                        &&& final(self).fds() == old(self).fds().insert(
                            fd,
                            HandleV {
                                pos: if seek_mode(position) && h.flags & O_APPEND == 0 {
                                    h.pos
                                } else {
                                    (start + n) as nat
                                },
                                ..h
                            },
                        )
                    },
                    Option::None => {
                        &&& final(self).tree() == t
                        &&& final(self).fds() == old(self).fds()
                        &&& (!(old(self).fds().contains_key(fd) && h.is_file && flag_writable(
                            h.flags,
                        ) && io_args_ok(buf@.len(), offset, length, position)
                            && t.contains_key(h.path) && t[h.path].kind is File
                            && !t[h.path].attr.link && !t[h.path].attr.symlink) || start
                            + data.len() > usize::MAX)
                    },
                }
            }),
    {
        let i = match self.find_handle(fd) {
            Some(i) => i,
            None => {
                return None;
            },
        };
        let (pos, path, flags) = match &self.handles[i] {
            Handle::File(f) => (f.pos, f.path.clone(), f.flags),
            Handle::Dir(_) => {
                return None;
            },
        };
        if flags & 3 == O_RDONLY {
            return None;
        }
        let off: usize = match offset {
            Some(v) => v,
            None => 0,
        };
        if off > buf.len() {
            return None;
        }
        let len_eff: usize = match length {
            Some(v) => v,
            None => buf.len() - off,
        };
        if len_eff > buf.len() - off {
            return None;
        }
        match position {
            Some(p) if p < -1 => {
                return None;
            },
            _ => {},
        }
        let j = match self.find_idx(path.as_str()) {
            Some(j) => j,
            None => {
                return None;
            },
        };
        match self.nodes[j].kind {
            NodeKind::Dir => {
                return None;
            },
            NodeKind::File => {},
        }
        if self.nodes[j].attr.link || self.nodes[j].attr.symlink {
            return None;
        }
        let size = self.nodes[j].content.len();
        let absolute = match position {
            Some(p) => p >= 0,
            None => false,
        };
        let start: usize = if flags & O_APPEND != 0 {
            size
        } else {
            match position {
                Some(p) => if p >= 0 {
                    p as usize
                } else {
                    pos
                },
                None => pos,
            }
        };
        if start > usize::MAX - len_eff {
            return None;
        }
        let c = spliced_content(&self.nodes[j].content, start, buf, off, len_eff);
        let a = Attr { mtime: now, ..self.nodes[j].attr };
        self.set_node(j, c, a);
        if !(absolute && flags & O_APPEND == 0) {
            self.set_handle_pos(i, start + len_eff);
        } else {
            proof {
                assert(final(self).fds() =~= old(self).fds().insert(
                    fd,
                    HandleV { pos: old(self).fds()[fd].pos, ..old(self).fds()[fd] },
                ));
            }
        }
        Some(len_eff)
    }
}

/// Copies `src[start .. start+n]` into `buf[off .. off+n]`.
fn copy_into(buf: &mut Vec<u8>, off: usize, src: &Vec<u8>, start: usize, n: usize)
    requires
        off + n <= old(buf)@.len(),
        start + n <= src@.len(),
        off + n <= usize::MAX,
        start + n <= usize::MAX,
    ensures
        final(buf)@ == write_at(
            old(buf)@,
            off as nat,
            src@.subrange(start as int, (start + n) as int),
        ),
{
    let ghost buf0 = buf@;
    let ghost data = src@.subrange(start as int, (start + n) as int);
    let mut k: usize = 0;
    while k < n
        invariant
            k <= n,
            off + n <= buf0.len(),
            start + n <= src@.len(),
            off + n <= usize::MAX,
            start + n <= usize::MAX,
            buf@.len() == buf0.len(),
            data == src@.subrange(start as int, (start + n) as int),
            forall|m: int| 0 <= m < off ==> buf@[m] == buf0[m],
            forall|m: int| 0 <= m < k ==> buf@[off + m] == data[m],
            forall|m: int| off + k <= m < buf@.len() ==> buf@[m] == buf0[m],
        decreases n - k,
    {
        let b = src[start + k];
        buf[off + k] = b;
        k += 1;
    }
    proof {
        let w = write_at(buf0, off as nat, data);
        assert(pad_to(buf0, (off + n) as nat) == buf0);
        assert(w.len() == buf0.len());
        assert(forall|m: int| 0 <= m < off ==> w[m] == buf0[m]);
        assert(forall|m: int| 0 <= m < n ==> w[off + m] == data[m]);
        assert(forall|m: int| off + n <= m < buf0.len() ==> w[m] == buf0[m]);
        assert(buf@ =~= w);
    }
}

/// Builds the content that writing `data_src[off .. off+n]` at `start`
/// leaves behind, zero-filling any gap before `start`.
fn spliced_content(content: &Vec<u8>, start: usize, data_src: &Vec<u8>, off: usize, n: usize) -> (c:
    Vec<u8>)
    requires
        off + n <= data_src@.len(),
        off + n <= usize::MAX,
        start + n <= usize::MAX,
    ensures
        c@ == write_at(content@, start as nat, data_src@.subrange(off as int, (off + n) as int)),
{
    let ghost data = data_src@.subrange(off as int, (off + n) as int);
    let mut c: Vec<u8> = Vec::new();
    let pre: usize = if start < content.len() {
        start
    } else {
        content.len()
    };
    let mut k: usize = 0;
    while k < pre
        invariant
            k <= pre,
            pre <= content@.len(),
            c@ == content@.subrange(0, k as int),
        decreases pre - k,
    {
        proof {
            assert(content@.subrange(0, k + 1) =~= content@.subrange(0, k as int).push(
                content@[k as int],
            ));
        }
        c.push(content[k]);
        k += 1;
    }
    while c.len() < start
        invariant
            pre <= c@.len(),
            c@.len() <= start || (pre == start && c@.len() == pre),
            c@.subrange(0, pre as int) == content@.subrange(0, pre as int),
            forall|m: int| pre <= m < c@.len() ==> c@[m] == 0u8,
        decreases start - c@.len(),
    {
        c.push(0u8);
    }
    let mut k2: usize = 0;
    while k2 < n
        invariant
            k2 <= n,
            off + n <= data_src@.len(),
            off + n <= usize::MAX,
            c@.len() == start + k2,
            data == data_src@.subrange(off as int, (off + n) as int),
            c@.subrange(0, pre as int) == content@.subrange(0, pre as int),
            pre <= start,
            pre == (if start < content@.len() {
                start as int
            } else {
                content@.len() as int
            }),
            forall|m: int| pre <= m < start ==> c@[m] == 0u8,
            forall|m: int| 0 <= m < k2 ==> c@[start + m] == data[m],
        decreases n - k2,
    {
        c.push(data_src[off + k2]);
        k2 += 1;
    }
    let mut t: usize = if start + n < content.len() {
        start + n
    } else {
        content.len()
    };
    let ghost tail0 = t as int;
    while t < content.len()
        invariant
            tail0 <= t as int <= content@.len() || t as int == tail0,
            c@.len() == start + n + (t - tail0),
            c@.subrange(0, pre as int) == content@.subrange(0, pre as int),
            pre <= start,
            pre == (if start < content@.len() {
                start as int
            } else {
                content@.len() as int
            }),
            tail0 == (if start + n < content@.len() {
                start + n
            } else {
                content@.len() as int
            }),
            forall|m: int| pre <= m < start ==> c@[m] == 0u8,
            forall|m: int| 0 <= m < n ==> c@[start + m] == data[m],
            data.len() == n,
            forall|m: int| start + n <= m < c@.len() ==> c@[m] == content@[tail0 + (m - start
                - n)],
        decreases content@.len() - t,
    {
        c.push(content[t]);
        t += 1;
    }
    proof {
        let w = write_at(content@, start as nat, data);
        let p = pad_to(content@, (start + n) as nat);
        assert(w.len() == (if content@.len() >= start + n {
            content@.len() as int
        } else {
            start + n
        }));
        assert(c@.len() == w.len());
        assert forall|m: int| 0 <= m < c@.len() implies c@[m] == w[m] by {
            if m < pre {
                assert(c@.subrange(0, pre as int)[m] == content@.subrange(0, pre as int)[m]);
                assert(c@[m] == content@[m]);
                assert(w[m] == p.take(start as int)[m]);
            } else if m < start {
                assert(w[m] == p.take(start as int)[m]);
                assert(p[m] == 0u8);
            } else if m < start + n {
                assert(w[m] == data[m - start]);
            } else {
                assert(w[m] == p.skip((start + n) as int)[m - start - n]);
                assert(p[m] == content@[m]);
                assert(c@[m] == content@[tail0 + (m - start - n)]);
                assert(tail0 == start + n);
            }
        }
        assert(c@ =~= w);
    }
    c
}

impl Fs {
    /// Changes a path's permission bits, following links; the type bits are
    /// kept and the change time touched. `None` exactly when the path does
    /// not exist.
    pub fn chmod_sync(&mut self, path: &str, perm: u32, now: u64) -> (r: Option<()>)
        requires
            old(self).wf(),
        ensures
            final(self).wf(),
            r is Some <==> exists_spec(old(self).tree(), path@),
            final(self).fds() == old(self).fds(),
            final(self).alias_map() == old(self).alias_map(),
            final(self).fd_ids() == old(self).fd_ids(),
            final(self).ino_ids() == old(self).ino_ids(),
            (match r {
                Option::Some(u) => {
                    let q = resolve_full_spec(old(self).tree(), path@, MAX_HOPS as nat).unwrap();
                    final(self).tree() == old(self).tree().insert(
                        q,
                        chmod_node(old(self).tree()[q], perm, now),
                    )
                },
                Option::None => final(self).tree() == old(self).tree(),
            }),
    {
        let p = match self.realpath_sync(path, None) {
            Some(p) => p,
            None => {
                return None;
            },
        };
        match self.find_idx(p.as_str()) {
            Some(i) => {
                let tb: u32 = match self.nodes[i].kind {
                    NodeKind::Dir => crate::S_IFDIR,
                    NodeKind::File => if self.nodes[i].attr.symlink {
                        crate::S_IFLNK
                    } else {
                        crate::S_IFREG
                    },
                };
                let a = Attr {
                    mode: tb | sanitize_permissions(perm),
                    ctime: now,
                    ..self.nodes[i].attr
                };
                self.patch_attr(i, a);
                Some(())
            },
            None => None,
        }
    }

    /// Changes a path's owner and group, following links; the change time
    /// is touched. `None` exactly when the path does not exist.
    pub fn chown_sync(&mut self, path: &str, uid: u32, gid: u32, now: u64) -> (r: Option<()>)
        requires
            old(self).wf(),
        ensures
            final(self).wf(),
            r is Some <==> exists_spec(old(self).tree(), path@),
            final(self).fds() == old(self).fds(),
            final(self).alias_map() == old(self).alias_map(),
            final(self).fd_ids() == old(self).fd_ids(),
            final(self).ino_ids() == old(self).ino_ids(),
            (match r {
                Option::Some(u) => {
                    let q = resolve_full_spec(old(self).tree(), path@, MAX_HOPS as nat).unwrap();
                    final(self).tree() == old(self).tree().insert(
                        q,
                        chown_node(old(self).tree()[q], uid, gid, now),
                    )
                },
                Option::None => final(self).tree() == old(self).tree(),
            }),
    {
        let p = match self.realpath_sync(path, None) {
            Some(p) => p,
            None => {
                return None;
            },
        };
        match self.find_idx(p.as_str()) {
            Some(i) => {
                let a = Attr { uid, gid, ctime: now, ..self.nodes[i].attr };
                self.patch_attr(i, a);
                Some(())
            },
            None => None,
        }
    }

    /// Sets a path's access and modification times, given in seconds and
    /// stored in milliseconds, following links. `None` exactly when the
    /// path does not exist.
    pub fn utimes_sync(&mut self, path: &str, atime_s: u64, mtime_s: u64) -> (r: Option<()>)
        requires
            old(self).wf(),
        ensures
            final(self).wf(),
            r is Some <==> exists_spec(old(self).tree(), path@),
            final(self).fds() == old(self).fds(),
            final(self).alias_map() == old(self).alias_map(),
            final(self).fd_ids() == old(self).fd_ids(),
            final(self).ino_ids() == old(self).ino_ids(),
            (match r {
                Option::Some(u) => {
                    let q = resolve_full_spec(old(self).tree(), path@, MAX_HOPS as nat).unwrap();
                    final(self).tree() == old(self).tree().insert(
                        q,
                        utimes_node(old(self).tree()[q], sec_to_ms(atime_s), sec_to_ms(mtime_s)),
                    )
                },
                Option::None => final(self).tree() == old(self).tree(),
            }),
    {
        let p = match self.realpath_sync(path, None) {
            Some(p) => p,
            None => {
                return None;
            },
        };
        match self.find_idx(p.as_str()) {
            Some(i) => {
                let at: u64 = if atime_s > u64::MAX / 1000 {
                    u64::MAX
                } else {
                    atime_s * 1000
                };
                let mt: u64 = if mtime_s > u64::MAX / 1000 {
                    u64::MAX
                } else {
                    mtime_s * 1000
                };
                let a = Attr { atime: at, mtime: mt, ..self.nodes[i].attr };
                self.patch_attr(i, a);
                Some(())
            },
            None => None,
        }
    }

    /// Truncates or zero-extends a file to the given length, following
    /// links; the modification time is touched. `None` exactly when the
    /// path does not fully resolve to a live file that is not itself a
    /// link node.
    pub fn truncate_sync(&mut self, path: &str, size: usize, now: u64) -> (r: Option<()>)
        requires
            old(self).wf(),
        ensures
            final(self).wf(),
            final(self).fds() == old(self).fds(),
            final(self).alias_map() == old(self).alias_map(),
            final(self).fd_ids() == old(self).fd_ids(),
            final(self).ino_ids() == old(self).ino_ids(),
            ({
                let t = old(self).tree();
                match r {
                    Option::Some(u) => {
                        let q = resolve_full_spec(t, path@, MAX_HOPS as nat).unwrap();
                        &&& exists_spec(t, path@)
                        &&& t[q].kind is File
                        &&& !t[q].attr.link && !t[q].attr.symlink
                        &&& final(self).tree() == t.insert(
                            q,
                            with_content_mtime(t[q], resize_to(t[q].content, size as nat), now),
                        )
                    },
                    Option::None => {
                        &&& final(self).tree() == t
                        &&& !(exists_spec(t, path@) && t[resolve_full_spec(
                            t,
                            path@,
                            MAX_HOPS as nat,
                        ).unwrap()].kind is File && !t[resolve_full_spec(
                            t,
                            path@,
                            MAX_HOPS as nat,
                        ).unwrap()].attr.link && !t[resolve_full_spec(
                            t,
                            path@,
                            MAX_HOPS as nat,
                        ).unwrap()].attr.symlink)
                    },
                }
            }),
    {
        let p = match self.realpath_sync(path, None) {
            Some(p) => p,
            None => {
                return None;
            },
        };
        match self.find_idx(p.as_str()) {
            Some(i) => {
                match self.nodes[i].kind {
                    NodeKind::Dir => {
                        return None;
                    },
                    NodeKind::File => {},
                }
                if self.nodes[i].attr.link || self.nodes[i].attr.symlink {
                    return None;
                }
                let c = resized_content(&self.nodes[i].content, size);
                let a = Attr { mtime: now, ..self.nodes[i].attr };
                self.set_node(i, c, a);
                Some(())
            },
            None => None,
        }
    }

    /// Stats the node an open descriptor refers to, following hardlinks,
    /// and touches its access time. `None` when the descriptor is not open
    /// or its node is gone.
    pub fn fstat(&mut self, fd: usize, now: u64) -> (r: Option<NodeStats>)
        requires
            old(self).wf(),
        ensures
            final(self).wf(),
            final(self).fds() == old(self).fds(),
            final(self).alias_map() == old(self).alias_map(),
            final(self).fd_ids() == old(self).fd_ids(),
            final(self).ino_ids() == old(self).ino_ids(),
            r is Some <==> (old(self).fds().contains_key(fd) && resolve_hard_spec(
                old(self).tree(),
                old(self).fds()[fd].path,
                MAX_HOPS as nat,
            ) is Some && old(self).tree().contains_key(
                resolve_hard_spec(
                    old(self).tree(),
                    old(self).fds()[fd].path,
                    MAX_HOPS as nat,
                ).unwrap(),
            )),
            (match r {
                Option::Some(st) => {
                    let h = old(self).fds()[fd];
                    let q = resolve_hard_spec(old(self).tree(), h.path, MAX_HOPS as nat).unwrap();
                    &&& st == stats_of(old(self).tree()[q])
                    &&& final(self).tree() == old(self).tree().insert(
                        q,
                        with_atime(old(self).tree()[q], now),
                    )
                },
                Option::None => final(self).tree() == old(self).tree(),
            }),
    {
        let i = match self.find_handle(fd) {
            Some(i) => i,
            None => {
                return None;
            },
        };
        let path = match &self.handles[i] {
            Handle::File(f) => f.path.clone(),
            Handle::Dir(d) => d.path.clone(),
        };
        self.lstat_sync(path.as_str(), now)
    }

    /// Flushes an open file; in this in-memory store every write is
    /// already down, so only the descriptor is checked.
    pub fn fsync(&mut self, fd: usize) -> (r: Option<()>)
        requires
            old(self).wf(),
        ensures
            final(self).wf(),
            *final(self) == *old(self),
            r is Some <==> (old(self).fds().contains_key(fd) && old(self).fds()[fd].is_file),
    {
        let i = match self.find_handle(fd) {
            Some(i) => i,
            None => {
                return None;
            },
        };
        match &self.handles[i] {
            Handle::File(_) => Some(()),
            Handle::Dir(_) => None,
        }
    }

    /// Flushes an open file's data; like `fsync` here.
    pub fn fdatasync(&mut self, fd: usize) -> (r: Option<()>)
        requires
            old(self).wf(),
        ensures
            final(self).wf(),
            *final(self) == *old(self),
            r is Some <==> (old(self).fds().contains_key(fd) && old(self).fds()[fd].is_file),
    {
        self.fsync(fd)
    }

    /// Changes the permissions of the node behind an open descriptor.
    pub fn fchmod(&mut self, fd: usize, mode: u32, now: u64) -> (r: Option<()>)
        requires
            old(self).wf(),
        ensures
            final(self).wf(),
            final(self).fds() == old(self).fds(),
            final(self).alias_map() == old(self).alias_map(),
            final(self).fd_ids() == old(self).fd_ids(),
            final(self).ino_ids() == old(self).ino_ids(),
            r is Some <==> (old(self).fds().contains_key(fd) && exists_spec(
                old(self).tree(),
                old(self).fds()[fd].path,
            )),
            (match r {
                Option::Some(u) => {
                    let h = old(self).fds()[fd];
                    let q = resolve_full_spec(old(self).tree(), h.path, MAX_HOPS as nat).unwrap();
                    &&& final(self).tree() == old(self).tree().insert(
                        q,
                        chmod_node(old(self).tree()[q], mode, now),
                    )
                },
                Option::None => final(self).tree() == old(self).tree(),
            }),
    {
        let i = match self.find_handle(fd) {
            Some(i) => i,
            None => {
                return None;
            },
        };
        let path = match &self.handles[i] {
            Handle::File(f) => f.path.clone(),
            Handle::Dir(d) => d.path.clone(),
        };
        self.chmod_sync(path.as_str(), mode, now)
    }

    /// Changes the ownership of the node behind an open descriptor.
    pub fn fchown(&mut self, fd: usize, uid: u32, gid: u32, now: u64) -> (r: Option<()>)
        requires
            old(self).wf(),
        ensures
            final(self).wf(),
            final(self).fds() == old(self).fds(),
            final(self).alias_map() == old(self).alias_map(),
            final(self).fd_ids() == old(self).fd_ids(),
            final(self).ino_ids() == old(self).ino_ids(),
            r is Some <==> (old(self).fds().contains_key(fd) && exists_spec(
                old(self).tree(),
                old(self).fds()[fd].path,
            )),
            (match r {
                Option::Some(u) => {
                    let h = old(self).fds()[fd];
                    let q = resolve_full_spec(old(self).tree(), h.path, MAX_HOPS as nat).unwrap();
                    &&& final(self).tree() == old(self).tree().insert(
                        q,
                        chown_node(old(self).tree()[q], uid, gid, now),
                    )
                },
                Option::None => final(self).tree() == old(self).tree(),
            }),
    {
        let i = match self.find_handle(fd) {
            Some(i) => i,
            None => {
                return None;
            },
        };
        let path = match &self.handles[i] {
            Handle::File(f) => f.path.clone(),
            Handle::Dir(d) => d.path.clone(),
        };
        self.chown_sync(path.as_str(), uid, gid, now)
    }

    /// Sets the times of the node behind an open descriptor.
    pub fn futimes(&mut self, fd: usize, atime_s: u64, mtime_s: u64) -> (r: Option<()>)
        requires
            old(self).wf(),
        ensures
            final(self).wf(),
            final(self).fds() == old(self).fds(),
            final(self).alias_map() == old(self).alias_map(),
            final(self).fd_ids() == old(self).fd_ids(),
            final(self).ino_ids() == old(self).ino_ids(),
            r is Some <==> (old(self).fds().contains_key(fd) && exists_spec(
                old(self).tree(),
                old(self).fds()[fd].path,
            )),
            (match r {
                Option::Some(u) => {
                    let h = old(self).fds()[fd];
                    let q = resolve_full_spec(old(self).tree(), h.path, MAX_HOPS as nat).unwrap();
                    &&& final(self).tree() == old(self).tree().insert(
                        q,
                        utimes_node(old(self).tree()[q], sec_to_ms(atime_s), sec_to_ms(mtime_s)),
                    )
                },
                Option::None => final(self).tree() == old(self).tree(),
            }),
    {
        let i = match self.find_handle(fd) {
            Some(i) => i,
            None => {
                return None;
            },
        };
        let path = match &self.handles[i] {
            Handle::File(f) => f.path.clone(),
            Handle::Dir(d) => d.path.clone(),
        };
        self.utimes_sync(path.as_str(), atime_s, mtime_s)
    }

    /// Truncates the file behind an open writable descriptor and touches
    /// its modification time.
    pub fn ftruncate(&mut self, fd: usize, size: usize, now: u64) -> (r: Option<()>)
        requires
            old(self).wf(),
        ensures
            final(self).wf(),
            final(self).fds() == old(self).fds(),
            final(self).alias_map() == old(self).alias_map(),
            final(self).fd_ids() == old(self).fd_ids(),
            final(self).ino_ids() == old(self).ino_ids(),
            ({
                let t = old(self).tree();
                let h = old(self).fds()[fd];
                match r {
                    Option::Some(u) => {
                        &&& old(self).fds().contains_key(fd)
                        &&& h.is_file
                        &&& flag_writable(h.flags)
                        &&& t.contains_key(h.path)
                        &&& t[h.path].kind is File
                        &&& !t[h.path].attr.link && !t[h.path].attr.symlink
                        &&& final(self).tree() == t.insert(
                            h.path,
                            with_content_mtime(
                                t[h.path],
                                resize_to(t[h.path].content, size as nat),
                                now,
                            ),
                        )
                    },
                    Option::None => {
                        &&& final(self).tree() == t
                        &&& !(old(self).fds().contains_key(fd) && h.is_file && flag_writable(
                            h.flags,
                        ) && t.contains_key(h.path) && t[h.path].kind is File
                            && !t[h.path].attr.link && !t[h.path].attr.symlink)
                    },
                }
            }),
    {
        let i = match self.find_handle(fd) {
            Some(i) => i,
            None => {
                return None;
            },
        };
        let (path, flags) = match &self.handles[i] {
            Handle::File(f) => (f.path.clone(), f.flags),
            Handle::Dir(_) => {
                return None;
            },
        };
        if flags & 3 == O_RDONLY {
            return None;
        }
        match self.find_idx(path.as_str()) {
            Some(j) => {
                match self.nodes[j].kind {
                    NodeKind::Dir => {
                        return None;
                    },
                    NodeKind::File => {},
                }
                if self.nodes[j].attr.link || self.nodes[j].attr.symlink {
                    return None;
                }
                let c = resized_content(&self.nodes[j].content, size);
                let a = Attr { mtime: now, ..self.nodes[j].attr };
                self.set_node(j, c, a);
                Some(())
            },
            None => None,
        }
    }
}

/// Builds content truncated or zero-extended to exactly `n` bytes.
fn resized_content(content: &Vec<u8>, n: usize) -> (c: Vec<u8>)
    ensures
        c@ == resize_to(content@, n as nat),
{
    let mut c = content.clone();
    proof {
        assert(c@ =~= content@);
    }
    if c.len() > n {
        c.truncate(n);
        proof {
            assert(c@ =~= resize_to(content@, n as nat));
        }
        return c;
    }
    while c.len() < n
        invariant
            c@.len() <= n,
            content@.len() <= c@.len(),
            forall|m: int| 0 <= m < content@.len() ==> c@[m] == content@[m],
            forall|m: int| content@.len() <= m < c@.len() ==> c@[m] == 0u8,
        decreases n - c@.len(),
    {
        c.push(0u8);
    }
    proof {
        assert(c@ =~= resize_to(content@, n as nat));
    }
    c
}

/// Inserting a non-alias node anywhere that is not an alias leaves hardlink
/// resolution unchanged.
pub proof fn lemma_resolve_hard_stable(
    t: Map<Seq<char>, NodeV>,
    p: Seq<char>,
    fuel: nat,
    k: Seq<char>,
    nv: NodeV,
)
    requires
        !is_link_at(t, k),
        !nv.attr.link,
    ensures
        resolve_hard_spec(t.insert(k, nv), p, fuel) == resolve_hard_spec(t, p, fuel),
    decreases fuel,
{
    let q = canon_spec(p);
    let t2 = t.insert(k, nv);
    if is_link_at(t, q) {
        assert(q != k);
        assert(t2[q] == t[q]);
        if fuel > 0 {
            lemma_resolve_hard_stable(t, link_target(t, q), (fuel - 1) as nat, k, nv);
            assert(link_target(t2, q) == link_target(t, q));
        }
    } else {
        if q == k {
            assert(!is_link_at(t2, q));
        } else {
            assert(!is_link_at(t2, q));
        }
    }
}

/// Inserting a plain node (no link flags) anywhere that carries no link
/// flag leaves full resolution unchanged.
pub proof fn lemma_resolve_full_stable(
    t: Map<Seq<char>, NodeV>,
    p: Seq<char>,
    fuel: nat,
    k: Seq<char>,
    nv: NodeV,
)
    requires
        !is_link_at(t, k),
        !is_symlink_at(t, k),
        !nv.attr.link,
        !nv.attr.symlink,
    ensures
        resolve_full_spec(t.insert(k, nv), p, fuel) == resolve_full_spec(t, p, fuel),
    decreases fuel,
{
    let t2 = t.insert(k, nv);
    lemma_resolve_hard_stable(t, p, MAX_HOPS as nat, k, nv);
    match resolve_hard_spec(t, p, MAX_HOPS as nat) {
        Option::None => {},
        Option::Some(q) => {
            if is_symlink_at(t, q) {
                assert(q != k);
                assert(t2[q] == t[q]);
                if fuel > 0 {
                    lemma_resolve_full_stable(t, link_target(t, q), (fuel - 1) as nat, k, nv);
                    assert(link_target(t2, q) == link_target(t, q));
                }
            } else {
                if q == k {
                    assert(!is_symlink_at(t2, q));
                } else {
                    assert(!is_symlink_at(t2, q));
                }
            }
        },
    }
}

/// The child paths of a directory, in storage order: every stored path
/// other than the root whose parent is the directory.
pub open spec fn child_paths(nodes: Seq<Node>, d: Seq<char>) -> Seq<Seq<char>>
    decreases nodes.len(),
{
    if nodes.len() == 0 {
        Seq::<Seq<char>>::empty()
    } else {
        let rest = child_paths(nodes.drop_last(), d);
        if nodes.last().path@ != root_path() && dirname_spec(nodes.last().path@) == d {
            rest.push(nodes.last().path@)
        } else {
            rest
        }
    }
}

/// A path is among the children exactly when it is stored, is not the
/// root, and has the directory as its parent.
pub proof fn lemma_child_paths_iff(nodes: Seq<Node>, d: Seq<char>, p: Seq<char>)
    ensures
        child_paths(nodes, d).contains(p) <==> ((exists|i: int|
            0 <= i < nodes.len() && nodes[i].path@ == p) && p != root_path() && dirname_spec(p)
            == d),
    decreases nodes.len(),
{
    if nodes.len() > 0 {
        lemma_child_paths_iff(nodes.drop_last(), d, p);
        let rest = child_paths(nodes.drop_last(), d);
        if nodes.last().path@ != root_path() && dirname_spec(nodes.last().path@) == d {
            assert(child_paths(nodes, d) == rest.push(nodes.last().path@));
            if child_paths(nodes, d).contains(p) {
                if p == nodes.last().path@ {
                    assert(nodes[nodes.len() - 1].path@ == p);
                } else {
                    assert(rest.contains(p)) by {
                        let ci = choose|ci: int| 0 <= ci < child_paths(nodes, d).len()
                            && child_paths(nodes, d)[ci] == p;
                        assert(rest[ci] == p);
                    }
                    let i = choose|i: int| 0 <= i < nodes.drop_last().len()
                        && nodes.drop_last()[i].path@ == p;
                    assert(nodes[i].path@ == p);
                }
            }
            if (exists|i: int| 0 <= i < nodes.len() && nodes[i].path@ == p) && p != root_path()
                && dirname_spec(p) == d {
                let i = choose|i: int| 0 <= i < nodes.len() && nodes[i].path@ == p;
                if i == nodes.len() - 1 {
                    assert(child_paths(nodes, d)[rest.len() as int] == p);
                } else {
                    assert(nodes.drop_last()[i].path@ == p);
                    let ci = choose|ci: int| 0 <= ci < rest.len() && rest[ci] == p;
                    assert(child_paths(nodes, d)[ci] == p);
                }
            }
        } else {
            assert(child_paths(nodes, d) == rest);
            if child_paths(nodes, d).contains(p) {
                let i = choose|i: int| 0 <= i < nodes.drop_last().len()
                    && nodes.drop_last()[i].path@ == p;
                assert(nodes[i].path@ == p);
            }
            if (exists|i: int| 0 <= i < nodes.len() && nodes[i].path@ == p) && p != root_path()
                && dirname_spec(p) == d {
                let i = choose|i: int| 0 <= i < nodes.len() && nodes[i].path@ == p;
                if i == nodes.len() - 1 {
                } else {
                    assert(nodes.drop_last()[i].path@ == p);
                    let ci = choose|ci: int| 0 <= ci < rest.len() && rest[ci] == p;
                    assert(child_paths(nodes, d)[ci] == p);
                }
            }
        }
    }
}

/// The directory entry a live path shows: its name, its parent, and what
/// kind of node it is.
pub open spec fn dirent_of(t: Map<Seq<char>, NodeV>, k: Seq<char>) -> DirentV {
    DirentV {
        name: basename_spec(k),
        path: dirname_spec(k),
        file: t[k].kind is File,
        symlink: t[k].attr.symlink,
    }
}

/// What a file's content becomes when written whole: the old content is
/// kept only without truncation, and append writes go to its end.
pub open spec fn wfile_base(t: Map<Seq<char>, NodeV>, q: Seq<char>, fb: u32) -> Seq<u8> {
    if t.contains_key(q) && !(fb & O_TRUNC != 0 && flag_writable(fb)) {
        t[q].content
    } else {
        Seq::<u8>::empty()
    }
}

/// Where a whole-file write starts.
pub open spec fn wfile_start(t: Map<Seq<char>, NodeV>, q: Seq<char>, fb: u32) -> nat {
    if fb & O_APPEND != 0 {
        wfile_base(t, q, fb).len()
    } else {
        0
    }
}

/// When a whole-file write at a storage key succeeds: writable flags, and
/// either a live plain file, or a missing path with creation asked and a
/// live parent directory; the result must fit in memory.
pub open spec fn wfile_ok(t: Map<Seq<char>, NodeV>, q: Seq<char>, fb: u32, datalen: nat) -> bool {
    &&& flag_writable(fb)
    &&& (if t.contains_key(q) {
        t[q].kind is File && fb & O_EXCL == 0 && !t[q].attr.link && !t[q].attr.symlink
    } else {
        fb & O_CREAT != 0 && t.contains_key(dirname_spec(q)) && t[dirname_spec(q)].kind is Dir
    })
    &&& wfile_start(t, q, fb) + datalen <= usize::MAX
}

/// The node a whole-file write leaves at the key.
pub open spec fn wfile_node(
    t: Map<Seq<char>, NodeV>,
    q: Seq<char>,
    fb: u32,
    data: Seq<u8>,
    m: u32,
    now: u64,
    ino: usize,
) -> NodeV {
    let content = write_at(wfile_base(t, q, fb), wfile_start(t, q, fb), data);
    if t.contains_key(q) {
        NodeV {
            kind: NodeKind::File,
            content,
            attr: Attr { atime: now, mtime: now, ..t[q].attr },
        }
    } else {
        NodeV { kind: NodeKind::File, content, attr: fresh_file_attr(m, now, ino) }
    }
}

impl Fs {
    /// Writes a whole file at an exact storage key.
    fn write_file_at_key(&mut self, q: &str, data: &Vec<u8>, fb: u32, m: u32, now: u64) -> (r:
        Option<()>)
        requires
            old(self).wf(),
        ensures
            final(self).wf(),
            final(self).fds() == old(self).fds(),
            final(self).fd_ids() == old(self).fd_ids(),
            final(self).alias_map() == old(self).alias_map(),
            ({
                let t = old(self).tree();
                match r {
                    Option::Some(u) => {
                        &&& wfile_ok(t, q@, fb, data@.len())
                        &&& final(self).tree() == t.insert(
                            q@,
                            wfile_node(t, q@, fb, data@, m, now, final(self).tree()[q@].attr.ino),
                        )
                        &&& if t.contains_key(q@) {
                            final(self).ino_ids() == old(self).ino_ids()
                        } else {
                            &&& !old(self).ino_ids().contains(final(self).tree()[q@].attr.ino)
                            &&& final(self).ino_ids() == old(self).ino_ids().insert(
                                final(self).tree()[q@].attr.ino,
                            )
                            &&& forall|k: Seq<char>|
                                t.contains_key(k) ==> final(self).tree()[q@].attr.ino
                                    != t[k].attr.ino
                        }
                    },
                    Option::None => {
                        &&& final(self).tree() == t
                        &&& final(self).ino_ids() == old(self).ino_ids()
                        &&& (!wfile_ok(t, q@, fb, data@.len()) || (!t.contains_key(q@)
                            && id_space_tight(old(self).ino_ids())))
                    },
                }
            }),
    {
        if fb & 3 == O_RDONLY {
            return None;
        }
        match self.find_idx(q) {
            Some(i) => {
                match self.nodes[i].kind {
                    NodeKind::Dir => {
                        return None;
                    },
                    NodeKind::File => {},
                }
                if fb & O_EXCL != 0 {
                    return None;
                }
                if self.nodes[i].attr.link || self.nodes[i].attr.symlink {
                    return None;
                }
                let trunc = fb & O_TRUNC != 0;
                let base: Vec<u8> = if trunc {
                    Vec::new()
                } else {
                    self.nodes[i].content.clone()
                };
                proof {
                    assert(base@ =~= wfile_base(old(self).tree(), q@, fb));
                }
                let start: usize = if fb & O_APPEND != 0 {
                    base.len()
                } else {
                    0
                };
                if start > usize::MAX - data.len() {
                    return None;
                }
                let c = spliced_content(&base, start, data, 0, data.len());
                proof {
                    assert(data@.subrange(0, data@.len() as int) =~= data@);
                }
                let a = Attr { atime: now, mtime: now, ..self.nodes[i].attr };
                self.set_node(i, c, a);
                Some(())
            },
            None => {
                if fb & O_CREAT == 0 {
                    return None;
                }
                let parent = path_dirname(q);
                let pok = match self.find_idx(parent.as_str()) {
                    Some(pi) => match self.nodes[pi].kind {
                        NodeKind::Dir => true,
                        NodeKind::File => false,
                    },
                    None => false,
                };
                if !pok {
                    return None;
                }
                let c = data.clone();
                proof {
                    assert(c@ =~= data@);
                    assert(wfile_base(old(self).tree(), q@, fb) =~= Seq::<u8>::empty());
                    assert(write_at(Seq::<u8>::empty(), 0, data@) =~= data@) by {
                        assert(pad_to(Seq::<u8>::empty(), data@.len()) =~= zero_bytes(data@.len()));
                    }
                }
                let a = fresh_attr_perm(m, now);
                let qv = str_chars(q);
                let qs = chars_to_string(&qv);
                match self.create_node(qs, NodeKind::File, c, a) {
                    Some(ino) => {
                        proof {
                            assert(final(self).tree()[q@].attr == Attr { ino, ..a });
                            assert forall|k: Seq<char>| old(self).tree().contains_key(k) implies ino
                                != old(self).tree()[k].attr.ino by {
                                lemma_nmap_contains(old(self).nodes@, k);
                                let j = choose|j: int| 0 <= j < old(self).nodes@.len() && old(
                                    self,
                                ).nodes@[j].path@ == k;
                                lemma_nmap_index(old(self).nodes@, j);
                            }
                        }
                        Some(())
                    },
                    None => None,
                }
            },
        }
    }

    /// Writes a whole file at a path without following links; the textual
    /// mode defaults to `w` and the permissions to the file default.
    pub fn write_file_sync_no_follow(&mut self, path: &str, data: &Vec<u8>, flags: Option<&str>, mode: Option<u32>, now: u64) -> (r: Option<()>)
        requires
            old(self).wf(),
        ensures
            final(self).wf(),
            final(self).fds() == old(self).fds(),
            final(self).fd_ids() == old(self).fd_ids(),
            final(self).alias_map() == old(self).alias_map(),
            ({
                let t = old(self).tree();
                let q = canon_spec(path@);
                let fb = match flags {
                    Option::Some(f) => flag_bits(f@),
                    Option::None => O_WRONLY | O_CREAT | O_TRUNC,
                };
                let m = match mode {
                    Option::Some(m) => m,
                    Option::None => crate::DEFAULT_PERM_FILE,
                };
                match r {
                    Option::Some(u) => {
                        &&& wfile_ok(t, q, fb, data@.len())
                        &&& final(self).tree() == t.insert(
                            q,
                            wfile_node(t, q, fb, data@, m, now, final(self).tree()[q].attr.ino),
                        )
                    },
                    Option::None => {
                        &&& final(self).tree() == t
                        &&& (!wfile_ok(t, q, fb, data@.len()) || (!t.contains_key(q)
                            && id_space_tight(old(self).ino_ids())))
                    },
                }
            }),
    {
        let q = path_canon(path);
        let fb = match flags {
            Some(f) => fs_flag_node_to_lfs(Some(f)),
            None => O_WRONLY | O_CREAT | O_TRUNC,
        };
        let m = match mode {
            Some(m) => m,
            None => crate::DEFAULT_PERM_FILE,
        };
        self.write_file_at_key(q.as_str(), data, fb, m, now)
    }

    /// Writes a whole file at a path, following links first.
    pub fn write_file_sync(&mut self, path: &str, data: &Vec<u8>, flags: Option<&str>, mode: Option<
        u32,
    >, now: u64) -> (r: Option<()>)
        requires
            old(self).wf(),
        ensures
            final(self).wf(),
            final(self).fds() == old(self).fds(),
            final(self).fd_ids() == old(self).fd_ids(),
            final(self).alias_map() == old(self).alias_map(),
            ({
                let t = old(self).tree();
                let res = resolve_full_spec(t, path@, MAX_HOPS as nat);
                let fb = match flags {
                    Option::Some(f) => flag_bits(f@),
                    Option::None => O_WRONLY | O_CREAT | O_TRUNC,
                };
                let m = match mode {
                    Option::Some(m) => m,
                    Option::None => crate::DEFAULT_PERM_FILE,
                };
                match r {
                    Option::Some(u) => {
                        let q = res.unwrap();
                        &&& res is Some
                        &&& wfile_ok(t, q, fb, data@.len())
                        &&& final(self).tree() == t.insert(
                            q,
                            wfile_node(t, q, fb, data@, m, now, final(self).tree()[q].attr.ino),
                        )
                    },
                    Option::None => {
                        &&& final(self).tree() == t
                        &&& (res is None || !wfile_ok(t, res.unwrap(), fb, data@.len()) || (
                        !t.contains_key(res.unwrap()) && id_space_tight(old(self).ino_ids())))
                    },
                }
            }),
    {
        let p = match self.realpath_sync(path, None) {
            Some(p) => p,
            None => {
                return None;
            },
        };
        let fb = match flags {
            Some(f) => fs_flag_node_to_lfs(Some(f)),
            None => O_WRONLY | O_CREAT | O_TRUNC,
        };
        let m = match mode {
            Some(m) => m,
            None => crate::DEFAULT_PERM_FILE,
        };
        self.write_file_at_key(p.as_str(), data, fb, m, now)
    }

    /// Reads a whole file at an exact storage key, touching its access
    /// time; `None` exactly when the key is not a live file.
    fn read_file_at_key(&mut self, q: &str, now: u64) -> (r: Option<Vec<u8>>)
        requires
            old(self).wf(),
        ensures
            final(self).wf(),
            final(self).fds() == old(self).fds(),
            final(self).fd_ids() == old(self).fd_ids(),
            final(self).ino_ids() == old(self).ino_ids(),
            final(self).alias_map() == old(self).alias_map(),
            ({
                let t = old(self).tree();
                match r {
                    Option::Some(v) => {
                        &&& t.contains_key(q@)
                        &&& t[q@].kind is File
                        &&& v@ == t[q@].content
                        &&& final(self).tree() == t.insert(q@, with_atime(t[q@], now))
                    },
                    Option::None => {
                        &&& final(self).tree() == t
                        &&& !(t.contains_key(q@) && t[q@].kind is File)
                    },
                }
            }),
    {
        match self.find_idx(q) {
            Some(i) => {
                match self.nodes[i].kind {
                    NodeKind::Dir => {
                        return None;
                    },
                    NodeKind::File => {},
                }
                let v = self.nodes[i].content.clone();
                proof {
                    assert(v@ =~= old(self).tree()[q@].content);
                }
                let a = Attr { atime: now, ..self.nodes[i].attr };
                self.patch_attr(i, a);
                Some(v)
            },
            None => None,
        }
    }

    /// Reads a whole file at a path without following links.
    pub fn read_file_sync_no_follow(&mut self, path: &str, now: u64) -> (r: Option<Vec<u8>>)
        requires
            old(self).wf(),
        ensures
            final(self).wf(),
            final(self).fds() == old(self).fds(),
            final(self).fd_ids() == old(self).fd_ids(),
            final(self).ino_ids() == old(self).ino_ids(),
            final(self).alias_map() == old(self).alias_map(),
            ({
                let t = old(self).tree();
                let q = canon_spec(path@);
                match r {
                    Option::Some(v) => {
                        &&& t.contains_key(q)
                        &&& t[q].kind is File
                        &&& v@ == t[q].content
                        &&& final(self).tree() == t.insert(q, with_atime(t[q], now))
                    },
                    Option::None => {
                        &&& final(self).tree() == t
                        &&& !(t.contains_key(q) && t[q].kind is File)
                    },
                }
            }),
    {
        let q = path_canon(path);
        self.read_file_at_key(q.as_str(), now)
    }

    /// Reads a whole file at a path, following links first; `None` exactly
    /// when the path does not fully resolve to a live file.
    pub fn read_file_sync(&mut self, path: &str, now: u64) -> (r: Option<Vec<u8>>)
        requires
            old(self).wf(),
        ensures
            final(self).wf(),
            final(self).fds() == old(self).fds(),
            final(self).fd_ids() == old(self).fd_ids(),
            final(self).ino_ids() == old(self).ino_ids(),
            final(self).alias_map() == old(self).alias_map(),
            ({
                let t = old(self).tree();
                let res = resolve_full_spec(t, path@, MAX_HOPS as nat);
                match r {
                    Option::Some(v) => {
                        let q = res.unwrap();
                        &&& res is Some
                        &&& t.contains_key(q)
                        &&& t[q].kind is File
                        &&& v@ == t[q].content
                        &&& final(self).tree() == t.insert(q, with_atime(t[q], now))
                    },
                    Option::None => {
                        &&& final(self).tree() == t
                        &&& (res is None || !(t.contains_key(res.unwrap()) && t[res.unwrap()].kind
                            is File))
                    },
                }
            }),
    {
        let p = match self.realpath_sync(path, None) {
            Some(p) => p,
            None => {
                return None;
            },
        };
        self.read_file_at_key(p.as_str(), now)
    }

    /// Reads a whole file under an encoding choice: `utf8`/`utf-8` decodes
    /// when the bytes are valid UTF-8 and hands bytes back otherwise;
    /// `buffer` always hands bytes back; anything else is refused. Missing
    /// paths and directories are told apart.
    pub fn read_file_encoded(&mut self, path: &str, encoding: &str, now: u64) -> (r: Result<
        FileData,
        crate::ErrorCode,
    >)
        requires
            old(self).wf(),
        ensures
            final(self).wf(),
            final(self).fds() == old(self).fds(),
            final(self).fd_ids() == old(self).fd_ids(),
            final(self).ino_ids() == old(self).ino_ids(),
            final(self).alias_map() == old(self).alias_map(),
            ({
                let t = old(self).tree();
                let res = resolve_full_spec(t, path@, MAX_HOPS as nat);
                let q = res.unwrap();
                let text_enc = encoding@ == "utf8"@ || encoding@ == "utf-8"@;
                let enc_ok = text_enc || encoding@ == "buffer"@;
                match r {
                    Result::Ok(d) => {
                        &&& exists_spec(t, path@)
                        &&& t[q].kind is File
                        &&& enc_ok
                        &&& final(self).tree() == t.insert(q, with_atime(t[q], now))
                        &&& (match d {
                            FileData::Text(s) => text_enc && valid_utf8(t[q].content)
                                && encode_utf8(s@) == t[q].content,
                            FileData::Bytes(v) => (encoding@ == "buffer"@ || !valid_utf8(
                                t[q].content,
                            )) && v@ == t[q].content,
                        })
                    },
                    Result::Err(e) => {
                        &&& final(self).tree() == t
                        &&& (e is NoEnt <==> !exists_spec(t, path@))
                        &&& (e is IsDir <==> exists_spec(t, path@) && t[q].kind is Dir)
                        &&& (e is Inval <==> exists_spec(t, path@) && t[q].kind is File && !enc_ok)
                        &&& (e is NoEnt || e is IsDir || e is Inval)
                    },
                }
            }),
    {
        let p = match self.realpath_sync(path, None) {
            Some(p) => p,
            None => {
                return Err(crate::ErrorCode::NoEnt);
            },
        };
        let i = match self.find_idx(p.as_str()) {
            Some(i) => i,
            None => {
                return Err(crate::ErrorCode::NoEnt);
            },
        };
        match self.nodes[i].kind {
            NodeKind::Dir => {
                return Err(crate::ErrorCode::IsDir);
            },
            NodeKind::File => {},
        }
        let text_enc = str_eq(encoding, "utf8") || str_eq(encoding, "utf-8");
        let enc_ok = text_enc || str_eq(encoding, "buffer");
        if !enc_ok {
            return Err(crate::ErrorCode::Inval);
        }
        let bytes = self.nodes[i].content.clone();
        proof {
            assert(bytes@ =~= self.nodes@[i as int].content@);
        }
        let a = Attr { atime: now, ..self.nodes[i].attr };
        self.patch_attr(i, a);
        if text_enc {
            match bytes_to_string(bytes) {
                Some(s) => Ok(FileData::Text(s)),
                None => {
                    let bytes2 = match self.find_idx(p.as_str()) {
                        Some(j) => self.nodes[j].content.clone(),
                        None => {
                            proof {
                                assert(false);
                            }
                            Vec::new()
                        },
                    };
                    proof {
                        assert(bytes2@ =~= old(self).tree()[
                            resolve_full_spec(old(self).tree(), path@, MAX_HOPS as nat).unwrap()
                        ].content);
                    }
                    Ok(FileData::Bytes(bytes2))
                },
            }
        } else {
            Ok(FileData::Bytes(bytes))
        }
    }

    /// Appends to a file at a path without following links; the textual
    /// mode defaults to `a`.
    pub fn append_file_sync_no_follow(&mut self, path: &str, data: &Vec<u8>, flags: Option<&str>, mode: Option<u32>, now: u64) -> (r: Option<()>)
        requires
            old(self).wf(),
        ensures
            final(self).wf(),
            final(self).fds() == old(self).fds(),
            final(self).fd_ids() == old(self).fd_ids(),
            final(self).alias_map() == old(self).alias_map(),
            ({
                let t = old(self).tree();
                let q = canon_spec(path@);
                let fb = match flags {
                    Option::Some(f) => flag_bits(f@),
                    Option::None => O_WRONLY | O_APPEND | O_CREAT,
                };
                let m = match mode {
                    Option::Some(m) => m,
                    Option::None => crate::DEFAULT_PERM_FILE,
                };
                match r {
                    Option::Some(u) => {
                        &&& wfile_ok(t, q, fb, data@.len())
                        &&& final(self).tree() == t.insert(
                            q,
                            wfile_node(t, q, fb, data@, m, now, final(self).tree()[q].attr.ino),
                        )
                    },
                    Option::None => {
                        &&& final(self).tree() == t
                        &&& (!wfile_ok(t, q, fb, data@.len()) || (!t.contains_key(q)
                            && id_space_tight(old(self).ino_ids())))
                    },
                }
            }),
    {
        let q = path_canon(path);
        let fb = match flags {
            Some(f) => fs_flag_node_to_lfs(Some(f)),
            None => O_WRONLY | O_APPEND | O_CREAT,
        };
        let m = match mode {
            Some(m) => m,
            None => crate::DEFAULT_PERM_FILE,
        };
        self.write_file_at_key(q.as_str(), data, fb, m, now)
    }

    /// Appends to a file at a path, following links first.
    pub fn append_file_sync(&mut self, path: &str, data: &Vec<u8>, flags: Option<&str>, mode: Option<u32>, now: u64) -> (r: Option<()>)
        requires
            old(self).wf(),
        ensures
            final(self).wf(),
            final(self).fds() == old(self).fds(),
            final(self).fd_ids() == old(self).fd_ids(),
            final(self).alias_map() == old(self).alias_map(),
            ({
                let t = old(self).tree();
                let res = resolve_full_spec(t, path@, MAX_HOPS as nat);
                let fb = match flags {
                    Option::Some(f) => flag_bits(f@),
                    Option::None => O_WRONLY | O_APPEND | O_CREAT,
                };
                let m = match mode {
                    Option::Some(m) => m,
                    Option::None => crate::DEFAULT_PERM_FILE,
                };
                match r {
                    Option::Some(u) => {
                        let q = res.unwrap();
                        &&& res is Some
                        &&& wfile_ok(t, q, fb, data@.len())
                        &&& final(self).tree() == t.insert(
                            q,
                            wfile_node(t, q, fb, data@, m, now, final(self).tree()[q].attr.ino),
                        )
                    },
                    Option::None => {
                        &&& final(self).tree() == t
                        &&& (res is None || !wfile_ok(t, res.unwrap(), fb, data@.len()) || (
                        !t.contains_key(res.unwrap()) && id_space_tight(old(self).ino_ids())))
                    },
                }
            }),
    {
        let p = match self.realpath_sync(path, None) {
            Some(p) => p,
            None => {
                return None;
            },
        };
        let fb = match flags {
            Some(f) => fs_flag_node_to_lfs(Some(f)),
            None => O_WRONLY | O_APPEND | O_CREAT,
        };
        let m = match mode {
            Some(m) => m,
            None => crate::DEFAULT_PERM_FILE,
        };
        self.write_file_at_key(p.as_str(), data, fb, m, now)
    }
}

/// Write permission on a directory for anyone: owner, group or others.
pub open spec fn parent_writable(t: Map<Seq<char>, NodeV>, d: Seq<char>) -> bool {
    t[d].attr.mode & (crate::S_IWUSR | crate::S_IWGRP | crate::S_IWOTH) != 0
}

/// The attribute record of a directory created now.
pub open spec fn fresh_dir_attr(mode: u32, now: u64, ino: usize) -> Attr {
    Attr {
        ino,
        mode: crate::S_IFDIR | spec_sanitize_permissions(mode),
        uid: 0,
        gid: 0,
        nlink: 1,
        atime: now,
        mtime: now,
        ctime: now,
        birthtime: now,
        link: false,
        symlink: false,
    }
}

/// When creating one directory at an exact key succeeds: the key is free,
/// its parent is a live directory, and the parent grants write.
pub open spec fn mkdir_ok(t: Map<Seq<char>, NodeV>, q: Seq<char>) -> bool {
    &&& !t.contains_key(q)
    &&& t.contains_key(dirname_spec(q))
    &&& t[dirname_spec(q)].kind is Dir
    &&& parent_writable(t, dirname_spec(q))
}

impl Fs {
    /// Creates one directory at an exact storage key.
    fn mkdir_at_key(&mut self, q: &str, mode: u32, now: u64) -> (r: Result<(), crate::ErrorCode>)
        requires
            old(self).wf(),
        ensures
            final(self).wf(),
            final(self).fds() == old(self).fds(),
            final(self).fd_ids() == old(self).fd_ids(),
            final(self).alias_map() == old(self).alias_map(),
            ({
                let t = old(self).tree();
                match r {
                    Result::Ok(u) => {
                        &&& mkdir_ok(t, q@)
                        &&& final(self).tree() == t.insert(
                            q@,
                            NodeV {
                                kind: NodeKind::Dir,
                                content: Seq::<u8>::empty(),
                                attr: fresh_dir_attr(mode, now, final(self).tree()[q@].attr.ino),
                            },
                        )
                        &&& !old(self).ino_ids().contains(final(self).tree()[q@].attr.ino)
                        &&& final(self).ino_ids() == old(self).ino_ids().insert(
                            final(self).tree()[q@].attr.ino,
                        )
                        &&& forall|k: Seq<char>|
                            t.contains_key(k) ==> final(self).tree()[q@].attr.ino != t[k].attr.ino
                    },
                    Result::Err(e) => {
                        &&& final(self).tree() == t
                        &&& final(self).ino_ids() == old(self).ino_ids()
                        &&& (match e {
                            crate::ErrorCode::Exist => t.contains_key(q@),
                            crate::ErrorCode::NoEnt => !t.contains_key(q@) && !(t.contains_key(
                                dirname_spec(q@),
                            ) && t[dirname_spec(q@)].kind is Dir),
                            crate::ErrorCode::Access => !t.contains_key(q@) && t.contains_key(
                                dirname_spec(q@),
                            ) && t[dirname_spec(q@)].kind is Dir && !parent_writable(
                                t,
                                dirname_spec(q@),
                            ),
                            crate::ErrorCode::Fault => mkdir_ok(t, q@) && id_space_tight(
                                old(self).ino_ids(),
                            ),
                            _ => false,
                        })
                    },
                }
            }),
    {
        match self.find_idx(q) {
            Some(_) => Err(crate::ErrorCode::Exist),
            None => {
                let parent = path_dirname(q);
                let pok = match self.find_idx(parent.as_str()) {
                    Some(pi) => match self.nodes[pi].kind {
                        NodeKind::Dir => true,
                        NodeKind::File => false,
                    },
                    None => false,
                };
                if !pok {
                    return Err(crate::ErrorCode::NoEnt);
                }
                let pi = match self.find_idx(parent.as_str()) {
                    Some(pi) => pi,
                    None => {
                        proof {
                            assert(false);
                        }
                        return Err(crate::ErrorCode::NoEnt);
                    },
                };
                if self.nodes[pi].attr.mode & (crate::S_IWUSR | crate::S_IWGRP | crate::S_IWOTH)
                    == 0 {
                    return Err(crate::ErrorCode::Access);
                }
                let a = Attr {
                    ino: 0,
                    mode: crate::S_IFDIR | sanitize_permissions(mode),
                    uid: 0,
                    gid: 0,
                    nlink: 1,
                    atime: now,
                    mtime: now,
                    ctime: now,
                    birthtime: now,
                    link: false,
                    symlink: false,
                };
                let qv = str_chars(q);
                let qs = chars_to_string(&qv);
                match self.create_node(qs, NodeKind::Dir, Vec::new(), a) {
                    Some(ino) => {
                        proof {
                            assert(final(self).tree()[q@].attr == Attr { ino, ..a });
                            assert forall|k: Seq<char>| old(self).tree().contains_key(k) implies ino
                                != old(self).tree()[k].attr.ino by {
                                lemma_nmap_contains(old(self).nodes@, k);
                                let j = choose|j: int| 0 <= j < old(self).nodes@.len() && old(
                                    self,
                                ).nodes@[j].path@ == k;
                                lemma_nmap_index(old(self).nodes@, j);
                            }
                        }
                        Ok(())
                    },
                    None => Err(crate::ErrorCode::Fault),
                }
            },
        }
    }

    /// Creates one directory, following hardlinks to pick the key.
    fn mkdir_single(&mut self, path: &str, mode: u32, now: u64) -> (r: Result<
        Option<String>,
        crate::ErrorCode,
    >)
        requires
            old(self).wf(),
        ensures
            final(self).wf(),
            final(self).fds() == old(self).fds(),
            final(self).fd_ids() == old(self).fd_ids(),
            final(self).alias_map() == old(self).alias_map(),
            forall|k: Seq<char>| #[trigger]
                old(self).tree().contains_key(k) ==> final(self).tree().contains_key(k)
                    && final(self).tree()[k] == old(self).tree()[k],
            ({
                let t = old(self).tree();
                let res = resolve_hard_spec(t, path@, MAX_HOPS as nat);
                &&& (exists_spec(t, path@) && !is_file_spec(t, path@) ==> (r matches Result::Ok(u)
                    && u is None && final(self).tree() == t))
                &&& (exists_spec(t, path@) && is_file_spec(t, path@) ==> (r matches Result::Err(e)
                    && e is Exist && final(self).tree() == t))
                &&& (match r {
                    Result::Ok(u) => exists_spec(final(self).tree(), path@),
                    Result::Err(e) => final(self).tree() == t,
                })
                &&& (match r {
                    Result::Ok(u) => exists_spec(t, path@) || (res is Some && mkdir_ok(
                        t,
                        res.unwrap(),
                    ) && final(self).tree() == t.insert(
                        res.unwrap(),
                        NodeV {
                            kind: NodeKind::Dir,
                            content: Seq::<u8>::empty(),
                            attr: fresh_dir_attr(
                                mode,
                                now,
                                final(self).tree()[res.unwrap()].attr.ino,
                            ),
                        },
                    )),
                    Result::Err(e) => exists_spec(t, path@) || ((e is Loop || e is Exist || e
                        is NoEnt || e is Access || e is Fault) && (e is Loop ==> res is None) && (e
                        is Exist ==> res is Some && t.contains_key(res.unwrap())) && (e is NoEnt
                        ==> res is Some && !t.contains_key(res.unwrap()) && !(t.contains_key(
                        dirname_spec(res.unwrap()),
                    ) && t[dirname_spec(res.unwrap())].kind is Dir)) && (e is Access ==> res
                        is Some && !t.contains_key(res.unwrap()) && t.contains_key(
                        dirname_spec(res.unwrap()),
                    ) && t[dirname_spec(res.unwrap())].kind is Dir && !parent_writable(
                        t,
                        dirname_spec(res.unwrap()),
                    )) && (e is Fault ==> res is Some && mkdir_ok(t, res.unwrap())
                        && id_space_tight(old(self).ino_ids()))),
                })
            }),
    {
        if self.exists_sync(path) {
            if self.is_file(path) {
                Err(crate::ErrorCode::Exist)
            } else {
                proof {
                    assert(old(self).tree().contains_key(
                        resolve_full_spec(old(self).tree(), path@, MAX_HOPS as nat).unwrap(),
                    ));
                }
                Ok(None)
            }
        } else {
            let p = match self.follow_link(path, None) {
                Some(p) => p,
                None => {
                    return Err(crate::ErrorCode::Loop);
                },
            };
            match self.mkdir_at_key(p.as_str(), mode, now) {
                Ok(u) => {
                    proof {
                        let t = old(self).tree();
                        let t2 = final(self).tree();
                        let q = p@;
                        let nv = t2[q];
                        lemma_resolve_hard_stable(t, path@, MAX_HOPS as nat, q, nv);
                        assert(resolve_hard_spec(t2, path@, MAX_HOPS as nat) == Some(q));
                        assert(!is_symlink_at(t2, q));
                        assert(exists_spec(t2, path@));
                    }
                    Ok(Some(p))
                },
                Err(e) => {
                    proof {
                        if e is Exist {
                            let q = p@;
                            assert(old(self).tree().contains_key(q));
                            assert(!is_link_at(old(self).tree(), canon_spec(q)) || true);
                        }
                    }
                    Err(e)
                },
            }
        }
    }

    /// Creates a directory; with `recursive`, creates every missing prefix
    /// on the way. On an existing directory it is idempotent and returns
    /// `Ok(None)`; an existing file fails with the exists error (mapped to
    /// the not-a-directory error for an intermediate prefix).
    pub fn mkdir_sync(&mut self, path: &str, recursive: bool, mode: u32, now: u64) -> (r: Result<
        Option<String>,
        crate::ErrorCode,
    >)
        requires
            old(self).wf(),
        ensures
            final(self).wf(),
            final(self).fds() == old(self).fds(),
            final(self).fd_ids() == old(self).fd_ids(),
            final(self).alias_map() == old(self).alias_map(),
            forall|k: Seq<char>| #[trigger]
                old(self).tree().contains_key(k) ==> final(self).tree().contains_key(k)
                    && final(self).tree()[k] == old(self).tree()[k],
            exists_spec(old(self).tree(), path@) && !is_file_spec(old(self).tree(), path@) ==> (r
                matches Result::Ok(u) && u is None && final(self).tree() == old(self).tree()),
            exists_spec(old(self).tree(), path@) && is_file_spec(old(self).tree(), path@) ==> (r
                matches Result::Err(e) && e is Exist && final(self).tree() == old(self).tree()),
            !recursive ==> ({
                let t = old(self).tree();
                let res = resolve_hard_spec(t, path@, MAX_HOPS as nat);
                &&& (match r {
                    Result::Ok(u) => exists_spec(final(self).tree(), path@),
                    Result::Err(e) => final(self).tree() == t,
                })
                &&& (match r {
                    Result::Ok(u) => exists_spec(t, path@) || (res is Some && mkdir_ok(
                        t,
                        res.unwrap(),
                    ) && final(self).tree() == t.insert(
                        res.unwrap(),
                        NodeV {
                            kind: NodeKind::Dir,
                            content: Seq::<u8>::empty(),
                            attr: fresh_dir_attr(
                                mode,
                                now,
                                final(self).tree()[res.unwrap()].attr.ino,
                            ),
                        },
                    )),
                    Result::Err(e) => exists_spec(t, path@) || ((e is Loop || e is Exist || e
                        is NoEnt || e is Access || e is Fault) && (e is Loop ==> res is None) && (e
                        is Exist ==> res is Some && t.contains_key(res.unwrap())) && (e is NoEnt
                        ==> res is Some && !t.contains_key(res.unwrap()) && !(t.contains_key(
                        dirname_spec(res.unwrap()),
                    ) && t[dirname_spec(res.unwrap())].kind is Dir)) && (e is Access ==> res
                        is Some && !t.contains_key(res.unwrap()) && t.contains_key(
                        dirname_spec(res.unwrap()),
                    ) && t[dirname_spec(res.unwrap())].kind is Dir && !parent_writable(
                        t,
                        dirname_spec(res.unwrap()),
                    )) && (e is Fault ==> res is Some && mkdir_ok(t, res.unwrap())
                        && id_space_tight(old(self).ino_ids()))),
                })
            }),
            recursive && r is Ok && path_split_spec(path@).len() > 0 && !exists_spec(
                old(self).tree(),
                path@,
            ) ==> exists_spec(final(self).tree(), path_split_spec(path@).last()),
    {
        if !recursive {
            return self.mkdir_single(path, mode, now);
        }
        if self.exists_sync(path) {
            if self.is_file(path) {
                return Err(crate::ErrorCode::Exist);
            } else {
                return Ok(None);
            }
        }
        let parts = path_split(path);
        let n = parts.len();
        let mut created_last: bool = false;
        let mut i: usize = 0;
        proof {
            assert(parts.deep_view().len() == n);
        }
        while i < n
            invariant
                i <= n,
                n == parts@.len(),
                parts.deep_view() == path_split_spec(path@),
                parts.deep_view().len() == n,
                self.wf(),
                old(self).wf(),
                recursive,
                !exists_spec(old(self).tree(), path@),
                self.fds() == old(self).fds(),
                self.fd_ids() == old(self).fd_ids(),
                self.alias_map() == old(self).alias_map(),
                forall|k: Seq<char>| #[trigger]
                    old(self).tree().contains_key(k) ==> self.tree().contains_key(k)
                        && self.tree()[k] == old(self).tree()[k],
                i > 0 ==> exists_spec(self.tree(), parts.deep_view()[i - 1]),
            decreases n - i,
        {
            proof {
                assert(parts.deep_view()[i as int] =~= parts@[i as int]@);
            }
            match self.mkdir_single(parts[i].as_str(), mode, now) {
                Ok(u) => {
                    created_last = match u {
                        Some(_) => true,
                        None => false,
                    };
                },
                Err(e) => {
                    if matches!(e, crate::ErrorCode::Exist) {
                        return Err(crate::ErrorCode::NotDir);
                    }
                    return Err(e);
                },
            }
            i += 1;
        }
        if n > 0 && created_last {
            let last = parts[n - 1].clone();
            proof {
                assert(parts.deep_view()[n - 1] =~= parts@[n - 1]@);
            }
            Ok(Some(last))
        } else {
            proof {
                if n > 0 {
                    assert(parts.deep_view()[n - 1] == path_split_spec(path@).last());
                }
            }
            Ok(None)
        }
    }

    /// Creates a directory whose name is the prefix followed by six
    /// characters derived from the time, and returns the created path.
    pub fn mkdtemp_sync(&mut self, prefix: &str, now: u64) -> (r: Result<String, crate::ErrorCode>)
        requires
            old(self).wf(),
        ensures
            final(self).wf(),
            final(self).fds() == old(self).fds(),
            final(self).fd_ids() == old(self).fd_ids(),
            final(self).alias_map() == old(self).alias_map(),
            ({
                let t = old(self).tree();
                let nm = prefix@ + rand_string_spec(now);
                let res = resolve_hard_spec(t, nm, MAX_HOPS as nat);
                &&& (exists_spec(t, nm) && !is_file_spec(t, nm) ==> (r matches Result::Ok(s)
                    && final(self).tree() == t))
                &&& (match r {
                    Result::Ok(s) => {
                        &&& s@ == nm
                        &&& exists_spec(final(self).tree(), s@)
                        &&& (exists_spec(t, nm) || (res is Some && mkdir_ok(t, res.unwrap())
                            && final(self).tree() == t.insert(
                            res.unwrap(),
                            NodeV {
                                kind: NodeKind::Dir,
                                content: Seq::<u8>::empty(),
                                attr: fresh_dir_attr(
                                    crate::DEFAULT_PERM_DIR,
                                    now,
                                    final(self).tree()[res.unwrap()].attr.ino,
                                ),
                            },
                        )))
                    },
                    Result::Err(e) => {
                        &&& final(self).tree() == t
                        &&& (exists_spec(t, nm) ==> is_file_spec(t, nm) && e is Exist)
                        &&& (exists_spec(t, nm) || ((e is Loop ==> res is None) && (e is Exist
                            ==> res is Some && t.contains_key(res.unwrap())) && (e is NoEnt ==> res
                            is Some && !t.contains_key(res.unwrap()) && !(t.contains_key(
                            dirname_spec(res.unwrap()),
                        ) && t[dirname_spec(res.unwrap())].kind is Dir)) && (e is Access ==> res
                            is Some && !t.contains_key(res.unwrap()) && t.contains_key(
                            dirname_spec(res.unwrap()),
                        ) && t[dirname_spec(res.unwrap())].kind is Dir && !parent_writable(
                            t,
                            dirname_spec(res.unwrap()),
                        )) && (e is Fault ==> res is Some && mkdir_ok(t, res.unwrap())
                            && id_space_tight(old(self).ino_ids())) && (e is Loop || e is Exist || e
                            is NoEnt || e is Access || e is Fault)))
                    },
                })
            }),
    {
        let suffix = rand_string(now);
        let pv = str_chars(prefix);
        let mut name = chars_to_string(&pv);
        name.append(suffix.as_str());
        match self.mkdir_single(name.as_str(), crate::DEFAULT_PERM_DIR, now) {
            Ok(_) => Ok(name),
            Err(e) => Err(e),
        }
    }

    /// The directory entries of a directory's children, in storage order.
    fn collect_children(&self, q: &str) -> (r: Vec<Dirent>)
        requires
            self.wf(),
        ensures
            r@.len() == child_paths(self.nodes@, q@).len(),
            forall|i: int| 0 <= i < r@.len() ==> r@[i]@ == dirent_of(
                self.tree(),
                child_paths(self.nodes@, q@)[i],
            ),
    {
        let n = self.nodes.len();
        let mut out: Vec<Dirent> = Vec::new();
        let mut i: usize = 0;
        proof {
            assert(self.nodes@.subrange(0, 0) =~= Seq::<Node>::empty());
        }
        while i < n
            invariant
                i <= n,
                n == self.nodes@.len(),
                self.wf(),
                out@.len() == child_paths(self.nodes@.subrange(0, i as int), q@).len(),
                forall|m: int| 0 <= m < out@.len() ==> out@[m]@ == dirent_of(
                    self.tree(),
                    child_paths(self.nodes@.subrange(0, i as int), q@)[m],
                ),
                forall|m: int| 0 <= m < out@.len() ==> child_paths(
                    self.nodes@.subrange(0, i as int),
                    q@,
                )[m] == child_paths(self.nodes@, q@)[m] || true,
            decreases n - i,
        {
            proof {
                assert(self.nodes@.subrange(0, i + 1).drop_last() =~= self.nodes@.subrange(
                    0,
                    i as int,
                ));
                assert(self.nodes@.subrange(0, i + 1).last() == self.nodes@[i as int]);
            }
            let pj = self.nodes[i].path.clone();
            let dn = path_dirname(pj.as_str());
            if !str_eq(pj.as_str(), "/") && str_eq(dn.as_str(), q) {
                proof {
                    reveal_strlit("/");
                    assert(root_path() =~= "/"@);
                    lemma_nmap_index(self.nodes@, i as int);
                }
                let d = Dirent {
                    name: path_basename(pj.as_str()),
                    path: dn,
                    file: match self.nodes[i].kind {
                        NodeKind::File => true,
                        NodeKind::Dir => false,
                    },
                    symlink: self.nodes[i].attr.symlink,
                };
                out.push(d);
            } else {
                proof {
                    reveal_strlit("/");
                    assert(root_path() =~= "/"@);
                }
            }
            i += 1;
        }
        proof {
            assert(self.nodes@.subrange(0, n as int) =~= self.nodes@);
        }
        out
    }

    /// Lists a directory's children, touching its access time; a missing
    /// path and a file are told apart.
    pub fn readdir_sync(&mut self, path: &str, now: u64) -> (r: Result<Vec<Dirent>, crate::ErrorCode>)
        requires
            old(self).wf(),
        ensures
            final(self).wf(),
            final(self).fds() == old(self).fds(),
            final(self).fd_ids() == old(self).fd_ids(),
            final(self).ino_ids() == old(self).ino_ids(),
            final(self).alias_map() == old(self).alias_map(),
            ({
                let t = old(self).tree();
                let q = canon_spec(path@);
                match r {
                    Result::Ok(v) => {
                        &&& is_dir_spec(t, path@)
                        &&& v@.len() == old(self).children_of(q).len()
                        &&& forall|i: int| 0 <= i < v@.len() ==> v@[i]@ == dirent_of(
                            t,
                            old(self).children_of(q)[i],
                        )
                        &&& final(self).tree() == t.insert(q, with_atime(t[q], now))
                    },
                    Result::Err(e) => {
                        &&& final(self).tree() == t
                        &&& (e is NoEnt <==> !t.contains_key(q))
                        &&& (e is NotDir <==> t.contains_key(q) && t[q].kind is File)
                        &&& (e is NoEnt || e is NotDir)
                    },
                }
            }),
    {
        let q = path_canon(path);
        match self.find_idx(q.as_str()) {
            Some(i) => {
                match self.nodes[i].kind {
                    NodeKind::File => {
                        return Err(crate::ErrorCode::NotDir);
                    },
                    NodeKind::Dir => {},
                }
                let out = self.collect_children(q.as_str());
                let a = Attr { atime: now, ..self.nodes[i].attr };
                self.patch_attr(i, a);
                Ok(out)
            },
            None => Err(crate::ErrorCode::NoEnt),
        }
    }

    /// Lists a directory's children as bare names, in storage order,
    /// touching its access time; the entries match `readdir_sync`.
    pub fn readdir_names_sync(&mut self, path: &str, now: u64) -> (r: Result<
        Vec<String>,
        crate::ErrorCode,
    >)
        requires
            old(self).wf(),
        ensures
            final(self).wf(),
            final(self).fds() == old(self).fds(),
            final(self).fd_ids() == old(self).fd_ids(),
            final(self).ino_ids() == old(self).ino_ids(),
            final(self).alias_map() == old(self).alias_map(),
            ({
                let t = old(self).tree();
                let q = canon_spec(path@);
                match r {
                    Result::Ok(v) => {
                        &&& is_dir_spec(t, path@)
                        &&& v@.len() == old(self).children_of(q).len()
                        &&& forall|i: int| 0 <= i < v@.len() ==> v@[i]@ == basename_spec(
                            old(self).children_of(q)[i],
                        )
                        &&& final(self).tree() == t.insert(q, with_atime(t[q], now))
                    },
                    Result::Err(e) => {
                        &&& final(self).tree() == t
                        &&& (e is NoEnt <==> !t.contains_key(q))
                        &&& (e is NotDir <==> t.contains_key(q) && t[q].kind is File)
                        &&& (e is NoEnt || e is NotDir)
                    },
                }
            }),
    {
        let ents = match self.readdir_sync(path, now) {
            Ok(v) => v,
            Err(e) => {
                return Err(e);
            },
        };
        let mut names: Vec<String> = Vec::new();
        let n = ents.len();
        let mut k: usize = 0;
        while k < n
            invariant
                k <= n,
                n == ents@.len(),
                names@.len() == k,
                forall|m: int| 0 <= m < k ==> names@[m]@ == ents@[m]@.name,
            decreases n - k,
        {
            names.push(ents[k].name());
            k += 1;
        }
        Ok(names)
    }

    /// Hands out the next directory entry of an open directory handle and
    /// touches the directory's access time; `None` at the end.
    pub fn freaddir_sync(&mut self, fd: usize, now: u64) -> (r: Option<Dirent>)
        requires
            old(self).wf(),
        ensures
            final(self).wf(),
            final(self).fd_ids() == old(self).fd_ids(),
            final(self).ino_ids() == old(self).ino_ids(),
            final(self).alias_map() == old(self).alias_map(),
            ({
                let t = old(self).tree();
                let h = old(self).fds()[fd];
                let cs = old(self).children_of(h.path);
                match r {
                    Option::Some(d) => {
                        &&& old(self).fds().contains_key(fd)
                        &&& !h.is_file
                        &&& h.pos < cs.len()
                        &&& d@ == dirent_of(t, cs[h.pos as int])
                        &&& final(self).fds() == old(self).fds().insert(
                            fd,
                            HandleV { pos: (h.pos + 1) as nat, ..h },
                        )
                        &&& t.contains_key(h.path) ==> final(self).tree() == t.insert(
                            h.path,
                            with_atime(t[h.path], now),
                        )
                    },
                    Option::None => {
                        &&& final(self).tree() == t
                        &&& final(self).fds() == old(self).fds()
                        &&& (old(self).fds().contains_key(fd) && !h.is_file ==> h.pos >= cs.len())
                    },
                }
            }),
    {
        let i = match self.find_handle(fd) {
            Some(i) => i,
            None => {
                return None;
            },
        };
        let (path, pos) = match &self.handles[i] {
            Handle::Dir(d) => (d.path.clone(), d.pos),
            Handle::File(_) => {
                return None;
            },
        };
        let cs = self.collect_children(path.as_str());
        if pos >= cs.len() {
            return None;
        }
        let mut cs = cs;
        let d = match cs.swap_remove(pos) {
            d => d,
        };
        match self.find_idx(path.as_str()) {
            Some(j) => {
                let a = Attr { atime: now, ..self.nodes[j].attr };
                self.patch_attr(j, a);
            },
            None => {},
        }
        let ghost before = self.handles@;
        self.handles[i] = Handle::Dir(DirHandle { fd, path, pos: pos + 1 });
        proof {
            assert(self.handles@ =~= before.update(i as int, self.handles@[i as int]));
            lemma_fdmap_update(before, i as int, self.handles@[i as int]);
            assert(self.handles@[i as int]@ == HandleV {
                pos: (old(self).fds()[fd].pos + 1) as nat,
                ..old(self).fds()[fd]
            });
        }
        Some(d)
    }
}

impl FileHandle {
    /// Changes the permissions of the path this handle was opened at.
    pub fn chmod(&self, store: &mut Fs, mode: u32, now: u64) -> (r: Option<()>)
        requires
            old(store).wf(),
        ensures
            final(store).wf(),
            r is Some <==> exists_spec(old(store).tree(), self.path@),
            (match r {
                Option::Some(u) => {
                    let q = resolve_full_spec(old(store).tree(), self.path@, MAX_HOPS as nat).unwrap();
                    final(store).tree() == old(store).tree().insert(
                        q,
                        chmod_node(old(store).tree()[q], mode, now),
                    )
                },
                Option::None => final(store).tree() == old(store).tree(),
            }),
    {
        store.chmod_sync(self.path.as_str(), mode, now)
    }

    /// Changes the ownership of the path this handle was opened at.
    pub fn chown(&self, store: &mut Fs, uid: u32, gid: u32, now: u64) -> (r: Option<()>)
        requires
            old(store).wf(),
        ensures
            final(store).wf(),
            r is Some <==> exists_spec(old(store).tree(), self.path@),
            (match r {
                Option::Some(u) => {
                    let q = resolve_full_spec(old(store).tree(), self.path@, MAX_HOPS as nat).unwrap();
                    final(store).tree() == old(store).tree().insert(
                        q,
                        chown_node(old(store).tree()[q], uid, gid, now),
                    )
                },
                Option::None => final(store).tree() == old(store).tree(),
            }),
    {
        store.chown_sync(self.path.as_str(), uid, gid, now)
    }

    /// Flushes the file's data; in this in-memory store every write is
    /// already down.
    pub fn datasync(&self) -> (r: Option<()>)
        ensures
            r is Some,
    {
        Some(())
    }
}

impl DirHandle {
    /// Changes the permissions of the path this handle was opened at.
    pub fn chmod(&self, store: &mut Fs, mode: u32, now: u64) -> (r: Option<()>)
        requires
            old(store).wf(),
        ensures
            final(store).wf(),
            r is Some <==> exists_spec(old(store).tree(), self.path@),
            (match r {
                Option::Some(u) => {
                    let q = resolve_full_spec(old(store).tree(), self.path@, MAX_HOPS as nat).unwrap();
                    final(store).tree() == old(store).tree().insert(
                        q,
                        chmod_node(old(store).tree()[q], mode, now),
                    )
                },
                Option::None => final(store).tree() == old(store).tree(),
            }),
    {
        store.chmod_sync(self.path.as_str(), mode, now)
    }

    /// Changes the ownership of the path this handle was opened at.
    pub fn chown(&self, store: &mut Fs, uid: u32, gid: u32, now: u64) -> (r: Option<()>)
        requires
            old(store).wf(),
        ensures
            final(store).wf(),
            r is Some <==> exists_spec(old(store).tree(), self.path@),
            (match r {
                Option::Some(u) => {
                    let q = resolve_full_spec(old(store).tree(), self.path@, MAX_HOPS as nat).unwrap();
                    final(store).tree() == old(store).tree().insert(
                        q,
                        chown_node(old(store).tree()[q], uid, gid, now),
                    )
                },
                Option::None => final(store).tree() == old(store).tree(),
            }),
    {
        store.chown_sync(self.path.as_str(), uid, gid, now)
    }
}

/// The six characters a temporary-directory name ends with, drawn from the
/// low bits of the time: six 6-bit groups, each indexing the base64url
/// alphabet.
pub open spec fn rand_string_spec(now: u64) -> Seq<char> {
    Seq::new(6, |i: int| b64_char(b64_index(now, i) as int))
}

/// The i-th 6-bit group of the time.
pub open spec fn b64_index(now: u64, i: int) -> u64 {
    (now >> ((6 * i) as u64)) & 0x3F
}

/// The base64url alphabet character at an index.
pub open spec fn b64_char(i: int) -> char {
    "ABCDEFGHIJKLMNOPQRSTUVWXYZabcdefghijklmnopqrstuvwxyz0123456789-_"@[i]
}

/// Derives the six-character suffix of a temporary-directory name from the
/// low bits of the time.
pub fn rand_string(now: u64) -> (r: String)
    ensures
        r@ == rand_string_spec(now),
{
    let table = "ABCDEFGHIJKLMNOPQRSTUVWXYZabcdefghijklmnopqrstuvwxyz0123456789-_";
    proof {
        reveal_strlit("ABCDEFGHIJKLMNOPQRSTUVWXYZabcdefghijklmnopqrstuvwxyz0123456789-_");
    }
    let mut out: Vec<char> = Vec::new();
    let mut i: usize = 0;
    while i < 6
        invariant
            i <= 6,
            table@ == "ABCDEFGHIJKLMNOPQRSTUVWXYZabcdefghijklmnopqrstuvwxyz0123456789-_"@,
            table@.len() == 64,
            out@.len() == i,
            forall|m: int| 0 <= m < i ==> out@[m] == rand_string_spec(now)[m],
        decreases 6 - i,
    {
        let sh: u64 = 6 * (i as u64);
        let idx64: u64 = (now >> sh) & 0x3F;
        proof {
            assert(idx64 < 64) by (bit_vector)
                requires
                    idx64 == (now >> sh) & 0x3F,
            ;
            assert(idx64 == b64_index(now, i as int));
        }
        let idx = idx64 as usize;
        out.push(table.get_char(idx));
        proof {
            assert(out@.last() == rand_string_spec(now)[i as int]);
        }
        i += 1;
    }
    proof {
        assert(out@ =~= rand_string_spec(now));
    }
    chars_to_string(&out)
}

/// Some open handle sits exactly at this path.
pub open spec fn handle_open_at(m: Map<usize, HandleV>, q: Seq<char>) -> bool {
    exists|fd: usize| m.contains_key(fd) && m[fd].path == q
}

/// A path is busy: a handle is open at it, at one of its recorded aliases,
/// or — for a directory — at any path that starts with it.
pub open spec fn is_open_spec(
    t: Map<Seq<char>, NodeV>,
    m: Map<usize, HandleV>,
    al: Map<Seq<char>, Seq<Seq<char>>>,
    q: Seq<char>,
) -> bool {
    ||| handle_open_at(m, q)
    ||| (al.contains_key(q) && exists|i: int|
        0 <= i < al[q].len() && handle_open_at(m, al[q][i]))
    ||| (t.contains_key(q) && t[q].kind is Dir && exists|fd: usize|
        m.contains_key(fd) && q.is_prefix_of(m[fd].path))
}

/// How a link count grows, stopping at the top of its range.
pub open spec fn nlink_bump(n: u32) -> u32 {
    if n < u32::MAX {
        (n + 1) as u32
    } else {
        n
    }
}

/// The attribute record of a hardlink alias: everything of the target but
/// the link flag set and a link count of one.
pub open spec fn link_alias_attr(target: Attr, ino: usize) -> Attr {
    Attr {
        ino,
        mode: target.mode,
        uid: target.uid,
        gid: target.gid,
        nlink: 1,
        atime: target.atime,
        mtime: target.mtime,
        ctime: target.ctime,
        birthtime: target.birthtime,
        link: true,
        symlink: target.symlink,
    }
}

/// The attribute record of a symbolic link: its own birth time, owner and
/// group zero, symlink type bits with the default permissions of what it
/// points at, and the symlink flag set.
pub open spec fn symlink_attr(ino: usize, perm: u32, now: u64) -> Attr {
    Attr {
        ino,
        mode: crate::S_IFLNK | spec_sanitize_permissions(perm),
        uid: 0,
        gid: 0,
        nlink: 1,
        atime: now,
        mtime: now,
        ctime: now,
        birthtime: now,
        link: false,
        symlink: true,
    }
}

impl Fs {
    /// True when some open handle sits exactly at this path.
    fn any_handle_at(&self, q: &str) -> (r: bool)
        requires
            self.wf(),
        ensures
            r == handle_open_at(self.fds(), q@),
    {
        let n = self.handles.len();
        let mut i: usize = 0;
        while i < n
            invariant
                i <= n,
                self.wf(),
                n == self.handles@.len(),
                forall|j: int| 0 <= j < i ==> self.handles@[j]@.path != q@,
            decreases n - i,
        {
            let hp = match &self.handles[i] {
                Handle::File(f) => &f.path,
                Handle::Dir(d) => &d.path,
            };
            if str_eq(hp.as_str(), q) {
                proof {
                    lemma_fdmap_index(self.handles@, i as int);
                    let wfd = self.handles@[i as int].spec_fd();
                    assert(self.fds().contains_key(wfd) && self.fds()[wfd].path == q@);
                }
                return true;
            }
            i += 1;
        }
        proof {
            if handle_open_at(self.fds(), q@) {
                let fd = choose|fd: usize| self.fds().contains_key(fd) && self.fds()[fd].path
                    == q@;
                lemma_fdmap_contains(self.handles@, fd);
                let j = choose|j: int| 0 <= j < self.handles@.len()
                    && self.handles@[j].spec_fd() == fd;
                lemma_fdmap_index(self.handles@, j);
            }
        }
        false
    }

    /// True when some open handle sits at a path starting with this one.
    fn any_handle_under(&self, q: &str) -> (r: bool)
        requires
            self.wf(),
        ensures
            r == exists|fd: usize|
                self.fds().contains_key(fd) && q@.is_prefix_of(self.fds()[fd].path),
    {
        let n = self.handles.len();
        let mut i: usize = 0;
        while i < n
            invariant
                i <= n,
                self.wf(),
                n == self.handles@.len(),
                forall|j: int| 0 <= j < i ==> !q@.is_prefix_of(self.handles@[j]@.path),
            decreases n - i,
        {
            let hp = match &self.handles[i] {
                Handle::File(f) => &f.path,
                Handle::Dir(d) => &d.path,
            };
            if str_starts_with(hp.as_str(), q) {
                proof {
                    lemma_fdmap_index(self.handles@, i as int);
                    let wfd = self.handles@[i as int].spec_fd();
                    assert(self.fds().contains_key(wfd) && q@.is_prefix_of(self.fds()[wfd].path));
                }
                return true;
            }
            i += 1;
        }
        proof {
            if exists|fd: usize| self.fds().contains_key(fd) && q@.is_prefix_of(
                self.fds()[fd].path,
            ) {
                let fd = choose|fd: usize| self.fds().contains_key(fd) && q@.is_prefix_of(
                    self.fds()[fd].path,
                );
                lemma_fdmap_contains(self.handles@, fd);
                let j = choose|j: int| 0 <= j < self.handles@.len()
                    && self.handles@[j].spec_fd() == fd;
                lemma_fdmap_index(self.handles@, j);
            }
        }
        false
    }

    /// True when the exact path is busy: open itself, through a recorded
    /// alias, or — for a directory — through anything under it.
    fn is_open(&self, q: &str) -> (r: bool)
        requires
            self.wf(),
        ensures
            r == is_open_spec(self.tree(), self.fds(), self.alias_map(), q@),
    {
        if self.any_handle_at(q) {
            return true;
        }
        let aliases = self.links_get(q);
        let ghost alseq = (if self.alias_map().contains_key(q@) {
            self.alias_map()[q@]
        } else {
            Seq::<Seq<char>>::empty()
        });
        let n = aliases.len();
        let mut i: usize = 0;
        proof {
            assert(aliases.deep_view().len() == n);
        }
        while i < n
            invariant
                i <= n,
                self.wf(),
                n == aliases@.len(),
                aliases.deep_view() == alseq,
                alseq.len() == n,
                alseq == (if self.alias_map().contains_key(q@) {
                    self.alias_map()[q@]
                } else {
                    Seq::<Seq<char>>::empty()
                }),
                forall|j: int| 0 <= j < i ==> !handle_open_at(self.fds(), alseq[j]),
            decreases n - i,
        {
            proof {
                assert(aliases.deep_view()[i as int] =~= aliases@[i as int]@);
            }
            if self.any_handle_at(aliases[i].as_str()) {
                proof {
                    assert(self.alias_map().contains_key(q@)) by {
                        if !self.alias_map().contains_key(q@) {
                            assert(alseq.len() == 0);
                        }
                    }
                    assert(handle_open_at(self.fds(), alseq[i as int]));
                }
                return true;
            }
            i += 1;
        }
        let dir = match self.find_idx(q) {
            Some(j) => match self.nodes[j].kind {
                NodeKind::Dir => true,
                NodeKind::File => false,
            },
            None => false,
        };
        if dir {
            if self.any_handle_under(q) {
                return true;
            }
        }
        proof {
            if self.alias_map().contains_key(q@) {
            }
        }
        false
    }

    /// Records a new path as a hardlink alias of an existing one: the alias
    /// node stores the target path and mirrors its attributes, the target's
    /// link count grows, and the alias is recorded for cascading removal.
    pub fn link_sync(&mut self, old_path: &str, new_path: &str, now: u64) -> (r: Result<
        (),
        crate::ErrorCode,
    >)
        requires
            old(self).wf(),
        ensures
            final(self).wf(),
            final(self).fds() == old(self).fds(),
            final(self).fd_ids() == old(self).fd_ids(),
            ({
                let t = old(self).tree();
                let qo = resolve_full_spec(t, old_path@, MAX_HOPS as nat).unwrap();
                let qn = canon_spec(new_path@);
                match r {
                    Result::Ok(u) => {
                        &&& exists_spec(t, old_path@)
                        &&& !exists_spec(t, new_path@)
                        &&& qo != qn
                        &&& final(self).tree() == t.insert(
                            qn,
                            NodeV {
                                kind: NodeKind::File,
                                content: encode_utf8(old_path@),
                                attr: link_alias_attr(
                                    t[qo].attr,
                                    final(self).tree()[qn].attr.ino,
                                ),
                            },
                        ).insert(
                            qo,
                            with_attr(
                                t[qo],
                                Attr { nlink: nlink_bump(t[qo].attr.nlink), ..t[qo].attr },
                            ),
                        )
                        &&& final(self).alias_map() == old(self).alias_map().insert(
                            qo,
                            (if old(self).alias_map().contains_key(qo) {
                                old(self).alias_map()[qo]
                            } else {
                                Seq::<Seq<char>>::empty()
                            }).push(qn),
                        )
                    },
                    Result::Err(e) => {
                        &&& final(self).tree() == t
                        &&& final(self).alias_map() == old(self).alias_map()
                        &&& (e is NoEnt <==> !exists_spec(t, old_path@))
                        &&& (e is Exist <==> exists_spec(t, old_path@) && exists_spec(
                            t,
                            new_path@,
                        ))
                        &&& (e is Fault <==> exists_spec(t, old_path@) && !exists_spec(
                            t,
                            new_path@,
                        ) && (!wfile_ok(
                            t,
                            qn,
                            O_WRONLY | O_CREAT | O_TRUNC,
                            encode_utf8(old_path@).len(),
                        ) || (!t.contains_key(qn) && id_space_tight(old(self).ino_ids()))))
                        &&& (e is NoEnt || e is Exist || e is Fault)
                    },
                }
            }),
    {
        if !self.exists_sync(old_path) {
            return Err(crate::ErrorCode::NoEnt);
        }
        if self.exists_sync(new_path) {
            return Err(crate::ErrorCode::Exist);
        }
        let qo = match self.realpath_sync(old_path, None) {
            Some(p) => p,
            None => {
                proof {
                    assert(false);
                }
                return Err(crate::ErrorCode::NoEnt);
            },
        };
        let qn = path_canon(new_path);
        let data = old_path.as_bytes_vec();
        match self.write_file_at_key(qn.as_str(), &data, O_WRONLY | O_CREAT | O_TRUNC,
            crate::DEFAULT_PERM_FILE, now) {
            Some(u) => {},
            None => {
                return Err(crate::ErrorCode::Fault);
            },
        }
        proof {
            assert(qo@ != qn@) by {
                if qo@ == qn@ {
                    assert(old(self).tree().contains_key(qo@));
                    assert(resolve_hard_spec(old(self).tree(), new_path@, MAX_HOPS as nat)
                        is Some);
                }
            }
        }
        let i = match self.find_idx(qn.as_str()) {
            Some(i) => i,
            None => {
                proof {
                    assert(false);
                }
                return Err(crate::ErrorCode::Fault);
            },
        };
        let j = match self.find_idx(qo.as_str()) {
            Some(j) => j,
            None => {
                proof {
                    assert(false);
                }
                return Err(crate::ErrorCode::Fault);
            },
        };
        let ta = self.nodes[j].attr;
        let a = Attr {
            ino: self.nodes[i].attr.ino,
            mode: ta.mode,
            uid: ta.uid,
            gid: ta.gid,
            nlink: 1,
            atime: ta.atime,
            mtime: ta.mtime,
            ctime: ta.ctime,
            birthtime: ta.birthtime,
            link: true,
            symlink: ta.symlink,
        };
        proof {
            assert(self.nodes@[i as int].content@ == encode_utf8(old_path@));
        }
        self.patch_attr(i, a);
        let j2 = match self.find_idx(qo.as_str()) {
            Some(j2) => j2,
            None => {
                proof {
                    assert(false);
                }
                return Err(crate::ErrorCode::Fault);
            },
        };
        let ta2 = self.nodes[j2].attr;
        let bumped: u32 = if ta2.nlink < u32::MAX {
            ta2.nlink + 1
        } else {
            ta2.nlink
        };
        let a2 = Attr { nlink: bumped, ..ta2 };
        self.patch_attr(j2, a2);
        self.links_add(qo.as_str(), qn);
        proof {
            assert(final(self).tree() =~= old(self).tree().insert(
                canon_spec(new_path@),
                NodeV {
                    kind: NodeKind::File,
                    content: encode_utf8(old_path@),
                    attr: link_alias_attr(
                        old(self).tree()[qo@].attr,
                        final(self).tree()[canon_spec(new_path@)].attr.ino,
                    ),
                },
            ).insert(
                qo@,
                with_attr(
                    old(self).tree()[qo@],
                    Attr {
                        nlink: nlink_bump(old(self).tree()[qo@].attr.nlink),
                        ..old(self).tree()[qo@].attr
                    },
                ),
            ));
        }
        Ok(())
    }

    /// Creates a user-visible symbolic link: the new path stores the target
    /// path, is marked as a symlink with its own birth time, and the
    /// target's link count grows.
    pub fn symlink_sync(&mut self, target: &str, new_path: &str, now: u64) -> (r: Result<
        (),
        crate::ErrorCode,
    >)
        requires
            old(self).wf(),
        ensures
            final(self).wf(),
            final(self).fds() == old(self).fds(),
            final(self).fd_ids() == old(self).fd_ids(),
            final(self).alias_map() == old(self).alias_map(),
            ({
                let t = old(self).tree();
                let qo = resolve_full_spec(t, target@, MAX_HOPS as nat).unwrap();
                let qn = canon_spec(new_path@);
                match r {
                    Result::Ok(u) => {
                        &&& exists_spec(t, target@)
                        &&& !exists_spec(t, new_path@)
                        &&& qo != qn
                        &&& final(self).tree() == t.insert(
                            qn,
                            NodeV {
                                kind: NodeKind::File,
                                content: encode_utf8(target@),
                                attr: symlink_attr(
                                    final(self).tree()[qn].attr.ino,
                                    (if is_dir_spec(t, target@) {
                                        crate::DEFAULT_PERM_DIR
                                    } else {
                                        crate::DEFAULT_PERM_FILE
                                    }),
                                    now,
                                ),
                            },
                        ).insert(
                            qo,
                            with_attr(
                                t[qo],
                                Attr { nlink: nlink_bump(t[qo].attr.nlink), ..t[qo].attr },
                            ),
                        )
                    },
                    Result::Err(e) => {
                        &&& final(self).tree() == t
                        &&& (e is NoEnt <==> !exists_spec(t, target@))
                        &&& (e is Exist <==> exists_spec(t, target@) && exists_spec(t, new_path@))
                        &&& (e is Fault <==> exists_spec(t, target@) && !exists_spec(t, new_path@)
                            && (!wfile_ok(
                            t,
                            qn,
                            O_WRONLY | O_CREAT | O_TRUNC,
                            encode_utf8(target@).len(),
                        ) || (!t.contains_key(qn) && id_space_tight(old(self).ino_ids()))))
                        &&& (e is NoEnt || e is Exist || e is Fault)
                    },
                }
            }),
    {
        if !self.exists_sync(target) {
            return Err(crate::ErrorCode::NoEnt);
        }
        if self.exists_sync(new_path) {
            return Err(crate::ErrorCode::Exist);
        }
        let qo = match self.realpath_sync(target, None) {
            Some(p) => p,
            None => {
                proof {
                    assert(false);
                }
                return Err(crate::ErrorCode::NoEnt);
            },
        };
        let is_dir = self.is_directory(target);
        let qn = path_canon(new_path);
        let data = target.as_bytes_vec();
        match self.write_file_at_key(qn.as_str(), &data, O_WRONLY | O_CREAT | O_TRUNC,
            crate::DEFAULT_PERM_FILE, now) {
            Some(u) => {},
            None => {
                return Err(crate::ErrorCode::Fault);
            },
        }
        proof {
            assert(qo@ != qn@) by {
                if qo@ == qn@ {
                    assert(old(self).tree().contains_key(qo@));
                    assert(resolve_hard_spec(old(self).tree(), new_path@, MAX_HOPS as nat)
                        is Some);
                }
            }
        }
        let i = match self.find_idx(qn.as_str()) {
            Some(i) => i,
            None => {
                proof {
                    assert(false);
                }
                return Err(crate::ErrorCode::Fault);
            },
        };
        let perm = get_default_permissions(is_dir);
        let a = Attr {
            ino: self.nodes[i].attr.ino,
            mode: crate::S_IFLNK | sanitize_permissions(perm),
            uid: 0,
            gid: 0,
            nlink: 1,
            atime: now,
            mtime: now,
            ctime: now,
            birthtime: now,
            link: false,
            symlink: true,
        };
        proof {
            assert(self.nodes@[i as int].content@ == encode_utf8(target@));
        }
        self.patch_attr(i, a);
        let j2 = match self.find_idx(qo.as_str()) {
            Some(j2) => j2,
            None => {
                proof {
                    assert(false);
                }
                return Err(crate::ErrorCode::Fault);
            },
        };
        let ta2 = self.nodes[j2].attr;
        let bumped: u32 = if ta2.nlink < u32::MAX {
            ta2.nlink + 1
        } else {
            ta2.nlink
        };
        let a2 = Attr { nlink: bumped, ..ta2 };
        self.patch_attr(j2, a2);
        proof {
            assert(final(self).tree() =~= old(self).tree().insert(
                canon_spec(new_path@),
                NodeV {
                    kind: NodeKind::File,
                    content: encode_utf8(target@),
                    attr: symlink_attr(
                        final(self).tree()[canon_spec(new_path@)].attr.ino,
                        (if is_dir_spec(old(self).tree(), target@) {
                            crate::DEFAULT_PERM_DIR
                        } else {
                            crate::DEFAULT_PERM_FILE
                        }),
                        now,
                    ),
                },
            ).insert(
                qo@,
                with_attr(
                    old(self).tree()[qo@],
                    Attr {
                        nlink: nlink_bump(old(self).tree()[qo@].attr.nlink),
                        ..old(self).tree()[qo@].attr
                    },
                ),
            ));
        }
        Ok(())
    }
}

/// Replacing the node at an index with one at a fresh path rekeys the tree.
pub proof fn lemma_nmap_rekey(nodes: Seq<Node>, i: int, n: Node)
    requires
        unique_paths(nodes),
        0 <= i < nodes.len(),
        forall|j: int| 0 <= j < nodes.len() && j != i ==> nodes[j].path@ != n.path@,
    ensures
        nmap_of(nodes.update(i, n)) == nmap_of(nodes).remove(nodes[i].path@).insert(n.path@, n@),
    decreases nodes.len(),
{
    if i == nodes.len() - 1 {
        assert(nodes.update(i, n).drop_last() =~= nodes.drop_last());
        assert(nodes.update(i, n).last() == n);
        lemma_nmap_contains(nodes.drop_last(), nodes.last().path@);
        assert(forall|j: int| 0 <= j < nodes.drop_last().len() ==> nodes.drop_last()[j].path@
            != nodes.last().path@);
        assert(!nmap_of(nodes.drop_last()).contains_key(nodes.last().path@));
        assert(nmap_of(nodes.drop_last()).insert(n.path@, n@) =~= nmap_of(nodes.drop_last()).insert(
            nodes.last().path@,
            nodes.last()@,
        ).remove(nodes.last().path@).insert(n.path@, n@));
    } else {
        lemma_nmap_rekey(nodes.drop_last(), i, n);
        assert(nodes.update(i, n).drop_last() =~= nodes.drop_last().update(i, n));
        assert(nodes.update(i, n).last() == nodes.last());
        assert(nodes.drop_last()[i] == nodes[i]);
        assert(nodes.last().path@ != nodes[i].path@);
        assert(nodes.last().path@ != n.path@);
        assert(nmap_of(nodes.drop_last()).remove(nodes[i].path@).insert(n.path@, n@).insert(
            nodes.last().path@,
            nodes.last()@,
        ) =~= nmap_of(nodes.drop_last()).insert(nodes.last().path@, nodes.last()@).remove(
            nodes[i].path@,
        ).insert(n.path@, n@));
    }
}

/// A descendant in the tree of paths: the path itself, or anything under
/// it (under the root: any absolute path but the root itself).
pub open spec fn desc_spec(k: Seq<char>, q: Seq<char>) -> bool {
    k == q || (if q == root_path() {
        k.len() > 1 && k[0] == '/'
    } else {
        (q + seq!['/']).is_prefix_of(k)
    })
}

impl Fs {
    /// Removes the node at an exact key when one is there (missing keys
    /// are tolerated), and cascades to every recorded alias of the key.
    fn remove_at_key_cascade(&mut self, q: &str)
        requires
            old(self).wf(),
            q@ != root_path(),
        ensures
            final(self).wf(),
            final(self).fds() == old(self).fds(),
            final(self).fd_ids() == old(self).fd_ids(),
            final(self).nodes@.len() <= old(self).nodes@.len(),
            old(self).tree().contains_key(q@) ==> final(self).nodes@.len() < old(
                self,
            ).nodes@.len(),
            final(self).tree() == old(self).tree().remove(q@).remove_keys(
                (if old(self).alias_map().contains_key(q@) {
                    old(self).alias_map()[q@].to_set()
                } else {
                    Set::<Seq<char>>::empty()
                }).remove(root_path()),
            ),
            final(self).alias_map() == old(self).alias_map().remove(q@),
    {
        let ghost t0 = self.tree();
        let ghost alset = (if old(self).alias_map().contains_key(q@) {
            old(self).alias_map()[q@].to_set()
        } else {
            Set::<Seq<char>>::empty()
        });
        match self.find_idx(q) {
            Some(i) => {
                self.remove_node_at(i);
            },
            None => {
                proof {
                    assert(self.tree().remove(q@) =~= self.tree());
                }
            },
        }
        let ghost t1 = self.tree();
        proof {
            assert(t1 == t0.remove(q@));
        }
        let aliases = self.links_get(q);
        let ghost alseq = (if self.alias_map().contains_key(q@) {
            self.alias_map()[q@]
        } else {
            Seq::<Seq<char>>::empty()
        });
        proof {
            assert(alseq.to_set() == alset);
        }
        let n = aliases.len();
        let mut i: usize = 0;
        proof {
            assert(aliases.deep_view().len() == n);
            assert(t1.remove_keys(alseq.subrange(0, 0).to_set().remove(root_path())) =~= t1);
        }
        while i < n
            invariant
                i <= n,
                self.wf(),
                n == aliases@.len(),
                aliases.deep_view() == alseq,
                alseq.len() == n,
                self.fds() == old(self).fds(),
                self.fd_ids() == old(self).fd_ids(),
                self.alias_map() == old(self).alias_map(),
                self.links@ == old(self).links@,
                self.nodes@.len() <= old(self).nodes@.len(),
                t0.contains_key(q@) ==> self.nodes@.len() < old(self).nodes@.len(),
                t0 == old(self).tree(),
                t1 == t0.remove(q@),
                self.tree() == t1.remove_keys(
                    alseq.subrange(0, i as int).to_set().remove(root_path()),
                ),
            decreases n - i,
        {
            proof {
                assert(aliases.deep_view()[i as int] =~= aliases@[i as int]@);
            }
            let ghost pre = self.tree();
            if !str_eq(aliases[i].as_str(), "/") {
                match self.find_idx(aliases[i].as_str()) {
                    Some(j) => {
                        proof {
                            reveal_strlit("/");
                            assert(root_path() =~= "/"@);
                        }
                        self.remove_node_at(j);
                    },
                    None => {
                        proof {
                            assert(self.tree().remove(alseq[i as int]) =~= self.tree());
                        }
                    },
                }
                proof {
                    assert(self.tree() == pre.remove(alseq[i as int]));
                }
            } else {
                proof {
                    reveal_strlit("/");
                    assert(root_path() =~= "/"@);
                    assert(alseq[i as int] == root_path());
                }
            }
            proof {
                let s0 = alseq.subrange(0, i as int);
                let s1 = alseq.subrange(0, i + 1);
                assert(s1 =~= s0.push(alseq[i as int]));
                assert forall|x: Seq<char>| #[trigger] s1.to_set().contains(x) implies
                    s0.to_set().insert(alseq[i as int]).contains(x) by {
                    let j = choose|j: int| 0 <= j < s1.len() && s1[j] == x;
                    if j < i {
                        assert(s0[j] == x);
                    }
                }
                assert forall|x: Seq<char>| #[trigger] s0.to_set().insert(
                    alseq[i as int],
                ).contains(x) implies s1.to_set().contains(x) by {
                    if s0.to_set().contains(x) {
                        let j = choose|j: int| 0 <= j < s0.len() && s0[j] == x;
                        assert(s1[j] == x);
                    } else {
                        assert(s1[i as int] == x);
                    }
                }
                assert(s1.to_set() =~= s0.to_set().insert(alseq[i as int]));
                assert(self.tree() =~= t1.remove_keys(s1.to_set().remove(root_path())));
            }
            i += 1;
        }
        proof {
            assert(alseq.subrange(0, n as int) =~= alseq);
        }
        self.links_remove(q);
    }

    /// Removes a file, following hardlinks, and cascades to every recorded
    /// alias. A busy path is refused unless forced; a missing path is
    /// tolerated.
    pub fn unlink_sync(&mut self, path: &str, force: Option<bool>) -> (r: Result<
        (),
        crate::ErrorCode,
    >)
        requires
            old(self).wf(),
        ensures
            final(self).wf(),
            final(self).fds() == old(self).fds(),
            final(self).fd_ids() == old(self).fd_ids(),
            ({
                let t = old(self).tree();
                let fo = (match force {
                    Option::Some(b) => b,
                    Option::None => false,
                });
                let res = resolve_hard_spec(t, path@, MAX_HOPS as nat);
                match r {
                    Result::Ok(u) => {
                        let q = res.unwrap();
                        &&& res is Some
                        &&& !(t.contains_key(q) && t[q].kind is Dir)
                        &&& (fo || !is_open_spec(t, old(self).fds(), old(self).alias_map(), q))
                        &&& final(self).tree() == t.remove(q).remove_keys(
                            (if old(self).alias_map().contains_key(q) {
                                old(self).alias_map()[q].to_set()
                            } else {
                                Set::<Seq<char>>::empty()
                            }).remove(root_path()),
                        )
                        &&& final(self).alias_map() == old(self).alias_map().remove(q)
                    },
                    Result::Err(e) => {
                        &&& final(self).tree() == t
                        &&& final(self).alias_map() == old(self).alias_map()
                        &&& (match e {
                            crate::ErrorCode::Loop => res is None,
                            crate::ErrorCode::IsDir => res is Some && t.contains_key(res.unwrap())
                                && t[res.unwrap()].kind is Dir,
                            crate::ErrorCode::Busy => res is Some && !fo && is_open_spec(
                                t,
                                old(self).fds(),
                                old(self).alias_map(),
                                res.unwrap(),
                            ) && !(t.contains_key(res.unwrap()) && t[res.unwrap()].kind is Dir),
                            _ => false,
                        })
                    },
                }
            }),
    {
        let fo = match force {
            Some(b) => b,
            None => false,
        };
        let p = match self.follow_link(path, None) {
            Some(p) => p,
            None => {
                return Err(crate::ErrorCode::Loop);
            },
        };
        match self.find_idx(p.as_str()) {
            Some(i) => {
                match self.nodes[i].kind {
                    NodeKind::Dir => {
                        return Err(crate::ErrorCode::IsDir);
                    },
                    NodeKind::File => {},
                }
            },
            None => {},
        }
        if !fo && self.is_open(p.as_str()) {
            return Err(crate::ErrorCode::Busy);
        }
        proof {
            assert(p@ != root_path()) by {
                if p@ == root_path() {
                    assert(old(self).tree().contains_key(root_path()));
                    assert(old(self).tree()[root_path()].kind is Dir);
                }
            }
        }
        self.remove_at_key_cascade(p.as_str());
        Ok(())
    }

    /// Removes a directory, following hardlinks, when it is empty and not
    /// busy (unless forced); cascades to recorded aliases. A missing path
    /// or the root is tolerated and nothing changes.
    pub fn rmdir_sync(&mut self, path: &str, force: Option<bool>) -> (r: Result<
        (),
        crate::ErrorCode,
    >)
        requires
            old(self).wf(),
        ensures
            final(self).wf(),
            final(self).fds() == old(self).fds(),
            final(self).fd_ids() == old(self).fd_ids(),
            ({
                let t = old(self).tree();
                let fo = (match force {
                    Option::Some(b) => b,
                    Option::None => false,
                });
                let res = resolve_hard_spec(t, path@, MAX_HOPS as nat);
                match r {
                    Result::Ok(u) => {
                        let q = res.unwrap();
                        &&& res is Some
                        &&& !(t.contains_key(q) && t[q].kind is File)
                        &&& (fo || !is_open_spec(t, old(self).fds(), old(self).alias_map(), q))
                        &&& if t.contains_key(q) && q != root_path() {
                            &&& old(self).children_of(q).len() == 0
                            &&& final(self).tree() == t.remove(q).remove_keys(
                                (if old(self).alias_map().contains_key(q) {
                                    old(self).alias_map()[q].to_set()
                                } else {
                                    Set::<Seq<char>>::empty()
                                }).remove(root_path()),
                            )
                            &&& final(self).alias_map() == old(self).alias_map().remove(q)
                        } else {
                            final(self).tree() == t && final(self).alias_map() == old(
                                self,
                            ).alias_map()
                        }
                    },
                    Result::Err(e) => {
                        &&& final(self).tree() == t
                        &&& final(self).alias_map() == old(self).alias_map()
                        &&& (match e {
                            crate::ErrorCode::Loop => res is None,
                            crate::ErrorCode::NotDir => res is Some && t.contains_key(res.unwrap())
                                && t[res.unwrap()].kind is File,
                            crate::ErrorCode::Busy => res is Some && !fo && is_open_spec(
                                t,
                                old(self).fds(),
                                old(self).alias_map(),
                                res.unwrap(),
                            ) && !(t.contains_key(res.unwrap()) && t[res.unwrap()].kind is File),
                            crate::ErrorCode::NotEmpty => res is Some && t.contains_key(
                                res.unwrap(),
                            ) && old(self).children_of(res.unwrap()).len() > 0 && !(t.contains_key(
                                res.unwrap(),
                            ) && t[res.unwrap()].kind is File) && (fo || !is_open_spec(
                                t,
                                old(self).fds(),
                                old(self).alias_map(),
                                res.unwrap(),
                            )),
                            _ => false,
                        })
                    },
                }
            }),
    {
        let fo = match force {
            Some(b) => b,
            None => false,
        };
        let p = match self.follow_link(path, None) {
            Some(p) => p,
            None => {
                return Err(crate::ErrorCode::Loop);
            },
        };
        match self.find_idx(p.as_str()) {
            Some(i) => {
                match self.nodes[i].kind {
                    NodeKind::File => {
                        return Err(crate::ErrorCode::NotDir);
                    },
                    NodeKind::Dir => {},
                }
            },
            None => {
                if !fo && self.is_open(p.as_str()) {
                    return Err(crate::ErrorCode::Busy);
                }
                return Ok(());
            },
        }
        if !fo && self.is_open(p.as_str()) {
            return Err(crate::ErrorCode::Busy);
        }
        if str_eq(p.as_str(), "/") {
            proof {
                reveal_strlit("/");
                assert(p@ == root_path());
            }
            return Ok(());
        }
        proof {
            reveal_strlit("/");
            assert(root_path() =~= "/"@);
            assert(p@ != root_path());
        }
        let cs = self.collect_children(p.as_str());
        if cs.len() > 0 {
            return Err(crate::ErrorCode::NotEmpty);
        }
        self.remove_at_key_cascade(p.as_str());
        Ok(())
    }

    /// Index of the longest live descendant of a key, when any exists.
    fn find_deepest_descendant(&self, q: &str) -> (r: Option<usize>)
        requires
            self.wf(),
        ensures
            match r {
                Option::Some(i) => {
                    &&& i < self.nodes@.len()
                    &&& self.nodes@[i as int].path@ != root_path()
                    &&& desc_spec(self.nodes@[i as int].path@, q@)
                },
                Option::None => forall|k: Seq<char>| #[trigger]
                    self.tree().contains_key(k) ==> !desc_spec(k, q@) || k == root_path(),
            },
    {
        let is_root = str_eq(q, "/");
        proof {
            reveal_strlit("/");
            assert(root_path() =~= "/"@);
        }
        let mut qslash = str_chars(q);
        qslash.push('/');
        let sep = chars_to_string(&qslash);
        proof {
            assert(sep@ =~= q@ + seq!['/']);
        }
        let n = self.nodes.len();
        let mut best: Option<usize> = None;
        let mut best_len: usize = 0;
        let mut i: usize = 0;
        while i < n
            invariant
                i <= n,
                self.wf(),
                n == self.nodes@.len(),
                is_root == (q@ == root_path()),
                "/"@ == root_path(),
                sep@ == q@ + seq!['/'],
                (match best {
                    Option::Some(b) => b < self.nodes@.len() && self.nodes@[b as int].path@
                        != root_path() && desc_spec(self.nodes@[b as int].path@, q@),
                    Option::None => forall|j: int|
                        0 <= j < i ==> !desc_spec(self.nodes@[j].path@, q@) || self.nodes@[j].path@
                            == root_path(),
                }),
                (match best {
                    Option::Some(b) => forall|j: int|
                        0 <= j < i ==> !desc_spec(self.nodes@[j].path@, q@) || self.nodes@[j].path@
                            == root_path() || self.nodes@[j].path@.len()
                            <= self.nodes@[b as int].path@.len(),
                    Option::None => true,
                }),
                (match best {
                    Option::Some(b) => best_len == self.nodes@[b as int].path@.len(),
                    Option::None => true,
                }),
            decreases n - i,
        {
            let np = &self.nodes[i].path;
            let nlen = np.as_str().unicode_len();
            let node_is_root = str_eq(np.as_str(), "/");
            let d = if node_is_root {
                false
            } else if str_eq(np.as_str(), q) {
                true
            } else if is_root {
                nlen > 1 && np.as_str().get_char(0) == '/'
            } else {
                str_starts_with(np.as_str(), sep.as_str())
            };
            proof {
                if node_is_root {
                } else {
                    assert(d == desc_spec(self.nodes@[i as int].path@, q@));
                }
            }
            if d && !node_is_root {
                let take = match best {
                    Some(_) => nlen > best_len,
                    None => true,
                };
                if take {
                    best = Some(i);
                    best_len = nlen;
                }
            }
            i += 1;
        }
        proof {
            if best is None {
                assert forall|k: Seq<char>| #[trigger] self.tree().contains_key(k) implies
                    !desc_spec(k, q@) || k == root_path() by {
                    lemma_nmap_contains(self.nodes@, k);
                    let j = choose|j: int| 0 <= j < self.nodes@.len() && self.nodes@[j].path@ == k;
                }
            }
        }
        best
    }

    /// Removes a path: a file is unlinked; a directory is removed, with
    /// `recursive` taking every stored descendant first. Busy paths are
    /// refused unless `force` is given.
    pub fn rm_sync(&mut self, path: &str, recursive: bool, force: bool) -> (r: Result<
        (),
        crate::ErrorCode,
    >)
        requires
            old(self).wf(),
        ensures
            final(self).wf(),
            final(self).fds() == old(self).fds(),
            final(self).fd_ids() == old(self).fd_ids(),
            forall|k: Seq<char>| #[trigger]
                final(self).tree().contains_key(k) ==> old(self).tree().contains_key(k)
                    && final(self).tree()[k] == old(self).tree()[k],
            ({
                let t = old(self).tree();
                match r {
                    Result::Ok(u) => {
                        recursive && !is_file_spec(t, path@) ==> forall|k: Seq<char>| #[trigger]
                            final(self).tree().contains_key(k) ==> !desc_spec(k, canon_spec(path@))
                                || k == root_path()
                    },
                    Result::Err(e) => true,
                }
            }),
            recursive && !is_file_spec(old(self).tree(), path@) && force ==> r is Ok,
            is_file_spec(old(self).tree(), path@) ==> ({
                let t = old(self).tree();
                let res = resolve_hard_spec(t, path@, MAX_HOPS as nat);
                match r {
                    Result::Ok(u) => {
                        let q = res.unwrap();
                        &&& res is Some
                        &&& !(t.contains_key(q) && t[q].kind is Dir)
                        &&& (force || !is_open_spec(t, old(self).fds(), old(self).alias_map(), q))
                        &&& final(self).tree() == t.remove(q).remove_keys(
                            (if old(self).alias_map().contains_key(q) {
                                old(self).alias_map()[q].to_set()
                            } else {
                                Set::<Seq<char>>::empty()
                            }).remove(root_path()),
                        )
                        &&& final(self).alias_map() == old(self).alias_map().remove(q)
                    },
                    Result::Err(e) => {
                        &&& final(self).tree() == t
                        &&& (match e {
                            crate::ErrorCode::Loop => res is None,
                            crate::ErrorCode::IsDir => res is Some && t.contains_key(res.unwrap())
                                && t[res.unwrap()].kind is Dir,
                            crate::ErrorCode::Busy => res is Some && !force && is_open_spec(
                                t,
                                old(self).fds(),
                                old(self).alias_map(),
                                res.unwrap(),
                            ) && !(t.contains_key(res.unwrap()) && t[res.unwrap()].kind is Dir),
                            _ => false,
                        })
                    },
                }
            }),
            !is_file_spec(old(self).tree(), path@) && !recursive ==> ({
                let t = old(self).tree();
                let res = resolve_hard_spec(t, path@, MAX_HOPS as nat);
                match r {
                    Result::Ok(u) => {
                        let q = res.unwrap();
                        &&& res is Some
                        &&& !(t.contains_key(q) && t[q].kind is File)
                        &&& if t.contains_key(q) && q != root_path() {
                            &&& old(self).children_of(q).len() == 0
                            &&& final(self).tree() == t.remove(q).remove_keys(
                                (if old(self).alias_map().contains_key(q) {
                                    old(self).alias_map()[q].to_set()
                                } else {
                                    Set::<Seq<char>>::empty()
                                }).remove(root_path()),
                            )
                            &&& final(self).alias_map() == old(self).alias_map().remove(q)
                        } else {
                            final(self).tree() == t && final(self).alias_map() == old(
                                self,
                            ).alias_map()
                        }
                    },
                    Result::Err(e) => {
                        &&& final(self).tree() == t
                        &&& (e is Busy ==> !force)
                        &&& (e is Loop ==> res is None)
                        &&& (e is NotDir ==> res is Some && t.contains_key(res.unwrap())
                            && t[res.unwrap()].kind is File)
                        &&& (e is NotEmpty ==> res is Some && t.contains_key(res.unwrap()) && old(
                            self,
                        ).children_of(res.unwrap()).len() > 0)
                        &&& (e is Busy || e is Loop || e is NotDir || e is NotEmpty)
                    },
                }
            }),
    {
        if self.is_file(path) {
            let p = path_canon(path);
            proof {
                assert(old(self).tree().contains_key(canon_spec(path@)));
            }
            let rr = self.unlink_sync(path, Some(force));
            proof {
                assert forall|k: Seq<char>| #[trigger] final(self).tree().contains_key(k) implies
                    old(self).tree().contains_key(k) && final(self).tree()[k] == old(self).tree()[k]
                by {}
            }
            return (match rr {
                Ok(u) => Ok(()),
                Err(e) => Err(e),
            });
        }
        let q = path_canon(path);
        if !force && self.is_open(q.as_str()) {
            return Err(crate::ErrorCode::Busy);
        }
        if !recursive {
            let rr = self.rmdir_sync(path, Some(force));
            return (match rr {
                Ok(u) => Ok(()),
                Err(e) => Err(e),
            });
        }
        loop
            invariant
                self.wf(),
                recursive,
                !is_file_spec(old(self).tree(), path@),
                q@ == canon_spec(path@),
                self.fds() == old(self).fds(),
                self.fd_ids() == old(self).fd_ids(),
                forall|k: Seq<char>| #[trigger]
                    self.tree().contains_key(k) ==> old(self).tree().contains_key(k) && self.tree()[
                        k
                    ] == old(self).tree()[k],
            decreases self.nodes@.len(),
        {
            match self.find_deepest_descendant(q.as_str()) {
                Some(i) => {
                    let kp = self.nodes[i].path.clone();
                    if !force && self.is_open(kp.as_str()) {
                        return Err(crate::ErrorCode::Busy);
                    }
                    proof {
                        lemma_nmap_index(self.nodes@, i as int);
                    }
                    self.remove_at_key_cascade(kp.as_str());
                },
                None => {
                    return Ok(());
                },
            }
        }
    }

    /// Moves the node at an index to a fresh path, replacing its attribute
    /// record (the inode and any link flag kept).
    fn move_node(&mut self, i: usize, new_path: String, a: Attr)
        requires
            old(self).wf(),
            i < old(self).nodes@.len(),
            !old(self).tree().contains_key(new_path@),
            old(self).nodes@[i as int].path@ != root_path(),
            new_path@ != root_path(),
            a.ino == old(self).nodes@[i as int].attr.ino,
            (a.link || a.symlink) ==> valid_utf8(old(self).nodes@[i as int].content@),
        ensures
            final(self).wf(),
            final(self).fds() == old(self).fds(),
            final(self).fd_ids() == old(self).fd_ids(),
            final(self).ino_ids() == old(self).ino_ids(),
            final(self).alias_map() == old(self).alias_map(),
            final(self).nodes@.len() == old(self).nodes@.len(),
            forall|j: int| 0 <= j < old(self).nodes@.len() && j != i ==> final(self).nodes@[j]
                == old(self).nodes@[j],
            final(self).nodes@[i as int].path@ == new_path@,
            final(self).nodes@[i as int].kind == old(self).nodes@[i as int].kind,
            final(self).nodes@[i as int].content@ == old(self).nodes@[i as int].content@,
            final(self).nodes@[i as int].attr == a,
            final(self).tree() == old(self).tree().remove(
                old(self).nodes@[i as int].path@,
            ).insert(new_path@, with_attr(old(self).nodes@[i as int]@, a)),
    {
        let ghost oldnodes = self.nodes@;
        let kind_keep = self.nodes[i].kind;
        let content_keep = self.nodes[i].content.clone();
        proof {
            assert(content_keep@ =~= oldnodes[i as int].content@);
            lemma_nmap_contains(oldnodes, new_path@);
            assert(forall|j: int| 0 <= j < oldnodes.len() ==> oldnodes[j].path@ != new_path@);
        }
        let n = Node { path: new_path, kind: kind_keep, content: content_keep, attr: a };
        self.nodes[i] = n;
        proof {
            assert(self.nodes@ =~= oldnodes.update(i as int, self.nodes@[i as int]));
            lemma_nmap_rekey(oldnodes, i as int, self.nodes@[i as int]);
            lemma_nmap_contains(oldnodes, root_path());
            let rid = choose|j: int| 0 <= j < oldnodes.len() && oldnodes[j].path@ == root_path();
            assert(rid != i);
            lemma_nmap_index(self.nodes@, rid);
        }
    }
}

/// A descendant other than the path itself decomposes as the path, a
/// separator, and the rest; every descendant carries the path as a prefix.
pub proof fn lemma_desc_decompose(k: Seq<char>, q: Seq<char>)
    requires
        desc_spec(k, q),
        q != root_path(),
    ensures
        q.is_prefix_of(k),
        k == q + k.skip(q.len() as int),
        k != q ==> k.len() > q.len() && k[q.len() as int] == '/',
{
    if k == q {
        assert(q.is_prefix_of(k));
        assert(k =~= q + k.skip(q.len() as int));
    } else {
        let qs = q + seq!['/'];
        assert(qs.is_prefix_of(k));
        assert(forall|m: int| 0 <= m < qs.len() ==> k[m] == qs[m]) by {
            assert(k.subrange(0, qs.len() as int) =~= qs);
        }
        assert(q.is_prefix_of(k)) by {
            assert(k.subrange(0, q.len() as int) =~= q);
        }
        assert(k =~= q + k.skip(q.len() as int));
        assert(k[q.len() as int] == qs[q.len() as int]);
    }
}

/// Re-prefixing a descendant of one path makes a descendant of the other.
pub proof fn lemma_ren_is_desc(k: Seq<char>, qo: Seq<char>, qn: Seq<char>)
    requires
        desc_spec(k, qo),
        qo != root_path(),
        qn != root_path(),
    ensures
        desc_spec(qn + k.skip(qo.len() as int), qn),
{
    lemma_desc_decompose(k, qo);
    let rn = qn + k.skip(qo.len() as int);
    if k == qo {
        assert(k.skip(qo.len() as int) =~= Seq::<char>::empty());
        assert(rn =~= qn);
    } else {
        assert((qn + seq!['/']).is_prefix_of(rn)) by {
            assert(rn[qn.len() as int] == k[qo.len() as int]);
            assert(rn.subrange(0, (qn.len() + 1) as int) =~= qn + seq!['/']);
        }
    }
}

impl Fs {
    /// True when some node other than the path itself lies under it.
    fn has_proper_descendant(&self, q: &str) -> (r: bool)
        requires
            self.wf(),
            q@ != root_path(),
        ensures
            r == exists|j: int|
                0 <= j < self.nodes@.len() && desc_spec(#[trigger] self.nodes@[j].path@, q@)
                    && self.nodes@[j].path@ != q@,
    {
        let mut qs = str_chars(q);
        qs.push('/');
        let sep = chars_to_string(&qs);
        proof {
            assert(sep@ =~= q@ + seq!['/']);
        }
        let n = self.nodes.len();
        let mut i: usize = 0;
        while i < n
            invariant
                i <= n,
                self.wf(),
                q@ != root_path(),
                n == self.nodes@.len(),
                sep@ == q@ + seq!['/'],
                forall|j: int|
                    0 <= j < i ==> !(desc_spec(#[trigger] self.nodes@[j].path@, q@)
                        && self.nodes@[j].path@ != q@),
            decreases n - i,
        {
            let np = &self.nodes[i].path;
            if str_starts_with(np.as_str(), sep.as_str()) {
                proof {
                    assert(self.nodes@[i as int].path@ != q@) by {
                        if self.nodes@[i as int].path@ == q@ {
                            assert((q@ + seq!['/']).len() <= q@.len());
                        }
                    }
                }
                return true;
            }
            proof {
                if desc_spec(self.nodes@[i as int].path@, q@) && self.nodes@[i as int].path@
                    != q@ {
                    assert((q@ + seq!['/']).is_prefix_of(self.nodes@[i as int].path@));
                }
            }
            i += 1;
        }
        false
    }

    /// Renames a path: the node and every stored descendant move under the
    /// new name, and the moved node's change time is touched. An existing
    /// plain file at the destination is replaced. Refused (`Some(false)`)
    /// when the old path is missing, either end is the root, the ends
    /// coincide or nest, the destination is a directory, or anything else
    /// is stored under the destination; `None` when either end is busy.
    #[verifier::rlimit(100)]
    pub fn rename_sync(&mut self, old_path: &str, new_path: &str, now: u64) -> (r: Option<bool>)
        requires
            old(self).wf(),
        ensures
            final(self).wf(),
            final(self).fds() == old(self).fds(),
            final(self).fd_ids() == old(self).fd_ids(),
            final(self).alias_map() == old(self).alias_map(),
            r is None ==> final(self).tree() == old(self).tree() && final(self).ino_ids() == old(
                self,
            ).ino_ids() && (is_open_spec(
                old(self).tree(),
                old(self).fds(),
                old(self).alias_map(),
                canon_spec(old_path@),
            ) || is_open_spec(
                old(self).tree(),
                old(self).fds(),
                old(self).alias_map(),
                canon_spec(new_path@),
            )),
            r is Some ==> !is_open_spec(
                old(self).tree(),
                old(self).fds(),
                old(self).alias_map(),
                canon_spec(old_path@),
            ) && !is_open_spec(
                old(self).tree(),
                old(self).fds(),
                old(self).alias_map(),
                canon_spec(new_path@),
            ),
            r == Some(false) ==> ({
                let t = old(self).tree();
                let qo = canon_spec(old_path@);
                let qn = canon_spec(new_path@);
                let t0 = if t.contains_key(qn) && t[qn].kind is File {
                    t.remove(qn)
                } else {
                    t
                };
                &&& final(self).tree() == t
                &&& final(self).ino_ids() == old(self).ino_ids()
                &&& (!t.contains_key(qo) || qo == root_path() || qn == root_path() || qo == qn
                    || desc_spec(qn, qo) || (t.contains_key(qn) && t[qn].kind is Dir) || (exists|
                    k: Seq<char>,
                | #![trigger desc_spec(k, qn)] t0.contains_key(k) && desc_spec(k, qn) && k != qn))
            }),
            r == Some(true) ==> ({
                let t = old(self).tree();
                let qo = canon_spec(old_path@);
                let qn = canon_spec(new_path@);
                let dst_file = t.contains_key(qn) && t[qn].kind is File;
                &&& t.contains_key(qo)
                &&& qo != root_path() && qn != root_path()
                &&& qo != qn && !desc_spec(qn, qo)
                &&& !(t.contains_key(qn) && t[qn].kind is Dir)
                &&& final(self).ino_ids() == (if dst_file {
                    old(self).ino_ids().remove(t[qn].attr.ino)
                } else {
                    old(self).ino_ids()
                })
            }),
            r == Some(true) ==> ({
                let t = old(self).tree();
                let qo = canon_spec(old_path@);
                let qn = canon_spec(new_path@);
                let t0 = if t.contains_key(qn) && t[qn].kind is File {
                    t.remove(qn)
                } else {
                    t
                };
                forall|k: Seq<char>| #![trigger desc_spec(k, qo)]
                    t0.contains_key(k) && !desc_spec(k, qo) ==> final(self).tree().contains_key(k)
                        && final(self).tree()[k] == t0[k]
            }),
            r == Some(true) ==> ({
                let t = old(self).tree();
                let qo = canon_spec(old_path@);
                let qn = canon_spec(new_path@);
                let t0 = if t.contains_key(qn) && t[qn].kind is File {
                    t.remove(qn)
                } else {
                    t
                };
                forall|k: Seq<char>| #![trigger desc_spec(k, qo)]
                    t0.contains_key(k) && desc_spec(k, qo) ==> final(self).tree().contains_key(
                        qn + k.skip(qo.len() as int),
                    ) && final(self).tree()[qn + k.skip(qo.len() as int)] == (if k == qo {
                        with_attr(t0[k], Attr { ctime: now, ..t0[k].attr })
                    } else {
                        t0[k]
                    })
            }),
            r == Some(true) ==> ({
                let t = old(self).tree();
                let qo = canon_spec(old_path@);
                let qn = canon_spec(new_path@);
                let t0 = if t.contains_key(qn) && t[qn].kind is File {
                    t.remove(qn)
                } else {
                    t
                };
                forall|k: Seq<char>| #![trigger final(self).tree().contains_key(k)]
                    final(self).tree().contains_key(k) ==> ((t0.contains_key(k) && !desc_spec(
                        k,
                        qo,
                    )) || (exists|k0: Seq<char>| #![trigger desc_spec(k0, qo)]
                        t0.contains_key(k0) && desc_spec(k0, qo) && k == qn + k0.skip(
                            qo.len() as int,
                        )))
            }),
    {
        let qo = path_canon(old_path);
        let qn = path_canon(new_path);
        let ghost qov = canon_spec(old_path@);
        let ghost qnv = canon_spec(new_path@);
        proof {
            assert(qo@ == qov && qn@ == qnv);
        }
        if self.is_open(qo.as_str()) {
            return None;
        }
        if self.is_open(qn.as_str()) {
            return None;
        }
        if str_eq(qo.as_str(), "/") || str_eq(qn.as_str(), "/") {
            proof {
                reveal_strlit("/");
                assert(root_path() =~= "/"@);
            }
            return Some(false);
        }
        proof {
            reveal_strlit("/");
            assert(root_path() =~= "/"@);
            assert(qov != root_path() && qnv != root_path());
        }
        if str_eq(qo.as_str(), qn.as_str()) {
            return Some(false);
        }
        let mut qoc = str_chars(qo.as_str());
        qoc.push('/');
        let qosep = chars_to_string(&qoc);
        proof {
            assert(qosep@ =~= qov + seq!['/']);
        }
        if str_starts_with(qn.as_str(), qosep.as_str()) {
            return Some(false);
        }
        match self.find_idx(qo.as_str()) {
            Some(u) => {},
            None => {
                return Some(false);
            },
        }
        match self.find_idx(qn.as_str()) {
            Some(j) => {
                match self.nodes[j].kind {
                    NodeKind::Dir => {
                        return Some(false);
                    },
                    NodeKind::File => {},
                }
            },
            None => {},
        }
        let ghost nodes0 = self.nodes@;
        if self.has_proper_descendant(qn.as_str()) {
            proof {
                let j = choose|j: int|
                    0 <= j < self.nodes@.len() && desc_spec(
                        #[trigger] self.nodes@[j].path@,
                        qnv,
                    ) && self.nodes@[j].path@ != qnv;
                lemma_nmap_index(self.nodes@, j);
                let t = old(self).tree();
                let dst_file = t.contains_key(qnv) && t[qnv].kind is File;
                let t0 = if dst_file {
                    t.remove(qnv)
                } else {
                    t
                };
                assert(t0.contains_key(self.nodes@[j].path@) && desc_spec(
                    self.nodes@[j].path@,
                    qnv,
                ) && self.nodes@[j].path@ != qnv);
                assert((if old(self).tree().contains_key(canon_spec(new_path@)) && old(self).tree()[canon_spec(
                new_path@,
            )].kind is File {
                old(self).tree().remove(canon_spec(new_path@))
            } else {
                old(self).tree()
            }).contains_key(self.nodes@[j].path@) && desc_spec(
                    self.nodes@[j].path@,
                    canon_spec(new_path@),
                ) && self.nodes@[j].path@ != canon_spec(new_path@));
            }
            return Some(false);
        }
        match self.find_idx(qn.as_str()) {
            Some(j) => {
                self.remove_node_at(j);
            },
            None => {},
        }
        let ghost t = old(self).tree();
        let ghost dst_file = t.contains_key(qnv) && t[qnv].kind is File;
        let ghost t0 = if dst_file {
            t.remove(qnv)
        } else {
            t
        };
        let ghost nodes1 = self.nodes@;
        proof {
            assert(self.tree() == t0);
            assert(unique_paths(nodes1));
            crate::path::lemma_normalize_nonempty(old_path@);
            crate::path::lemma_normalize_nonempty(new_path@);
            assert(qov.len() >= 1 && qov[0] == '/');
            assert(qnv.len() >= 1 && qnv[0] == '/');
            assert(forall|j: int| 0 <= j < nodes1.len() ==> #[trigger] nodes1[j].path@ != qnv) by {
                lemma_nmap_contains(nodes1, qnv);
            }
            assert forall|j: int| 0 <= j < nodes1.len() implies !desc_spec(
                #[trigger] nodes1[j].path@,
                qnv,
            ) by {
                lemma_nmap_index(nodes1, j);
                assert(t0.contains_key(nodes1[j].path@));
                assert(t.contains_key(nodes1[j].path@));
                lemma_nmap_contains(nodes0, nodes1[j].path@);
                let j0 = choose|j0: int|
                    0 <= j0 < nodes0.len() && nodes0[j0].path@ == nodes1[j].path@;
                assert(!(desc_spec(nodes0[j0].path@, qnv) && nodes0[j0].path@ != qnv));
            }
        }
        let n = self.nodes.len();
        let qnc = str_chars(qn.as_str());
        let qolen = qo.as_str().unicode_len();
        let mut idx: usize = 0;
        while idx < n
            invariant
                idx <= n,
                self.wf(),
                n == self.nodes@.len(),
                n == nodes1.len(),
                unique_paths(nodes1),
                qov != root_path(),
                qnv != root_path(),
                qo@ == qov,
                qn@ == qnv,
                qov.len() >= 1 && qov[0] == '/',
                qnv.len() >= 1 && qnv[0] == '/',
                qnc@ == qnv,
                qolen == qov.len(),
                qosep@ == qov + seq!['/'],
                forall|j: int| 0 <= j < n ==> !desc_spec(#[trigger] nodes1[j].path@, qnv),
                self.fds() == old(self).fds(),
                self.fd_ids() == old(self).fd_ids(),
                self.alias_map() == old(self).alias_map(),
                pool_used_ids(self.ino_pool) == (if dst_file {
                    pool_used_ids(old(self).ino_pool).remove(t[qnv].attr.ino)
                } else {
                    pool_used_ids(old(self).ino_pool)
                }),
                forall|j: int| #![trigger self.nodes@[j]] 0 <= j < n ==> (if j < idx && desc_spec(
                    nodes1[j].path@,
                    qov,
                ) {
                    &&& self.nodes@[j].path@ == qnv + nodes1[j].path@.skip(qov.len() as int)
                    &&& self.nodes@[j].kind == nodes1[j].kind
                    &&& self.nodes@[j].content@ == nodes1[j].content@
                    &&& self.nodes@[j].attr == (if nodes1[j].path@ == qov {
                        Attr { ctime: now, ..nodes1[j].attr }
                    } else {
                        nodes1[j].attr
                    })
                } else {
                    self.nodes@[j] == nodes1[j]
                }),
            decreases n - idx,
        {
            let np = self.nodes[idx].path.clone();
            let is_self = str_eq(np.as_str(), qo.as_str());
            let is_under = str_starts_with(np.as_str(), qosep.as_str());
            if is_self || is_under {
                proof {
                    assert(desc_spec(nodes1[idx as int].path@, qov));
                    lemma_desc_decompose(nodes1[idx as int].path@, qov);
                }
                let npc = str_chars(np.as_str());
                let mut outc: Vec<char> = Vec::new();
                outc.extend_from_slice(qnc.as_slice());
                let m = npc.len();
                let mut k2: usize = qolen;
                proof {
                    assert(npc@.len() >= qolen);
                    assert(outc@ =~= qnv + npc@.subrange(qolen as int, qolen as int));
                }
                while k2 < m
                    invariant
                        qolen <= k2 <= m,
                        m == npc@.len(),
                        qolen <= m,
                        qnc@ == qnv,
                        outc@ == qnv + npc@.subrange(qolen as int, k2 as int),
                    decreases m - k2,
                {
                    outc.push(npc[k2]);
                    proof {
                        assert(npc@.subrange(qolen as int, k2 + 1) =~= npc@.subrange(
                            qolen as int,
                            k2 as int,
                        ).push(npc@[k2 as int]));
                    }
                    k2 += 1;
                }
                proof {
                    assert(npc@.subrange(qolen as int, m as int) =~= npc@.skip(qolen as int));
                }
                let newp = chars_to_string(&outc);
                let ghost renk = qnv + nodes1[idx as int].path@.skip(qov.len() as int);
                proof {
                    assert(newp@ == renk);
                    lemma_ren_is_desc(nodes1[idx as int].path@, qov, qnv);
                    assert(!self.tree().contains_key(renk)) by {
                        lemma_nmap_contains(self.nodes@, renk);
                        if exists|j: int|
                            0 <= j < self.nodes@.len() && self.nodes@[j].path@ == renk {
                            let j = choose|j: int|
                                0 <= j < self.nodes@.len() && self.nodes@[j].path@ == renk;
                            if j < idx && desc_spec(nodes1[j].path@, qov) {
                                lemma_desc_decompose(nodes1[j].path@, qov);
                                assert(nodes1[j].path@.skip(qov.len() as int) == nodes1[
                                    idx as int].path@.skip(qov.len() as int)) by {
                                    assert((qnv + nodes1[j].path@.skip(qov.len() as int)).skip(
                                        qnv.len() as int,
                                    ) =~= nodes1[j].path@.skip(qov.len() as int));
                                    assert((qnv + nodes1[idx as int].path@.skip(
                                        qov.len() as int,
                                    )).skip(qnv.len() as int) =~= nodes1[idx as int].path@.skip(
                                        qov.len() as int,
                                    ));
                                }
                                assert(nodes1[j].path@ =~= nodes1[idx as int].path@);
                            } else {
                                assert(self.nodes@[j] == nodes1[j]);
                                assert(desc_spec(nodes1[j].path@, qnv));
                            }
                        }
                    }
                    assert(renk != root_path()) by {
                        if renk == root_path() {
                            assert(renk.len() >= qnv.len());
                            assert(qnv.len() == 1);
                            assert(qnv =~= root_path());
                        }
                    }
                    assert(self.nodes@[idx as int].path@ != root_path()) by {
                        if self.nodes@[idx as int].path@ == root_path() {
                            assert(nodes1[idx as int].path@ == root_path());
                            assert(nodes1[idx as int].path@.len() >= qov.len());
                            assert(qov.len() == 1);
                            assert(qov =~= root_path());
                        }
                    }
                }
                let a = if is_self {
                    Attr { ctime: now, ..self.nodes[idx].attr }
                } else {
                    self.nodes[idx].attr
                };
                self.move_node(idx, newp, a);
            }
            idx += 1;
        }
        proof {
            let tf = self.tree();
            assert(t0 == (if old(self).tree().contains_key(canon_spec(new_path@)) && old(self).tree()[canon_spec(
                new_path@,
            )].kind is File {
                old(self).tree().remove(canon_spec(new_path@))
            } else {
                old(self).tree()
            }));
            assert forall|k: Seq<char>| #![trigger desc_spec(k, canon_spec(old_path@))]
                (if old(self).tree().contains_key(canon_spec(new_path@)) && old(self).tree()[canon_spec(
                new_path@,
            )].kind is File {
                old(self).tree().remove(canon_spec(new_path@))
            } else {
                old(self).tree()
            }).contains_key(k) && !desc_spec(k, canon_spec(old_path@)) implies tf.contains_key(k) && tf[k]
                == (if old(self).tree().contains_key(canon_spec(new_path@)) && old(self).tree()[canon_spec(
                new_path@,
            )].kind is File {
                old(self).tree().remove(canon_spec(new_path@))
            } else {
                old(self).tree()
            })[k] by {
                assert(t0.contains_key(k) && !desc_spec(k, qov));
                lemma_nmap_contains(nodes1, k);
                let j = choose|j: int| 0 <= j < nodes1.len() && nodes1[j].path@ == k;
                lemma_nmap_index(nodes1, j);
                assert(self.nodes@[j] == nodes1[j]);
                lemma_nmap_index(self.nodes@, j);
            }
            assert forall|k: Seq<char>| #![trigger desc_spec(k, canon_spec(old_path@))]
                (if old(self).tree().contains_key(canon_spec(new_path@)) && old(self).tree()[canon_spec(
                new_path@,
            )].kind is File {
                old(self).tree().remove(canon_spec(new_path@))
            } else {
                old(self).tree()
            }).contains_key(k) && desc_spec(k, canon_spec(old_path@)) implies tf.contains_key(
                canon_spec(new_path@) + k.skip(canon_spec(old_path@).len() as int),
            ) && tf[canon_spec(new_path@) + k.skip(canon_spec(old_path@).len() as int)] == (if k == canon_spec(old_path@) {
                with_attr((if old(self).tree().contains_key(canon_spec(new_path@)) && old(self).tree()[canon_spec(
                new_path@,
            )].kind is File {
                old(self).tree().remove(canon_spec(new_path@))
            } else {
                old(self).tree()
            })[k], Attr { ctime: now, ..(if old(self).tree().contains_key(canon_spec(new_path@)) && old(self).tree()[canon_spec(
                new_path@,
            )].kind is File {
                old(self).tree().remove(canon_spec(new_path@))
            } else {
                old(self).tree()
            })[k].attr })
            } else {
                (if old(self).tree().contains_key(canon_spec(new_path@)) && old(self).tree()[canon_spec(
                new_path@,
            )].kind is File {
                old(self).tree().remove(canon_spec(new_path@))
            } else {
                old(self).tree()
            })[k]
            }) by {
                assert(t0.contains_key(k) && desc_spec(k, qov));
                lemma_nmap_contains(nodes1, k);
                let j = choose|j: int| 0 <= j < nodes1.len() && nodes1[j].path@ == k;
                lemma_nmap_index(nodes1, j);
                lemma_nmap_index(self.nodes@, j);
                assert(tf.contains_key(qnv + k.skip(qov.len() as int)));
                assert(canon_spec(new_path@) + k.skip(canon_spec(old_path@).len() as int) == qnv + k.skip(qov.len() as int));
            }
            assert forall|k: Seq<char>| #![trigger tf.contains_key(k)] tf.contains_key(k) implies (((if old(self).tree().contains_key(canon_spec(new_path@)) && old(self).tree()[canon_spec(
                new_path@,
            )].kind is File {
                old(self).tree().remove(canon_spec(new_path@))
            } else {
                old(self).tree()
            }).contains_key(
                k,
            ) && !desc_spec(k, canon_spec(old_path@))) || (exists|k0: Seq<char>| #![trigger desc_spec(k0, canon_spec(old_path@))] (if old(self).tree().contains_key(canon_spec(new_path@)) && old(self).tree()[canon_spec(
                new_path@,
            )].kind is File {
                old(self).tree().remove(canon_spec(new_path@))
            } else {
                old(self).tree()
            }).contains_key(k0)
                && desc_spec(k0, canon_spec(old_path@)) && k == canon_spec(new_path@) + k0.skip(canon_spec(old_path@).len() as int))) by {
                lemma_nmap_contains(self.nodes@, k);
                let j = choose|j: int| 0 <= j < self.nodes@.len() && self.nodes@[j].path@ == k;
                if desc_spec(nodes1[j].path@, qov) {
                    lemma_nmap_index(nodes1, j);
                    assert((if old(self).tree().contains_key(canon_spec(new_path@)) && old(self).tree()[canon_spec(
                new_path@,
            )].kind is File {
                old(self).tree().remove(canon_spec(new_path@))
            } else {
                old(self).tree()
            }).contains_key(nodes1[j].path@) && desc_spec(
                        nodes1[j].path@,
                        canon_spec(old_path@),
                    ) && k == canon_spec(new_path@) + nodes1[j].path@.skip(canon_spec(old_path@).len() as int));
                } else {
                    assert(self.nodes@[j] == nodes1[j]);
                    lemma_nmap_index(nodes1, j);
                }
            }
            assert(old(self).tree().contains_key(canon_spec(old_path@))) by {
                if dst_file {
                    assert(t0.contains_key(qov) ==> t.contains_key(qov));
                }
            }
        }
        Some(true)
    }

    /// Copies a file's bytes to a new path, following links on both ends;
    /// the destination is created or truncated. Busy ends are refused, and
    /// with exclusive mode an existing destination is refused.
    pub fn copy_file_sync(&mut self, src: &str, dst: &str, excl: bool, now: u64) -> (r: Result<
        (),
        crate::ErrorCode,
    >)
        requires
            old(self).wf(),
        ensures
            final(self).wf(),
            final(self).fds() == old(self).fds(),
            final(self).fd_ids() == old(self).fd_ids(),
            final(self).alias_map() == old(self).alias_map(),
            ({
                let t = old(self).tree();
                match r {
                    Result::Ok(u) => {
                        let qs = resolve_full_spec(t, src@, MAX_HOPS as nat).unwrap();
                        let qd = resolve_full_spec(t, dst@, MAX_HOPS as nat).unwrap();
                        let t1 = t.insert(qs, with_atime(t[qs], now));
                        &&& resolve_full_spec(t, src@, MAX_HOPS as nat) is Some
                        &&& resolve_full_spec(t, dst@, MAX_HOPS as nat) is Some
                        &&& t.contains_key(qs) && t[qs].kind is File
                        &&& (excl ==> !exists_spec(t, dst@))
                        &&& final(self).tree() == t1.insert(
                            qd,
                            wfile_node(
                                t1,
                                qd,
                                O_WRONLY | O_CREAT | O_TRUNC,
                                t[qs].content,
                                crate::DEFAULT_PERM_FILE,
                                now,
                                final(self).tree()[qd].attr.ino,
                            ),
                        )
                    },
                    Result::Err(e) => {
                        let rs = resolve_full_spec(t, src@, MAX_HOPS as nat);
                        let rd = resolve_full_spec(t, dst@, MAX_HOPS as nat);
                        let qs = rs.unwrap();
                        let qd = rd.unwrap();
                        let t1 = t.insert(qs, with_atime(t[qs], now));
                        &&& (e is Loop <==> rs is None || rd is None)
                        &&& (e is Busy <==> rs is Some && rd is Some && (is_open_spec(
                            t,
                            old(self).fds(),
                            old(self).alias_map(),
                            qs,
                        ) || is_open_spec(t, old(self).fds(), old(self).alias_map(), qd)))
                        &&& (e is Exist <==> rs is Some && rd is Some && !is_open_spec(
                            t,
                            old(self).fds(),
                            old(self).alias_map(),
                            qs,
                        ) && !is_open_spec(t, old(self).fds(), old(self).alias_map(), qd) && excl
                            && exists_spec(t, dst@))
                        &&& (e is NoEnt <==> rs is Some && rd is Some && !is_open_spec(
                            t,
                            old(self).fds(),
                            old(self).alias_map(),
                            qs,
                        ) && !is_open_spec(t, old(self).fds(), old(self).alias_map(), qd) && !(excl
                            && exists_spec(t, dst@)) && !(t.contains_key(qs) && t[qs].kind
                            is File))
                        &&& (e is Fault ==> !wfile_ok(
                            t1,
                            qd,
                            O_WRONLY | O_CREAT | O_TRUNC,
                            t[qs].content.len(),
                        ) || (!t1.contains_key(qd) && id_space_tight(old(self).ino_ids())))
                        &&& (e is Loop || e is Busy || e is Exist || e is NoEnt || e is Fault)
                        &&& (e is Fault ==> final(self).tree() == t1)
                        &&& (!(e is Fault) ==> final(self).tree() == t)
                    },
                }
            }),
    {
        let qs = match self.realpath_sync(src, None) {
            Some(p) => p,
            None => {
                return Err(crate::ErrorCode::Loop);
            },
        };
        let qd = match self.realpath_sync(dst, None) {
            Some(p) => p,
            None => {
                return Err(crate::ErrorCode::Loop);
            },
        };
        if self.is_open(qs.as_str()) {
            return Err(crate::ErrorCode::Busy);
        }
        if self.is_open(qd.as_str()) {
            return Err(crate::ErrorCode::Busy);
        }
        if excl && self.exists_sync(dst) {
            return Err(crate::ErrorCode::Exist);
        }
        let data = match self.read_file_at_key(qs.as_str(), now) {
            Some(d) => d,
            None => {
                return Err(crate::ErrorCode::NoEnt);
            },
        };
        match self.write_file_at_key(
            qd.as_str(),
            &data,
            O_WRONLY | O_CREAT | O_TRUNC,
            crate::DEFAULT_PERM_FILE,
            now,
        ) {
            Some(u) => Ok(()),
            None => Err(crate::ErrorCode::Fault),
        }
    }

    /// Checks access to a path: the computed owner bits must cover every
    /// requested bit.
    pub fn access_sync(&self, path: &str, mode: Option<u32>) -> (r: Result<(), crate::ErrorCode>)
        requires
            self.wf(),
        ensures
            ({
                let t = self.tree();
                let res = resolve_full_spec(t, path@, MAX_HOPS as nat);
                let req = (match mode {
                    Option::Some(m) => m,
                    Option::None => 0,
                });
                &&& (r is Ok <==> exists_spec(t, path@) && access_mask(t[res.unwrap()].attr.mode)
                    & req == req)
                &&& (match r {
                    Result::Ok(u) => true,
                    Result::Err(e) => {
                        &&& (e is NoEnt <==> !exists_spec(t, path@))
                        &&& (e is Access <==> exists_spec(t, path@) && access_mask(
                            t[res.unwrap()].attr.mode,
                        ) & req != req)
                    },
                })
            }),
    {
        let p = match self.realpath_sync(path, None) {
            Some(p) => p,
            None => {
                return Err(crate::ErrorCode::NoEnt);
            },
        };
        let i = match self.find_idx(p.as_str()) {
            Some(i) => i,
            None => {
                return Err(crate::ErrorCode::NoEnt);
            },
        };
        let req: u32 = match mode {
            Some(m) => m,
            None => 0,
        };
        let test = self.nodes[i].attr.mode;
        let c1: u32 = if test & 0o400 != 0 {
            4
        } else {
            0
        };
        let c2: u32 = if test & 0o200 != 0 {
            2
        } else {
            0
        };
        let c3: u32 = if test & 0o100 != 0 {
            1
        } else {
            0
        };
        let computed: u32 = (c1 | c2) | c3;
        proof {
            assert(computed == access_mask(test));
        }
        if computed & req == req {
            Ok(())
        } else {
            Err(crate::ErrorCode::Access)
        }
    }

    /// Reads the target a symbolic link stores; a path under
    /// `/proc/self/fd/` is a synthetic link to the open handle's path.
    pub fn readlink_sync(&self, path: &str) -> (r: Result<String, crate::ErrorCode>)
        requires
            self.wf(),
        ensures
            ({
                let t = self.tree();
                let q = canon_spec(path@);
                if "/proc/self/fd/"@.is_prefix_of(path@) {
                    let fd = spec_fd_suffix(path@);
                    match r {
                        Result::Ok(s) => self.fds().contains_key(fd) && self.fds()[fd].path == s@,
                        Result::Err(e) => e is BadFd && !self.fds().contains_key(fd),
                    }
                } else {
                    match r {
                        Result::Ok(s) => is_symlink_at(t, q) && encode_utf8(s@) == t[q].content,
                        Result::Err(e) => e is Inval && !is_symlink_at(t, q),
                    }
                }
            }),
    {
        if str_starts_with(path, "/proc/self/fd/") {
            proof {
                reveal_strlit("/proc/self/fd/");
            }
            let fd = parse_fd_suffix(path);
            match self.find_handle(fd) {
                Some(i) => {
                    let hp = match &self.handles[i] {
                        Handle::File(f) => f.path.clone(),
                        Handle::Dir(d) => d.path.clone(),
                    };
                    proof {
                        lemma_fdmap_index(self.handles@, i as int);
                    }
                    Ok(hp)
                },
                None => Err(crate::ErrorCode::BadFd),
            }
        } else {
            let q = path_canon(path);
            match self.find_idx(q.as_str()) {
                Some(i) => {
                    if !self.nodes[i].attr.symlink {
                        return Err(crate::ErrorCode::Inval);
                    }
                    let bytes = self.nodes[i].content.clone();
                    proof {
                        assert(bytes@ =~= self.nodes@[i as int].content@);
                    }
                    match bytes_to_string(bytes) {
                        Some(s) => Ok(s),
                        None => {
                            proof {
                                assert(false);
                            }
                            Err(crate::ErrorCode::Inval)
                        },
                    }
                },
                None => Err(crate::ErrorCode::Inval),
            }
        }
    }

    /// Changes permissions of the node itself, following hardlinks only, so
    /// a symbolic link is patched rather than its target.
    pub fn lchmod_sync(&mut self, path: &str, perm: u32, now: u64) -> (r: Option<()>)
        requires
            old(self).wf(),
        ensures
            final(self).wf(),
            final(self).fds() == old(self).fds(),
            final(self).alias_map() == old(self).alias_map(),
            final(self).fd_ids() == old(self).fd_ids(),
            final(self).ino_ids() == old(self).ino_ids(),
            ({
                let t = old(self).tree();
                let res = resolve_hard_spec(t, path@, MAX_HOPS as nat);
                match r {
                    Option::Some(u) => {
                        let q = res.unwrap();
                        &&& res is Some
                        &&& t.contains_key(q)
                        &&& final(self).tree() == t.insert(q, chmod_node(t[q], perm, now))
                    },
                    Option::None => {
                        &&& final(self).tree() == t
                        &&& (res is None || !t.contains_key(res.unwrap()))
                    },
                }
            }),
    {
        let p = match self.follow_link(path, None) {
            Some(p) => p,
            None => {
                return None;
            },
        };
        match self.find_idx(p.as_str()) {
            Some(i) => {
                let tb: u32 = match self.nodes[i].kind {
                    NodeKind::Dir => crate::S_IFDIR,
                    NodeKind::File => if self.nodes[i].attr.symlink {
                        crate::S_IFLNK
                    } else {
                        crate::S_IFREG
                    },
                };
                let a = Attr {
                    mode: tb | sanitize_permissions(perm),
                    ctime: now,
                    ..self.nodes[i].attr
                };
                self.patch_attr(i, a);
                Some(())
            },
            None => None,
        }
    }

    /// Changes ownership of the node itself, following hardlinks only.
    pub fn lchown_sync(&mut self, path: &str, uid: u32, gid: u32, now: u64) -> (r: Option<()>)
        requires
            old(self).wf(),
        ensures
            final(self).wf(),
            final(self).fds() == old(self).fds(),
            final(self).alias_map() == old(self).alias_map(),
            final(self).fd_ids() == old(self).fd_ids(),
            final(self).ino_ids() == old(self).ino_ids(),
            ({
                let t = old(self).tree();
                let res = resolve_hard_spec(t, path@, MAX_HOPS as nat);
                match r {
                    Option::Some(u) => {
                        let q = res.unwrap();
                        &&& res is Some
                        &&& t.contains_key(q)
                        &&& final(self).tree() == t.insert(q, chown_node(t[q], uid, gid, now))
                    },
                    Option::None => {
                        &&& final(self).tree() == t
                        &&& (res is None || !t.contains_key(res.unwrap()))
                    },
                }
            }),
    {
        let p = match self.follow_link(path, None) {
            Some(p) => p,
            None => {
                return None;
            },
        };
        match self.find_idx(p.as_str()) {
            Some(i) => {
                let a = Attr { uid, gid, ctime: now, ..self.nodes[i].attr };
                self.patch_attr(i, a);
                Some(())
            },
            None => None,
        }
    }

    /// Sets the times of the node itself, following hardlinks only.
    pub fn lutimes_sync(&mut self, path: &str, atime_s: u64, mtime_s: u64) -> (r: Option<()>)
        requires
            old(self).wf(),
        ensures
            final(self).wf(),
            final(self).fds() == old(self).fds(),
            final(self).alias_map() == old(self).alias_map(),
            final(self).fd_ids() == old(self).fd_ids(),
            final(self).ino_ids() == old(self).ino_ids(),
            ({
                let t = old(self).tree();
                let res = resolve_hard_spec(t, path@, MAX_HOPS as nat);
                match r {
                    Option::Some(u) => {
                        let q = res.unwrap();
                        &&& res is Some
                        &&& t.contains_key(q)
                        &&& final(self).tree() == t.insert(
                            q,
                            utimes_node(t[q], sec_to_ms(atime_s), sec_to_ms(mtime_s)),
                        )
                    },
                    Option::None => {
                        &&& final(self).tree() == t
                        &&& (res is None || !t.contains_key(res.unwrap()))
                    },
                }
            }),
    {
        let p = match self.follow_link(path, None) {
            Some(p) => p,
            None => {
                return None;
            },
        };
        match self.find_idx(p.as_str()) {
            Some(i) => {
                let at: u64 = if atime_s > u64::MAX / 1000 {
                    u64::MAX
                } else {
                    atime_s * 1000
                };
                let mt: u64 = if mtime_s > u64::MAX / 1000 {
                    u64::MAX
                } else {
                    mtime_s * 1000
                };
                let a = Attr { atime: at, mtime: mt, ..self.nodes[i].attr };
                self.patch_attr(i, a);
                Some(())
            },
            None => None,
        }
    }

    /// Counts of the store: block figures over the fixed region, the
    /// number of file and directory nodes, and optionally a dump of every
    /// node in storage order.
    pub fn statfs_sync(&self, dump: Option<bool>) -> (r: StatFs)
        requires
            self.wf(),
        ensures
            r.bsize == BLOCK_SIZE,
            r.blocks == REGION_SIZE / BLOCK_SIZE,
            r.files == self.file_count(),
            r.dirs == self.dir_count(),
            r.ffree == 0,
            r.bfree == REGION_SIZE / BLOCK_SIZE - (if self.node_count() < REGION_SIZE / BLOCK_SIZE {
                self.node_count() as int
            } else {
                (REGION_SIZE / BLOCK_SIZE) as int
            }),
            r.bavail == r.bfree,
            r.dump is Some <==> (dump matches Option::Some(b) && b),
            (match r.dump {
                Option::Some(d) => {
                    &&& d@.len() == self.node_count()
                    &&& forall|i: int| #![trigger d@[i]] 0 <= i < d@.len() ==> {
                        let k = self.node_key(i);
                        &&& d@[i].path@ == k
                        &&& self.tree().contains_key(k)
                        &&& d@[i].attr == self.tree()[k].attr
                        &&& d@[i].content@ == self.tree()[k].content
                        &&& d@[i].size == self.tree()[k].content.len()
                        &&& d@[i].children@.len() == self.children_of(k).len()
                        &&& forall|m: int| 0 <= m < d@[i].children@.len()
                            ==> #[trigger] d@[i].children@[m]@ == basename_spec(
                            self.children_of(k)[m],
                        )
                    }
                },
                Option::None => true,
            }),
    {
        let n = self.nodes.len();
        let mut files: usize = 0;
        let mut dirs: usize = 0;
        let mut i: usize = 0;
        proof {
            assert(self.nodes@.subrange(0, 0) =~= Seq::<Node>::empty());
        }
        while i < n
            invariant
                i <= n,
                self.wf(),
                n == self.nodes@.len(),
                files == count_kind(self.nodes@.subrange(0, i as int), NodeKind::File),
                dirs == count_kind(self.nodes@.subrange(0, i as int), NodeKind::Dir),
                files + dirs <= i,
            decreases n - i,
        {
            proof {
                assert(self.nodes@.subrange(0, i + 1).drop_last() =~= self.nodes@.subrange(
                    0,
                    i as int,
                ));
                assert(self.nodes@.subrange(0, i + 1).last() == self.nodes@[i as int]);
            }
            match self.nodes[i].kind {
                NodeKind::File => {
                    files += 1;
                },
                NodeKind::Dir => {
                    dirs += 1;
                },
            }
            i += 1;
        }
        proof {
            assert(self.nodes@.subrange(0, n as int) =~= self.nodes@);
        }
        let total = REGION_SIZE / BLOCK_SIZE;
        let used = if n < total {
            n
        } else {
            total
        };
        let want_dump = match dump {
            Some(b) => b,
            None => false,
        };
        let d = if want_dump {
            Some(self.dump_nodes())
        } else {
            None
        };
        StatFs {
            bsize: BLOCK_SIZE,
            blocks: total,
            bfree: total - used,
            bavail: total - used,
            files,
            ffree: 0,
            dirs,
            dump: d,
        }
    }

    /// One dump entry per node, in storage order: the node's path,
    /// attributes, content and its children's names.
    fn dump_nodes(&self) -> (r: Vec<DumpEntry>)
        requires
            self.wf(),
        ensures
            r@.len() == self.node_count(),
            forall|i: int| #![trigger r@[i]] 0 <= i < r@.len() ==> {
                let k = self.node_key(i);
                &&& r@[i].path@ == k
                &&& self.tree().contains_key(k)
                &&& r@[i].attr == self.tree()[k].attr
                &&& r@[i].content@ == self.tree()[k].content
                &&& r@[i].size == self.tree()[k].content.len()
                &&& r@[i].children@.len() == self.children_of(k).len()
                &&& forall|m: int| 0 <= m < r@[i].children@.len() ==> #[trigger] r@[i].children@[
                    m]@ == basename_spec(self.children_of(k)[m])
            },
    {
        let n = self.nodes.len();
        let mut out: Vec<DumpEntry> = Vec::new();
        let mut i: usize = 0;
        while i < n
            invariant
                i <= n,
                self.wf(),
                n == self.nodes@.len(),
                out@.len() == i,
                forall|j: int| #![trigger out@[j]] 0 <= j < i ==> {
                    let k = self.node_key(j);
                    &&& out@[j].path@ == k
                    &&& self.tree().contains_key(k)
                    &&& out@[j].attr == self.tree()[k].attr
                    &&& out@[j].content@ == self.tree()[k].content
                    &&& out@[j].size == self.tree()[k].content.len()
                    &&& out@[j].children@.len() == self.children_of(k).len()
                    &&& forall|m: int| 0 <= m < out@[j].children@.len() ==> #[trigger] out@[
                        j].children@[m]@ == basename_spec(self.children_of(k)[m])
                },
            decreases n - i,
        {
            let cs = self.collect_children(self.nodes[i].path.as_str());
            let mut names: Vec<String> = Vec::new();
            let m = cs.len();
            let mut k: usize = 0;
            while k < m
                invariant
                    k <= m,
                    i < self.nodes@.len(),
                    self.wf(),
                    m == cs@.len(),
                    m == child_paths(self.nodes@, self.nodes@[i as int].path@).len(),
                    forall|j2: int| 0 <= j2 < m ==> #[trigger] cs@[j2]@ == dirent_of(
                        self.tree(),
                        child_paths(self.nodes@, self.nodes@[i as int].path@)[j2],
                    ),
                    names@.len() == k,
                    forall|j2: int| 0 <= j2 < k ==> #[trigger] names@[j2]@ == cs@[j2]@.name,
                decreases m - k,
            {
                names.push(cs[k].name());
                k += 1;
            }
            proof {
                lemma_nmap_index(self.nodes@, i as int);
            }
            let e = DumpEntry {
                path: self.nodes[i].path.clone(),
                attr: self.nodes[i].attr,
                size: self.nodes[i].content.len(),
                content: self.nodes[i].content.clone(),
                children: names,
            };
            proof {
                assert(e.content@ =~= self.nodes@[i as int].content@);
            }
            out.push(e);
            i += 1;
        }
        out
    }

    /// The number of file nodes.
    pub closed spec fn file_count(self) -> nat {
        count_kind(self.nodes@, NodeKind::File)
    }

    /// The number of directory nodes, the root included.
    pub closed spec fn dir_count(self) -> nat {
        count_kind(self.nodes@, NodeKind::Dir)
    }

    /// The number of live paths.
    pub closed spec fn node_count(self) -> nat {
        self.nodes@.len()
    }

    /// The path of the node at a storage position.
    pub closed spec fn node_key(self, i: int) -> Seq<char> {
        self.nodes@[i].path@
    }
}

/// How many nodes of a kind a table holds.
pub open spec fn count_kind(nodes: Seq<Node>, k: NodeKind) -> nat
    decreases nodes.len(),
{
    if nodes.len() == 0 {
        0
    } else {
        count_kind(nodes.drop_last(), k) + (if nodes.last().kind == k {
            1nat
        } else {
            0nat
        })
    }
}

/// The access bits the owner permissions of a mode grant.
pub open spec fn access_mask(mode: u32) -> u32 {
    ((if mode & 0o400 != 0 {
        4u32
    } else {
        0u32
    }) | (if mode & 0o200 != 0 {
        2u32
    } else {
        0u32
    }) | (if mode & 0o100 != 0 {
        1u32
    } else {
        0u32
    })) as u32
}

/// The descriptor a `/proc/self/fd/` path names: its decimal suffix, or
/// descriptor zero (never open) when the suffix is empty, has a bad digit,
/// or is past the `u32` range.
pub open spec fn spec_fd_suffix(p: Seq<char>) -> usize {
    let digits = p.skip(14);
    if crate::path::valid_radix(digits, 10) && crate::path::radix_value(digits, 10) <= u32::MAX {
        crate::path::radix_value(digits, 10) as usize
    } else {
        0
    }
}

/// Reads the decimal descriptor number at the end of a `/proc/self/fd/`
/// path.
fn parse_fd_suffix(path: &str) -> (r: usize)
    requires
        path@.len() >= 14,
    ensures
        r == spec_fd_suffix(path@),
{
    let cs = str_chars(path);
    match crate::path::parse_radix(&cs, 14, 10) {
        Some(v) => v as usize,
        None => 0,
    }
}

/// The attribute record of a plain file or directory created now: fresh
/// times, owner and group zero, and the given permissions kept as they are.
pub open spec fn fresh_attr_perm_spec(mode: u32, now: u64) -> Attr {
    Attr {
        ino: 0,
        mode,
        uid: 0,
        gid: 0,
        nlink: 1,
        atime: now,
        mtime: now,
        ctime: now,
        birthtime: now,
        link: false,
        symlink: false,
    }
}

/// Builds the attribute record of a file created by open: type bits for a
/// regular file plus the sanitized permissions.
fn fresh_attr_perm(mode: u32, now: u64) -> (a: Attr)
    ensures
        a == fresh_attr_perm_spec(crate::S_IFREG | spec_sanitize_permissions(mode), now),
        forall|ino: usize| (Attr { ino, ..a }) == fresh_file_attr(mode, now, ino),
{
    Attr {
        ino: 0,
        mode: crate::S_IFREG | sanitize_permissions(mode),
        uid: 0,
        gid: 0,
        nlink: 1,
        atime: now,
        mtime: now,
        ctime: now,
        birthtime: now,
        link: false,
        symlink: false,
    }
}

/// The canonical form of the root is the root itself.
pub proof fn lemma_canon_root()
    ensures
        canon_spec(root_path()) == root_path(),
{
    let r = root_path();
    assert(r.drop_first() =~= Seq::<char>::empty());
    assert(crate::path::split_acc(r, Seq::<char>::empty()) =~= seq![
        Seq::<char>::empty(),
        Seq::<char>::empty(),
    ]) by {
        assert(crate::path::split_acc(Seq::<char>::empty(), Seq::<char>::empty()) == seq![
            Seq::<char>::empty(),
        ]);
        assert(seq![Seq::<char>::empty()] + seq![Seq::<char>::empty()] =~= seq![
            Seq::<char>::empty(),
            Seq::<char>::empty(),
        ]);
    }
    let segs = seq![Seq::<char>::empty(), Seq::<char>::empty()];
    assert(crate::path::norm_acc(seq![Seq::<char>::empty()], Seq::<Seq<char>>::empty()) =~= Seq::<
        Seq<char>,
    >::empty()) by {
        assert(seq![Seq::<char>::empty()].drop_first() =~= Seq::<Seq<char>>::empty());
        assert(crate::path::norm_acc(Seq::<Seq<char>>::empty(), Seq::<Seq<char>>::empty()) == Seq::<
            Seq<char>,
        >::empty());
    }
    assert(crate::path::norm_acc(segs, Seq::<Seq<char>>::empty()) =~= Seq::<Seq<char>>::empty())
        by {
        assert(segs.drop_first() =~= seq![Seq::<char>::empty()]);
    }
    assert(crate::path::join_acc(Seq::<Seq<char>>::empty()) == Seq::<char>::empty());
    assert(r != seq!['.'] && r != seq!['.', '.']) by {
        assert(r[0] == '/');
    }
    assert(crate::path::normalize_spec(r) == r);
}

/// The attribute record of the root right after mounting.
pub open spec fn root_attr(build_time: u64) -> Attr {
    Attr {
        ino: mounted_root_ino(),
        mode: crate::S_IFDIR | crate::DEFAULT_PERM_DIR,
        uid: 0,
        gid: 0,
        nlink: 1,
        atime: build_time,
        mtime: build_time,
        ctime: build_time,
        birthtime: build_time,
        link: false,
        symlink: false,
    }
}

/// The inode number the root gets at mount time: the first the pool gives.
pub open spec fn mounted_root_ino() -> usize {
    1
}

} // verus!
