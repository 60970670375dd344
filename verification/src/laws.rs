//! The store's laws: properties that hold of every store, proved once over
//! the abstract tree that the operations' contracts speak of.

use vstd::prelude::*;
use vstd::utf8::encode_utf8;
use crate::node::{Attr, NodeV, NodeKind};
use crate::path::{root_path, canon_spec};
use crate::fs::{resolve_hard_spec, resolve_full_spec, exists_spec, is_link_at, is_symlink_at,
    link_target, wfile_ok, wfile_node, wfile_base, wfile_start, write_at, pad_to, zero_bytes,
    with_attr, with_content_mtime, stats_of, desc_spec, access_mask, link_alias_attr, symlink_attr,
    nlink_bump, lemma_resolve_hard_stable, lemma_resolve_full_stable, MAX_HOPS, O_WRONLY, O_CREAT,
    O_TRUNC, flag_writable};

verus! {

/// A path exists exactly when statting it succeeds: both mean that the
/// path fully resolves to a live node.
pub proof fn lemma_exists_iff_stat(t: Map<Seq<char>, NodeV>, p: Seq<char>)
    ensures
        exists_spec(t, p) <==> (resolve_full_spec(t, p, MAX_HOPS as nat) is Some && t.contains_key(
            resolve_full_spec(t, p, MAX_HOPS as nat).unwrap(),
        )),
{
}

/// Writing a whole file and then reading it back yields the written bytes:
/// the write pins the resolved node's content to the data, and resolution
/// afterwards still reaches that node.
pub proof fn lemma_write_read_roundtrip(
    t: Map<Seq<char>, NodeV>,
    p: Seq<char>,
    data: Seq<u8>,
    m: u32,
    now: u64,
    ino: usize,
)
    requires
        resolve_full_spec(t, p, MAX_HOPS as nat) is Some,
        wfile_ok(
            t,
            resolve_full_spec(t, p, MAX_HOPS as nat).unwrap(),
            O_WRONLY | O_CREAT | O_TRUNC,
            data.len(),
        ),
    ensures
        ({
            let q = resolve_full_spec(t, p, MAX_HOPS as nat).unwrap();
            let t2 = t.insert(q, wfile_node(t, q, O_WRONLY | O_CREAT | O_TRUNC, data, m, now, ino));
            &&& resolve_full_spec(t2, p, MAX_HOPS as nat) == Some(q)
            &&& t2.contains_key(q)
            &&& t2[q].kind is File
            &&& t2[q].content == data
        }),
{
    let fb = O_WRONLY | O_CREAT | O_TRUNC;
    let q = resolve_full_spec(t, p, MAX_HOPS as nat).unwrap();
    let nv = wfile_node(t, q, fb, data, m, now, ino);
    assert(fb == 2u32 | 0x100u32 | 0x400u32);
    assert(fb & O_TRUNC != 0) by (bit_vector)
        requires
            fb == 2u32 | 0x100u32 | 0x400u32,
    ;
    assert(fb & 3 != 1u32) by (bit_vector)
        requires
            fb == 2u32 | 0x100u32 | 0x400u32,
    ;
    assert(flag_writable(fb));
    assert(wfile_base(t, q, fb) =~= Seq::<u8>::empty());
    assert(wfile_start(t, q, fb) == 0) by {
        assert((2u32 | 0x100u32 | 0x400u32) & 0x0800u32 == 0) by (bit_vector);
    }
    assert(nv.content =~= data) by {
        assert(pad_to(Seq::<u8>::empty(), data.len()) =~= zero_bytes(data.len()));
        assert(write_at(Seq::<u8>::empty(), 0, data) =~= data);
    }
    assert(!nv.attr.link && !nv.attr.symlink);
    assert(!is_link_at(t, q) && !is_symlink_at(t, q)) by {
        lemma_resolve_full_ends_plain(t, p, MAX_HOPS as nat);
    }
    lemma_resolve_full_stable(t, p, MAX_HOPS as nat, q, nv);
}


/// Opening a path for writing leaves an empty live file at its key; writing
/// through the descriptor then puts exactly the written bytes there, closing
/// changes nothing, and reading the path back yields those bytes.
pub proof fn lemma_open_write_close_read(
    t1: Map<Seq<char>, NodeV>,
    p: Seq<char>,
    data: Seq<u8>,
    now: u64,
)
    requires
        t1.contains_key(canon_spec(p)),
        t1[canon_spec(p)].kind is File,
        t1[canon_spec(p)].content == Seq::<u8>::empty(),
        !t1[canon_spec(p)].attr.link,
        !t1[canon_spec(p)].attr.symlink,
    ensures
        ({
            let q = canon_spec(p);
            let t2 = t1.insert(
                q,
                with_content_mtime(t1[q], write_at(t1[q].content, 0, data), now),
            );
            &&& resolve_full_spec(t2, p, MAX_HOPS as nat) == Some(q)
            &&& t2.contains_key(q)
            &&& t2[q].kind is File
            &&& t2[q].content == data
        }),
{
    let q = canon_spec(p);
    let nv = with_content_mtime(t1[q], write_at(t1[q].content, 0, data), now);
    assert(nv.content =~= data) by {
        assert(pad_to(Seq::<u8>::empty(), data.len()) =~= zero_bytes(data.len()));
        assert(write_at(Seq::<u8>::empty(), 0, data) =~= data);
    }
    assert(!is_link_at(t1, q) && !is_symlink_at(t1, q));
    lemma_resolve_full_stable(t1, p, MAX_HOPS as nat, q, nv);
    assert(resolve_full_spec(t1, p, MAX_HOPS as nat) == Some(q));
}

/// Where full resolution stops, no link flag remains: the final node is
/// neither a hardlink alias nor a symbolic link.
pub proof fn lemma_resolve_full_ends_plain(t: Map<Seq<char>, NodeV>, p: Seq<char>, fuel: nat)
    requires
        resolve_full_spec(t, p, fuel) is Some,
    ensures
        !is_link_at(t, resolve_full_spec(t, p, fuel).unwrap()),
        !is_symlink_at(t, resolve_full_spec(t, p, fuel).unwrap()),
    decreases fuel,
{
    match resolve_hard_spec(t, p, MAX_HOPS as nat) {
        Option::None => {},
        Option::Some(q) => {
            lemma_resolve_hard_ends_nonlink(t, p, MAX_HOPS as nat);
            if is_symlink_at(t, q) {
                if fuel > 0 {
                    lemma_resolve_full_ends_plain(t, link_target(t, q), (fuel - 1) as nat);
                }
            }
        },
    }
}

/// Where hardlink resolution stops, the link flag is clear.
pub proof fn lemma_resolve_hard_ends_nonlink(t: Map<Seq<char>, NodeV>, p: Seq<char>, fuel: nat)
    requires
        resolve_hard_spec(t, p, fuel) is Some,
    ensures
        !is_link_at(t, resolve_hard_spec(t, p, fuel).unwrap()),
    decreases fuel,
{
    let q = canon_spec(p);
    if is_link_at(t, q) {
        if fuel > 0 {
            lemma_resolve_hard_ends_nonlink(t, link_target(t, q), (fuel - 1) as nat);
        }
    }
}

/// After a hardlink is recorded, the alias resolves to the very node the
/// target resolves to, so reads and stats agree byte for byte and inode
/// for inode; and removing the target also removes the recorded alias.
pub proof fn lemma_link_alias_transparent(
    t: Map<Seq<char>, NodeV>,
    al: Map<Seq<char>, Seq<Seq<char>>>,
    a: Seq<char>,
    b: Seq<char>,
    ino: usize,
)
    requires
        exists_spec(t, a),
        !is_link_at(t, canon_spec(a)),
        !is_symlink_at(t, canon_spec(a)),
        !t.contains_key(canon_spec(b)),
        canon_spec(b) != root_path(),
    ensures
        ({
            let qo = canon_spec(a);
            let qn = canon_spec(b);
            let alias = NodeV {
                kind: NodeKind::File,
                content: encode_utf8(a),
                attr: link_alias_attr(t[qo].attr, ino),
            };
            let t2 = t.insert(qn, alias).insert(
                qo,
                with_attr(t[qo], Attr { nlink: nlink_bump(t[qo].attr.nlink), ..t[qo].attr }),
            );
            let al2 = al.insert(
                qo,
                (if al.contains_key(qo) {
                    al[qo]
                } else {
                    Seq::<Seq<char>>::empty()
                }).push(qn),
            );
            let t3 = t2.remove(qo).remove_keys(al2[qo].to_set().remove(root_path()));
            &&& resolve_full_spec(t2, b, MAX_HOPS as nat) == Some(qo)
            &&& resolve_full_spec(t2, a, MAX_HOPS as nat) == Some(qo)
            &&& t2[qo].content == t[qo].content
            &&& stats_of(t2[qo]).ino == t[qo].attr.ino
            &&& !t3.contains_key(qo)
            &&& !t3.contains_key(qn)
        }),
{
    let qo = canon_spec(a);
    let qn = canon_spec(b);
    let alias = NodeV {
        kind: NodeKind::File,
        content: encode_utf8(a),
        attr: link_alias_attr(t[qo].attr, ino),
    };
    let t2 = t.insert(qn, alias).insert(
        qo,
        with_attr(t[qo], Attr { nlink: nlink_bump(t[qo].attr.nlink), ..t[qo].attr }),
    );
    assert(exists_spec(t, a) ==> t.contains_key(qo)) by {
        assert(resolve_full_spec(t, a, MAX_HOPS as nat) == Some(qo));
    }
    assert(qo != qn);
    assert(is_link_at(t2, qn));
    assert(link_target(t2, qn) == a) by {
        broadcast use vstd::utf8::encode_utf8_decode_utf8;

    }
    assert(!is_link_at(t2, qo) && !is_symlink_at(t2, qo));
    assert(resolve_full_spec(t2, a, MAX_HOPS as nat) == Some(qo));
    assert(resolve_hard_spec(t2, b, MAX_HOPS as nat) == Some(qo)) by {
        assert(resolve_hard_spec(t2, a, (MAX_HOPS - 1) as nat) == Some(qo));
    }
    assert(resolve_full_spec(t2, b, MAX_HOPS as nat) == Some(qo));
    let al2 = al.insert(
        qo,
        (if al.contains_key(qo) {
            al[qo]
        } else {
            Seq::<Seq<char>>::empty()
        }).push(qn),
    );
    let t3 = t2.remove(qo).remove_keys(al2[qo].to_set().remove(root_path()));
    assert(al2[qo].to_set().contains(qn)) by {
        assert(al2[qo].last() == qn);
    }
    assert(!t3.contains_key(qn));
    assert(!t3.contains_key(qo));
}

/// After a symbolic link is made, the link node itself carries the symlink
/// type and the target path, while following it reaches the very node the
/// target reaches, so stats through it agree.
pub proof fn lemma_symlink_transparent(
    t: Map<Seq<char>, NodeV>,
    a: Seq<char>,
    b: Seq<char>,
    perm: u32,
    now: u64,
    ino: usize,
)
    requires
        exists_spec(t, a),
        !is_link_at(t, canon_spec(a)),
        !is_symlink_at(t, canon_spec(a)),
        !t.contains_key(canon_spec(b)),
    ensures
        ({
            let qo = canon_spec(a);
            let qn = canon_spec(b);
            let link = NodeV {
                kind: NodeKind::File,
                content: encode_utf8(a),
                attr: symlink_attr(ino, perm, now),
            };
            let t2 = t.insert(qn, link).insert(
                qo,
                with_attr(t[qo], Attr { nlink: nlink_bump(t[qo].attr.nlink), ..t[qo].attr }),
            );
            &&& resolve_hard_spec(t2, b, MAX_HOPS as nat) == Some(qn)
            &&& is_symlink_at(t2, qn)
            &&& t2[qn].content == encode_utf8(a)
            &&& stats_of(t2[qn]).mode & crate::S_IFMT == crate::S_IFLNK
            &&& resolve_full_spec(t2, b, MAX_HOPS as nat) == Some(qo)
            &&& resolve_full_spec(t2, a, MAX_HOPS as nat) == Some(qo)
            &&& stats_of(t2[qo]) == stats_of(t2[resolve_full_spec(t2, b, MAX_HOPS as nat).unwrap()])
        }),
{
    let qo = canon_spec(a);
    let qn = canon_spec(b);
    let link = NodeV {
        kind: NodeKind::File,
        content: encode_utf8(a),
        attr: symlink_attr(ino, perm, now),
    };
    let t2 = t.insert(qn, link).insert(
        qo,
        with_attr(t[qo], Attr { nlink: nlink_bump(t[qo].attr.nlink), ..t[qo].attr }),
    );
    assert(exists_spec(t, a) ==> t.contains_key(qo)) by {
        assert(resolve_full_spec(t, a, MAX_HOPS as nat) == Some(qo));
    }
    assert(qo != qn);
    assert(!is_link_at(t2, qn));
    assert(is_symlink_at(t2, qn));
    assert(link_target(t2, qn) == a) by {
        broadcast use vstd::utf8::encode_utf8_decode_utf8;

    }
    let pm = crate::node::spec_sanitize_permissions(perm);
    assert((0o120000u32 | pm) & 0o170000u32 == 0o120000u32) by (bit_vector)
        requires
            pm == perm & (0o777u32 | 0o666u32),
    ;
    assert(stats_of(t2[qn]).mode == crate::S_IFLNK | pm);
    assert(!is_link_at(t2, qo) && !is_symlink_at(t2, qo));
    assert(resolve_full_spec(t2, a, MAX_HOPS as nat) == Some(qo));
    assert(resolve_full_spec(t2, b, MAX_HOPS as nat) == Some(qo)) by {
        assert(resolve_hard_spec(t2, b, MAX_HOPS as nat) == Some(qn));
        assert(resolve_hard_spec(t2, a, MAX_HOPS as nat) == Some(qo));
        assert(resolve_full_spec(t2, a, (MAX_HOPS - 1) as nat) == Some(qo));
    }
}

/// After a rename, the old name is gone and the new name is live.
pub proof fn lemma_rename_moves(t: Map<Seq<char>, NodeV>, qo: Seq<char>, qn: Seq<char>, now: u64)
    requires
        t.contains_key(qo),
        !t.contains_key(qn),
    ensures
        ({
            let t2 = t.remove(qo).insert(qn, with_attr(t[qo], Attr { ctime: now, ..t[qo].attr }));
            &&& !t2.contains_key(qo)
            &&& t2.contains_key(qn)
        }),
{
}

/// After a recursive removal, the removed path no longer exists and no
/// stored descendant of it remains.
pub proof fn lemma_removed_subtree_gone(t3: Map<Seq<char>, NodeV>, p: Seq<char>)
    requires
        forall|k: Seq<char>| #[trigger]
            t3.contains_key(k) ==> !desc_spec(k, canon_spec(p)) || k == root_path(),
        canon_spec(p) != root_path(),
    ensures
        !exists_spec(t3, p),
        forall|k: Seq<char>| #[trigger]
            t3.contains_key(k) ==> !desc_spec(k, canon_spec(p)) || k == root_path(),
{
    let q = canon_spec(p);
    assert(desc_spec(q, q));
    assert(!t3.contains_key(q));
    assert(!is_link_at(t3, q));
    assert(resolve_hard_spec(t3, p, MAX_HOPS as nat) == Some(q));
    assert(!is_symlink_at(t3, q));
}

/// The access check agrees with the owner permission bits of the mode
/// word: read asks for the owner read bit, write for the owner write bit,
/// execute for the owner execute bit.
pub proof fn lemma_access_matches_mode(m: u32)
    ensures
        access_mask(m) & 4 == 4 <==> m & 0o400 != 0,
        access_mask(m) & 2 == 2 <==> m & 0o200 != 0,
        access_mask(m) & 1 == 1 <==> m & 0o100 != 0,
{
    let am = access_mask(m);
    assert((am & 4 == 4 <==> m & 0o400 != 0) && (am & 2 == 2 <==> m & 0o200 != 0) && (am & 1 == 1
        <==> m & 0o100 != 0)) by (bit_vector)
        requires
            am == ((if m & 0o400 != 0 {
                4u32
            } else {
                0u32
            }) | (if m & 0o200 != 0 {
                2u32
            } else {
                0u32
            }) | (if m & 0o100 != 0 {
                1u32
            } else {
                0u32
            })) as u32,
    ;
}

/// A chain of symbolic links: the path hops through exactly `n` symlink
/// nodes, none a hardlink alias, and ends at a plain key.
pub open spec fn sym_chain(t: Map<Seq<char>, NodeV>, p: Seq<char>, n: nat) -> bool
    decreases n,
{
    let q = canon_spec(p);
    if is_link_at(t, q) {
        false
    } else if is_symlink_at(t, q) {
        n > 0 && sym_chain(t, link_target(t, q), (n - 1) as nat)
    } else {
        n == 0
    }
}

/// Any chain of at most 100 symbolic links resolves.
pub proof fn lemma_chain_resolves(t: Map<Seq<char>, NodeV>, p: Seq<char>, n: nat, fuel: nat)
    requires
        sym_chain(t, p, n),
        n <= fuel,
    ensures
        resolve_full_spec(t, p, fuel) is Some,
    decreases n,
{
    let q = canon_spec(p);
    assert(resolve_hard_spec(t, p, MAX_HOPS as nat) == Some(q));
    if is_symlink_at(t, q) {
        lemma_chain_resolves(t, link_target(t, q), (n - 1) as nat, (fuel - 1) as nat);
    }
}

/// A set of symlink nodes closed under their targets: every member is a
/// canonical symlink key whose target's canonical form is again a member.
pub open spec fn sym_cycle(t: Map<Seq<char>, NodeV>, c: Set<Seq<char>>) -> bool {
    forall|q: Seq<char>| #[trigger]
        c.contains(q) ==> is_symlink_at(t, q) && !is_link_at(t, q) && canon_spec(q) == q
            && c.contains(canon_spec(link_target(t, q)))
}

/// Resolution starting anywhere on a symlink cycle fails, whatever the
/// budget.
pub proof fn lemma_cycle_fails(t: Map<Seq<char>, NodeV>, c: Set<Seq<char>>, p: Seq<char>, fuel: nat)
    requires
        sym_cycle(t, c),
        c.contains(canon_spec(p)),
    ensures
        resolve_full_spec(t, p, fuel) is None,
    decreases fuel,
{
    let q = canon_spec(p);
    assert(is_symlink_at(t, q) && !is_link_at(t, q));
    assert(resolve_hard_spec(t, p, MAX_HOPS as nat) == Some(q));
    if fuel > 0 {
        lemma_cycle_fails(t, c, link_target(t, q), (fuel - 1) as nat);
    }
}

} // verus!
