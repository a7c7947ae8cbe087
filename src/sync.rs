use vstd::prelude::*;
use crate::laws::{lemma_all_child, lemma_all_upto_first, lemma_in_upto, synced};
use crate::records::{all_folders, child_files, child_folder_ids, rec_at, record_of, FolderRecord};
use crate::tree::{Folder, Node};

verus! {

/// Two folders are stored as the same record under the same identifier.
pub open spec fn same_record(x: Folder, y: Folder) -> bool {
    &&& x.id@ == y.id@
    &&& x.name@ == y.name@
    &&& x.metadata@ == y.metadata@
    &&& child_folder_ids(x.children@) == child_folder_ids(y.children@)
    &&& child_files(x.children@) == child_files(y.children@)
}

/// Every clean folder of `b` is stored as a clean folder of `a` was: a change
/// from `a` to `b` marked dirty every folder whose record it changed.
pub open spec fn kept(a: Folder, b: Folder) -> bool {
    forall|y: Folder|
        #[trigger] all_folders(b).contains(y) && !y.dirty ==> exists|x: Folder|
            #[trigger] all_folders(a).contains(x) && !x.dirty && same_record(x, y)
}

/// Every folder of the subtree is dirty: none of it is in the store yet.
pub open spec fn all_dirty(d: Folder) -> bool {
    forall|x: Folder| #[trigger] all_folders(d).contains(x) ==> x.dirty
}

/// A node that holds no clean folder.
pub open spec fn fresh_node(n: Node) -> bool {
    match n {
        Node::File(_) => true,
        Node::Folder(d) => all_dirty(d),
    }
}

/// A store that holds the records of the clean folders of `a` holds those of
/// the clean folders of `b`.
pub proof fn lemma_kept_synced(s: Seq<(String, FolderRecord)>, a: Folder, b: Folder)
    requires
        synced(s, a),
        kept(a, b),
    ensures
        synced(s, b),
{
    assert forall|y: Folder| #[trigger] all_folders(b).contains(y) && !y.dirty implies rec_at(s, y.id@)
        >= 0 && record_of(y, s[rec_at(s, y.id@)].1) by {
        let x = choose|x: Folder| #[trigger] all_folders(a).contains(x) && !x.dirty && same_record(x, y);
        assert(record_of(x, s[rec_at(s, x.id@)].1));
    }
}

pub proof fn lemma_kept_refl(a: Folder)
    ensures
        kept(a, a),
{
    assert forall|y: Folder| #[trigger] all_folders(a).contains(y) && !y.dirty implies exists|x: Folder|
        #[trigger] all_folders(a).contains(x) && !x.dirty && same_record(x, y) by {
        assert(same_record(y, y));
    }
}

/// Nothing clean comes of a change that started from nothing clean.
pub proof fn lemma_kept_dirty(a: Folder, b: Folder)
    requires
        kept(a, b),
        all_dirty(a),
    ensures
        all_dirty(b),
{
    assert forall|y: Folder| #[trigger] all_folders(b).contains(y) implies y.dirty by {
        if !y.dirty {
            let x = choose|x: Folder| #[trigger] all_folders(a).contains(x) && !x.dirty && same_record(x, y);
        }
    }
}

proof fn lemma_ids_update(c: Seq<Node>, i: int, c0: Folder, c1: Folder)
    requires
        0 <= i < c.len(),
        c[i] == Node::Folder(c0),
        c1.id@ == c0.id@,
    ensures
        child_folder_ids(c.update(i, Node::Folder(c1))) == child_folder_ids(c),
        child_files(c.update(i, Node::Folder(c1))) == child_files(c),
    decreases c.len(),
{
    let u = c.update(i, Node::Folder(c1));
    if i < c.len() - 1 {
        assert(u.drop_last() =~= c.drop_last().update(i, Node::Folder(c1)));
        lemma_ids_update(c.drop_last(), i, c0, c1);
    } else {
        assert(u.drop_last() =~= c.drop_last());
    }
}

/// A clean folder below a child of `b` that equals the same child of `a` is a
/// clean folder of `a`.
proof fn lemma_kept_child(a: Folder, b: Folder, k: int, y: Folder)
    requires
        0 <= k < a.children@.len(),
        k < b.children@.len(),
        b.children@[k] == a.children@[k],
        b.children@[k] is Folder,
        all_folders(b.children@[k]->Folder_0).contains(y),
    ensures
        all_folders(a).contains(y),
{
    lemma_all_child(a, k, a.children@.len() as int);
}

/// Replacing one child folder by a kept version of it, with the folder's own
/// record untouched or marked dirty, keeps the tree.
pub proof fn lemma_kept_update(a: Folder, b: Folder, i: int, c0: Folder, c1: Folder)
    requires
        0 <= i < a.children@.len(),
        a.children@[i] == Node::Folder(c0),
        b.children@ == a.children@.update(i, Node::Folder(c1)),
        c1.id@ == c0.id@,
        kept(c0, c1),
        b.id@ == a.id@,
        b.name@ == a.name@,
        b.metadata@ == a.metadata@,
        b.dirty || !a.dirty,
    ensures
        kept(a, b),
{
    lemma_ids_update(a.children@, i, c0, c1);
    lemma_all_upto_first(a, a.children@.len() as int);
    assert(all_folders(a)[0] == a);
    assert forall|y: Folder| #[trigger] all_folders(b).contains(y) && !y.dirty implies exists|x: Folder|
        #[trigger] all_folders(a).contains(x) && !x.dirty && same_record(x, y) by {
        lemma_in_upto(b, b.children@.len() as int, y);
        if y == b {
            assert(all_folders(a).contains(a));
            assert(same_record(a, b));
        } else {
            let k = choose|k: int|
                0 <= k < b.children@.len() && (#[trigger] b.children@[k]) is Folder && all_folders(
                    b.children@[k]->Folder_0,
                ).contains(y);
            if k == i {
                let x = choose|x: Folder| #[trigger] all_folders(c0).contains(x) && !x.dirty && same_record(x, y);
                lemma_all_child(a, i, a.children@.len() as int);
                assert(all_folders(a).contains(x));
            } else {
                lemma_kept_child(a, b, k, y);
                assert(same_record(y, y));
            }
        }
    }
}

/// Changing the children of a folder that is marked dirty, by adding fresh
/// nodes, keeps the tree, so long as every other child stays.
pub proof fn lemma_kept_dirty_parent(a: Folder, b: Folder)
    requires
        b.dirty,
        forall|k: int|
            0 <= k < b.children@.len() && (#[trigger] b.children@[k]) is Folder ==> fresh_node(b.children@[k])
                || exists|j: int| 0 <= j < a.children@.len() && a.children@[j] == b.children@[k],
    ensures
        kept(a, b),
{
    assert forall|y: Folder| #[trigger] all_folders(b).contains(y) && !y.dirty implies exists|x: Folder|
        #[trigger] all_folders(a).contains(x) && !x.dirty && same_record(x, y) by {
        lemma_in_upto(b, b.children@.len() as int, y);
        if y != b {
            let k = choose|k: int|
                0 <= k < b.children@.len() && (#[trigger] b.children@[k]) is Folder && all_folders(
                    b.children@[k]->Folder_0,
                ).contains(y);
            if fresh_node(b.children@[k]) {
                assert(all_dirty(b.children@[k]->Folder_0));
            } else {
                let j = choose|j: int| 0 <= j < a.children@.len() && a.children@[j] == b.children@[k];
                lemma_all_child(a, j, a.children@.len() as int);
                assert(all_folders(a).contains(y));
                assert(same_record(y, y));
            }
        }
    }
}

pub proof fn lemma_kept_trans(a: Folder, b: Folder, c: Folder)
    requires
        kept(a, b),
        kept(b, c),
    ensures
        kept(a, c),
{
    assert forall|z: Folder| #[trigger] all_folders(c).contains(z) && !z.dirty implies exists|x: Folder|
        #[trigger] all_folders(a).contains(x) && !x.dirty && same_record(x, z) by {
        let y = choose|y: Folder| #[trigger] all_folders(b).contains(y) && !y.dirty && same_record(y, z);
        let x = choose|x: Folder| #[trigger] all_folders(a).contains(x) && !x.dirty && same_record(x, y);
        assert(same_record(x, z));
    }
}

} // verus!
