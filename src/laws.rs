use vstd::prelude::*;
use crate::error::GodataErrorType;
use crate::path::views;
use crate::fsystem::root_id;
use vstd::set_lib::{lemma_int_range, lemma_len_subset, set_int_range};
use crate::fsystem::lemma_same_shape_files;
use crate::records::{
    all_folders, all_upto, built_from, child_files, child_folder_ids, file_last, file_named,
    file_record_of, folder_last, folder_named, ids_distinct, lemma_rec_at, rec_at, rec_name,
    record_of, writes_hold, FolderRecord, dirty_folders, dirty_upto, same_shape, tree_outcome,
    children_outcome,
};
use crate::tree::{
    single_chain, child, names_unique, node_name,
    cut_len, displaced, drain_spec, drain_upto, empties, file_at, find_index, first_folder,
    insert_refusal, lemma_find, lemma_walk_found_step, lookup, remove_cut, walk, wf, File, Folder,
    Node, Walk,
};

verus! {

/// Whatever stands at a path, a folder stands at the path of its parent.
pub proof fn lemma_walk_parent(d: Folder, s: Seq<Seq<char>>)
    requires
        s.len() >= 1,
        walk(d, s) is Found,
    ensures
        walk(d, s.drop_last()) matches Walk::Found(Node::Folder(_)),
    decreases s.len(),
{
    if s.len() >= 2 {
        lemma_walk_found_step(d, s);
        lemma_walk_parent(first_folder(d, s), s.drop_first());
        assert(s.drop_last().drop_first() =~= s.drop_first().drop_last());
        assert(s.drop_last()[0] == s[0]);
        if s.len() == 2 {
            assert(s.drop_first().drop_last().len() == 0);
        }
    } else {
        assert(s.drop_last().len() == 0);
    }
}

/// Inserting without `overwrite` where something already stands is refused as
/// a duplicate; `insert` then leaves the tree as it was.
pub proof fn lemma_uniqueness(d: Folder, s: Seq<Seq<char>>)
    requires
        s.len() >= 1,
        lookup(d, s) is Some,
    ensures
        insert_refusal(d, s.drop_last(), s.last(), false) == Some(GodataErrorType::AlreadyExists),
{
    lemma_walk_parent(d, s);
    assert(s.drop_last().push(s.last()) =~= s);
}

proof fn lemma_single_empties(d: Folder, s: Seq<Seq<char>>)
    requires
        s.len() >= 1,
        walk(d, s) is Found,
        d.children@.len() == 1,
        single_chain(d, s),
    ensures
        empties(d, s),
    decreases s.len(),
{
    if s.len() >= 2 {
        lemma_walk_found_step(d, s);
        lemma_single_empties(first_folder(d, s), s.drop_first());
    }
}

/// Removing the only file of a chain of folders that each hold one child
/// removes the whole chain: the node detached is the one at the first name.
pub proof fn lemma_collapse(d: Folder, s: Seq<Seq<char>>)
    requires
        s.len() >= 1,
        walk(d, s) is Found,
        single_chain(d, s),
    ensures
        remove_cut(d, s) == 1,
{
    if s.len() >= 2 && !empties(d, s) {
        lemma_walk_found_step(d, s);
        lemma_single_empties(first_folder(d, s), s.drop_first());
    }
}

/// The folder holding the node at `s` holds another child too.
pub open spec fn has_sibling(d: Folder, s: Seq<Seq<char>>) -> bool {
    walk(d, s.drop_last()) matches Walk::Found(Node::Folder(p)) && p.children@.len() >= 2
}

/// Removing a node that has a sibling detaches that node alone: its folder and
/// its siblings stay.
pub proof fn lemma_no_collapse(d: Folder, s: Seq<Seq<char>>)
    requires
        s.len() >= 1,
        walk(d, s) is Found,
        has_sibling(d, s),
    ensures
        !empties(d, s),
        cut_len(d, s) == s.len(),
        remove_cut(d, s) == s.len(),
    decreases s.len(),
{
    if s.len() == 1 {
        assert(s.drop_last().len() == 0);
    } else {
        lemma_walk_found_step(d, s);
        let c = first_folder(d, s);
        let t = s.drop_first();
        assert(t.drop_last() =~= s.drop_last().drop_first());
        if s.len() == 2 {
            assert(s.drop_last() =~= seq![s[0]]);
            assert(t.drop_last().len() == 0);
            lemma_find(d.children@, s[0]);
        } else {
            assert(s.drop_last()[0] == s[0]);
        }
        lemma_no_collapse(c, t);
    }
}

proof fn lemma_drain_upto_has(d: Folder, n: int, j: int, f: File)
    requires
        0 <= j < n <= d.children@.len(),
        (match d.children@[j] {
            Node::File(g) => g == f,
            Node::Folder(c) => drain_spec(c).contains(f),
        }),
    ensures
        drain_upto(d, n).contains(f),
    decreases n,
{
    let here = match d.children@[n - 1] {
        Node::File(g) => seq![g],
        Node::Folder(c) => drain_upto(c, c.children@.len() as int),
    };
    let rest = drain_upto(d, n - 1);
    assert(drain_upto(d, n) == here + rest);
    if j == n - 1 {
        match d.children@[j] {
            Node::File(g) => {
                assert(here[0] == f);
                assert((here + rest)[0] == f);
            },
            Node::Folder(c) => {
                assert(here == drain_spec(c));
                let k = choose|k: int| 0 <= k < here.len() && here[k] == f;
                assert((here + rest)[k] == f);
            },
        }
    } else {
        lemma_drain_upto_has(d, n - 1, j, f);
        let k = choose|k: int| 0 <= k < rest.len() && rest[k] == f;
        assert((here + rest)[here.len() + k] == f);
    }
}

/// Every file below a folder is among the files that draining it hands back.
pub proof fn lemma_drain_complete(d: Folder, q: Seq<Seq<char>>)
    requires
        file_at(d, q) is Some,
    ensures
        drain_spec(d).contains(file_at(d, q)->Some_0),
    decreases q.len(),
{
    lemma_find(d.children@, q[0]);
    let j = find_index(d.children@, q[0]);
    let f = file_at(d, q)->Some_0;
    if q.len() == 1 {
        lemma_drain_upto_has(d, d.children@.len() as int, j, f);
    } else {
        if let Node::Folder(c) = d.children@[j] {
            lemma_drain_complete(c, q.drop_first());
            lemma_drain_upto_has(d, d.children@.len() as int, j, f);
        }
    }
}

/// Below a file nothing can be reached.
pub proof fn lemma_below_file(d: Folder, s: Seq<Seq<char>>, q: Seq<Seq<char>>)
    requires
        walk(d, s) matches Walk::Found(Node::File(_)),
        s.is_prefix_of(q),
        q.len() > s.len(),
    ensures
        walk(d, q) is ThroughFile,
    decreases s.len(),
{
    assert(q[0] == s[0]);
    lemma_find(d.children@, s[0]);
    if s.len() > 1 {
        lemma_walk_found_step(d, s);
        assert(s.drop_first().is_prefix_of(q.drop_first())) by {
            assert(q.drop_first().subrange(0, s.len() - 1) =~= s.drop_first());
        }
        lemma_below_file(first_folder(d, s), s.drop_first(), q.drop_first());
    }
}

/// Overwriting a folder with a file hands back every file that was below the
/// folder, and leaves nothing reachable below the path.
pub proof fn lemma_overwrite_drains(old_root: Folder, new_root: Folder, s: Seq<Seq<char>>, q: Seq<
    Seq<char>,
>)
    requires
        lookup(old_root, s) matches Some(Node::Folder(_)),
        walk(new_root, s) matches Walk::Found(Node::File(_)),
        s.is_prefix_of(q),
        q.len() > s.len(),
    ensures
        file_at(old_root, q) is Some ==> displaced(lookup(old_root, s)->Some_0).contains(
            file_at(old_root, q)->Some_0,
        ),
        walk(new_root, q) is ThroughFile,
{
    lemma_below_file(new_root, s, q);
    if file_at(old_root, q) is Some {
        let g = lookup(old_root, s)->Some_0->Folder_0;
        lemma_walk_concat(old_root, s, q.subrange(s.len() as int, q.len() as int));
        assert(s + q.subrange(s.len() as int, q.len() as int) =~= q);
        lemma_drain_complete(g, q.subrange(s.len() as int, q.len() as int));
    }
}

/// Walking a concatenation of paths is walking the first, then the second.
pub proof fn lemma_walk_concat(d: Folder, a: Seq<Seq<char>>, b: Seq<Seq<char>>)
    ensures
        walk(d, a + b) == match walk(d, a) {
            Walk::Found(Node::Folder(c)) => walk(c, b),
            Walk::Found(Node::File(f)) => if b.len() == 0 {
                Walk::Found(Node::File(f))
            } else {
                Walk::ThroughFile
            },
            Walk::Missing => Walk::Missing,
            Walk::ThroughFile => Walk::ThroughFile,
        },
    decreases a.len(),
{
    if a.len() == 0 {
        assert(a + b =~= b);
    } else {
        assert((a + b)[0] == a[0]);
        assert((a + b).drop_first() =~= a.drop_first() + b);
        lemma_find(d.children@, a[0]);
        let i = find_index(d.children@, a[0]);
        if i >= 0 {
            if let Node::Folder(c) = d.children@[i] {
                lemma_walk_concat(c, a.drop_first(), b);
                if a.len() == 1 {
                    assert(a.drop_first().len() == 0);
                    assert(a.drop_first() + b =~= b);
                }
            }
        }
    }
}

/// Where the files of a list of children stand in it.
pub open spec fn file_positions(c: Seq<Node>) -> Seq<int>
    decreases c.len(),
{
    if c.len() == 0 {
        Seq::empty()
    } else {
        match c.last() {
            Node::File(_) => file_positions(c.drop_last()).push(c.len() - 1),
            Node::Folder(_) => file_positions(c.drop_last()),
        }
    }
}

/// Where the folders of a list of children stand in it.
pub open spec fn folder_positions(c: Seq<Node>) -> Seq<int>
    decreases c.len(),
{
    if c.len() == 0 {
        Seq::empty()
    } else {
        match c.last() {
            Node::Folder(_) => folder_positions(c.drop_last()).push(c.len() - 1),
            Node::File(_) => folder_positions(c.drop_last()),
        }
    }
}

proof fn lemma_file_positions(c: Seq<Node>)
    ensures
        file_positions(c).len() == child_files(c).len(),
        forall|j: int|
            0 <= j < file_positions(c).len() ==> 0 <= #[trigger] file_positions(c)[j] < c.len()
                && c[file_positions(c)[j]] == Node::File(child_files(c)[j]),
        forall|j1: int, j2: int|
            0 <= j1 < j2 < file_positions(c).len() ==> file_positions(c)[j1] < file_positions(
                c,
            )[j2],
        forall|k: int|
            0 <= k < c.len() && (#[trigger] c[k]) is File ==> exists|j: int|
                0 <= j < file_positions(c).len() && file_positions(c)[j] == k,
    decreases c.len(),
{
    if c.len() > 0 {
        let d = c.drop_last();
        lemma_file_positions(d);
        assert forall|k: int| 0 <= k < d.len() implies d[k] == c[k] by {}
        let p = file_positions(c);
        let pd = file_positions(d);
        assert forall|k: int| 0 <= k < c.len() && (#[trigger] c[k]) is File implies exists|j: int|
            0 <= j < p.len() && p[j] == k by {
            if k < c.len() - 1 {
                assert(d[k] == c[k]);
                let j = choose|j: int| 0 <= j < pd.len() && pd[j] == k;
                assert(p[j] == k);
            } else {
                assert(p[p.len() - 1] == k);
            }
        }
    }
}

proof fn lemma_folder_positions(c: Seq<Node>)
    ensures
        folder_positions(c).len() == child_folder_ids(c).len(),
        forall|j: int|
            0 <= j < folder_positions(c).len() ==> 0 <= #[trigger] folder_positions(c)[j] < c.len()
                && (c[folder_positions(c)[j]] matches Node::Folder(x) && x.id@ == child_folder_ids(
                c,
            )[j]),
        forall|j1: int, j2: int|
            0 <= j1 < j2 < folder_positions(c).len() ==> folder_positions(c)[j1]
                < folder_positions(c)[j2],
        forall|k: int|
            0 <= k < c.len() && (#[trigger] c[k]) is Folder ==> exists|j: int|
                0 <= j < folder_positions(c).len() && folder_positions(c)[j] == k,
    decreases c.len(),
{
    if c.len() > 0 {
        let d = c.drop_last();
        lemma_folder_positions(d);
        assert forall|k: int| 0 <= k < d.len() implies d[k] == c[k] by {}
        let p = folder_positions(c);
        let pd = folder_positions(d);
        assert forall|k: int| 0 <= k < c.len() && (#[trigger] c[k]) is Folder implies exists|j: int|
            0 <= j < p.len() && p[j] == k by {
            if k < c.len() - 1 {
                assert(d[k] == c[k]);
                let j = choose|j: int| 0 <= j < pd.len() && pd[j] == k;
                assert(p[j] == k);
            } else {
                assert(p[p.len() - 1] == k);
            }
        }
    }
}

pub proof fn lemma_all_upto_first(d: Folder, i: int)
    ensures
        all_upto(d, i).len() >= 1,
        all_upto(d, i)[0] == d,
    decreases i,
{
    if 0 < i <= d.children@.len() {
        lemma_all_upto_first(d, i - 1);
    }
}

/// The folders below a child are among the folders below its parent.
pub proof fn lemma_all_child(g: Folder, k: int, i: int)
    requires
        0 <= k < i <= g.children@.len(),
        g.children@[k] is Folder,
    ensures
        forall|y: Folder|
            all_folders(g.children@[k]->Folder_0).contains(y) ==> #[trigger] all_upto(g, i).contains(y),
    decreases i,
{
    let c = g.children@[k]->Folder_0;
    let prev = all_upto(g, i - 1);
    let here = match g.children@[i - 1] {
        Node::File(_) => Seq::<Folder>::empty(),
        Node::Folder(x) => all_upto(x, x.children@.len() as int),
    };
    assert(all_upto(g, i) == prev + here);
    assert forall|y: Folder| all_folders(c).contains(y) implies #[trigger] all_upto(g, i).contains(y) by {
        if k == i - 1 {
            let m = choose|m: int| 0 <= m < here.len() && here[m] == y;
            assert((prev + here)[prev.len() + m] == y);
        } else {
            lemma_all_child(g, k, i - 1);
            assert(prev.contains(y));
            let m = choose|m: int| 0 <= m < prev.len() && prev[m] == y;
            assert((prev + here)[m] == y);
        }
    }
}

/// The store holds, under the identifier of each folder of `t`, that folder's
/// own record.
pub open spec fn mirrors_all(s: Seq<(String, FolderRecord)>, t: Folder) -> bool {
    forall|x: Folder|
        #[trigger] all_folders(t).contains(x) ==> rec_at(s, x.id@) >= 0 && record_of(
            x,
            s[rec_at(s, x.id@)].1,
        )
}

/// An export of a tree whose identifiers are distinct holds each folder's record.
pub proof fn lemma_export_mirrors(t: Folder, s: Seq<(String, FolderRecord)>)
    requires
        ids_distinct(t),
        writes_hold(s, 0, all_folders(t)),
    ensures
        mirrors_all(s, t),
{
    assert forall|x: Folder| #[trigger] all_folders(t).contains(x) implies rec_at(s, x.id@) >= 0
        && record_of(x, s[rec_at(s, x.id@)].1) by {
        lemma_export_record(t, s, x);
    }
}

proof fn lemma_export_record(t: Folder, s: Seq<(String, FolderRecord)>, x: Folder)
    requires
        ids_distinct(t),
        writes_hold(s, 0, all_folders(t)),
        all_folders(t).contains(x),
    ensures
        rec_at(s, x.id@) >= 0,
        record_of(x, s[rec_at(s, x.id@)].1),
{
    let all = all_folders(t);
    let m = choose|m: int| 0 <= m < all.len() && all[m] == x;
    assert(s[0 + m].0@ == all[m].id@);
    lemma_rec_at(s, x.id@);
    let r = rec_at(s, x.id@);
    assert(s[0 + r].0@ == all[r].id@);
    assert(s[0 + m] == s[m]);
    assert(s[0 + r] == s[r]);
}

/// The file at a path, as stored: its name, real path, identifier and metadata.
pub open spec fn file_view(d: Folder, q: Seq<Seq<char>>) -> Option<
    (Seq<char>, Seq<char>, Seq<char>, Seq<(String, String)>),
> {
    match file_at(d, q) {
        Some(f) => Some((f.name@, f.real_path@, f.id@, f.metadata@)),
        None => None,
    }
}

proof fn lemma_loaded_level(
    t: Folder,
    s: Seq<(String, FolderRecord)>,
    g: Folder,
    d: Folder,
    n: Seq<char>,
)
    requires
        mirrors_all(s, t),
        all_folders(t).contains(g),
        forall|y: Folder| all_folders(g).contains(y) ==> #[trigger] all_folders(t).contains(y),
        wf(g),
        built_from(s, d),
        d.id@ == g.id@,
    ensures
        child(g, n) is None ==> child(d, n) is None,
        child(g, n) matches Some(Node::File(f)) ==> (child(d, n) matches Some(Node::File(f2))
            && f2.name@ == f.name@ && f2.real_path@ == f.real_path@ && f2.id@ == f.id@
            && f2.metadata@ == f.metadata@),
        child(g, n) matches Some(Node::Folder(c)) ==> (child(d, n) matches Some(Node::Folder(c2))
            && c2.id@ == c.id@ && built_from(s, c2) && all_folders(t).contains(c)),
{
    let r = s[rec_at(s, g.id@)].1;
    let c = g.children@;
    lemma_file_positions(c);
    lemma_folder_positions(c);
    lemma_find(c, n);
    lemma_find(d.children@, n);
    lemma_all_upto_first(g, c.len() as int);
    assert forall|k: int| 0 <= k < c.len() && (#[trigger] c[k]) is Folder implies rec_name(
        s,
        c[k]->Folder_0.id@,
    ) == node_name(c[k]) && all_folders(t).contains(c[k]->Folder_0) by {
        let x = c[k]->Folder_0;
        lemma_all_child(g, k, c.len() as int);
        lemma_all_upto_first(x, x.children@.len() as int);
        assert(all_folders(x)[0] == x);
        assert(all_folders(x).contains(x));
        assert(all_folders(g).contains(x));
        assert(all_folders(t).contains(x));
    }
    let fp = file_positions(c);
    let dp = folder_positions(c);
    let fids = r.folder_ids@;
    assert(views(fids) == child_folder_ids(c));
    assert forall|j: int| 0 <= j < fids.len() implies rec_name(s, (#[trigger] fids[j])@) == node_name(
        c[dp[j]],
    ) by {
        assert(views(fids)[j] == fids[j]@);
        assert(c[dp[j]] is Folder);
    }
    assert forall|j: int| 0 <= j < r.files@.len() implies (#[trigger] r.files@[j]).name@ == node_name(
        c[fp[j]],
    ) by {
        assert(file_record_of(child_files(c)[j], r.files@[j]));
    }
    if child(d, n) is Some {
        if file_named(r, n) {
            let m = choose|m: int| 0 <= m < r.files@.len() && (#[trigger] r.files@[m]).name@ == n;
            assert(node_name(c[fp[m]]) == n);
        } else {
            assert(folder_named(s, r, n));
            let m = choose|m: int| 0 <= m < fids.len() && rec_name(s, (#[trigger] fids[m])@) == n;
            assert(node_name(c[dp[m]]) == n);
        }
    }
    let k = find_index(c, n);
    if k >= 0 {
        match c[k] {
            Node::File(f) => {
                let j = choose|j: int| 0 <= j < fp.len() && fp[j] == k;
                assert(child_files(c)[j] == f);
                assert(file_record_of(f, r.files@[j]));
                assert forall|m: int| j < m < r.files@.len() implies (#[trigger] r.files@[m]).name@
                    != r.files@[j].name@ by {
                    assert(fp[j] < fp[m]);
                }
                assert(file_last(r, j));
            },
            Node::Folder(x) => {
                let j = choose|j: int| 0 <= j < dp.len() && dp[j] == k;
                assert(fids[j]@ == x.id@) by {
                    assert(views(fids)[j] == fids[j]@);
                }
                assert(rec_name(s, fids[j]@) == n);
                assert forall|m: int| j < m < fids.len() implies rec_name(s, (#[trigger] fids[m])@)
                    != rec_name(s, fids[j]@) by {
                    assert(dp[j] < dp[m]);
                }
                assert(!file_named(r, n)) by {
                    if file_named(r, n) {
                        let m = choose|m: int| 0 <= m < r.files@.len() && (#[trigger] r.files@[m]).name@
                            == n;
                        assert(node_name(c[fp[m]]) == n);
                    }
                }
                assert(folder_last(s, r, j));
                let k2 = find_index(d.children@, n);
                assert(d.children@[k2] matches Node::Folder(c2) ==> built_from(s, c2));
            },
        }
    }
}

/// Reading a tree back from a store that holds each of its folders' records
/// gives the same file, with the same name, real path, identifier and metadata,
/// at every path. What `export` writes is such a store when no two folders
/// share an identifier.
pub proof fn lemma_round_trip(t: Folder, s: Seq<(String, FolderRecord)>, d: Folder, q: Seq<
    Seq<char>,
>)
    requires
        wf(t),
        mirrors_all(s, t),
        built_from(s, d),
        d.id@ == t.id@,
    ensures
        file_view(d, q) == file_view(t, q),
{
    lemma_all_upto_first(t, t.children@.len() as int);
    assert(all_folders(t)[0] == t);
    lemma_round_trip_below(t, s, t, d, q);
}

proof fn lemma_round_trip_below(
    t: Folder,
    s: Seq<(String, FolderRecord)>,
    g: Folder,
    d: Folder,
    q: Seq<Seq<char>>,
)
    requires
        mirrors_all(s, t),
        all_folders(t).contains(g),
        wf(g),
        built_from(s, d),
        d.id@ == g.id@,
    ensures
        file_view(d, q) == file_view(g, q),
    decreases q.len(),
{
    if q.len() > 0 {
        lemma_subtree_within(t, g);
        lemma_loaded_level(t, s, g, d, q[0]);
        lemma_find(g.children@, q[0]);
        lemma_find(d.children@, q[0]);
        if q.len() > 1 {
            if let Some(Node::Folder(c)) = child(g, q[0]) {
                let c2 = child(d, q[0])->Some_0->Folder_0;
                assert(wf(c));
                lemma_round_trip_below(t, s, c, c2, q.drop_first());
            }
        }
    }
}

pub proof fn lemma_in_upto(t: Folder, i: int, g: Folder)
    requires
        0 <= i <= t.children@.len(),
        all_upto(t, i).contains(g),
    ensures
        g == t || exists|k: int|
            0 <= k < i && (#[trigger] t.children@[k]) is Folder && all_folders(
                t.children@[k]->Folder_0,
            ).contains(g),
    decreases i,
{
    if i > 0 {
        let prev = all_upto(t, i - 1);
        let here = match t.children@[i - 1] {
            Node::File(_) => Seq::<Folder>::empty(),
            Node::Folder(x) => all_upto(x, x.children@.len() as int),
        };
        assert(all_upto(t, i) == prev + here);
        let m = choose|m: int| 0 <= m < (prev + here).len() && (prev + here)[m] == g;
        if m < prev.len() {
            assert(prev[m] == g);
            lemma_in_upto(t, i - 1, g);
        } else {
            assert(here[m - prev.len()] == g);
            assert(t.children@[i - 1] is Folder);
            assert(all_folders(t.children@[i - 1]->Folder_0).contains(g));
        }
    }
}

/// The folders below a folder of `t` are folders of `t`.
proof fn lemma_subtree_within(t: Folder, g: Folder)
    requires
        all_folders(t).contains(g),
    ensures
        forall|y: Folder| all_folders(g).contains(y) ==> #[trigger] all_folders(t).contains(y),
    decreases t,
{
    lemma_in_upto(t, t.children@.len() as int, g);
    if g != t {
        let k = choose|k: int|
            0 <= k < t.children@.len() && (#[trigger] t.children@[k]) is Folder && all_folders(
                t.children@[k]->Folder_0,
            ).contains(g);
        let c = t.children@[k]->Folder_0;
        assert(decreases_to!(t => t.children));
        assert(decreases_to!(t.children => t.children@[k]));
        lemma_subtree_within(c, g);
        lemma_all_child(t, k, t.children@.len() as int);
    }
}

/// The store without the records under the identifiers `ks`.
pub open spec fn without_keys(s: Seq<(String, FolderRecord)>, ks: Seq<Seq<char>>) -> Seq<
    (String, FolderRecord),
>
    decreases s.len(),
{
    if s.len() == 0 {
        Seq::empty()
    } else if ks.contains(s.last().0@) {
        without_keys(s.drop_last(), ks)
    } else {
        without_keys(s.drop_last(), ks).push(s.last())
    }
}

/// The store once a batch is applied: its removals, then its writes.
pub open spec fn applied(
    s: Seq<(String, FolderRecord)>,
    removals: Seq<String>,
    writes: Seq<(String, FolderRecord)>,
) -> Seq<(String, FolderRecord)> {
    without_keys(s, views(removals)) + writes
}

/// The store holds the record of every clean folder of `t`.
pub open spec fn synced(s: Seq<(String, FolderRecord)>, t: Folder) -> bool {
    forall|x: Folder|
        #[trigger] all_folders(t).contains(x) && !x.dirty ==> rec_at(s, x.id@) >= 0 && record_of(
            x,
            s[rec_at(s, x.id@)].1,
        )
}

proof fn lemma_without_keys(s: Seq<(String, FolderRecord)>, ks: Seq<Seq<char>>, id: Seq<char>)
    requires
        !ks.contains(id),
    ensures
        (rec_at(without_keys(s, ks), id) >= 0) == (rec_at(s, id) >= 0),
        rec_at(s, id) >= 0 ==> without_keys(s, ks)[rec_at(without_keys(s, ks), id)].1 == s[rec_at(
            s,
            id,
        )].1,
    decreases s.len(),
{
    if s.len() > 0 {
        lemma_without_keys(s.drop_last(), ks, id);
        let w = without_keys(s.drop_last(), ks);
        lemma_rec_at(w, id);
        lemma_rec_at(s.drop_last(), id);
        if !ks.contains(s.last().0@) {
            let wp = w.push(s.last());
            assert(wp.drop_last() =~= w);
            if s.last().0@ != id {
                if rec_at(w, id) >= 0 {
                    assert(wp[rec_at(w, id)] == w[rec_at(w, id)]);
                }
                if rec_at(s.drop_last(), id) >= 0 {
                    assert(s.drop_last()[rec_at(s.drop_last(), id)] == s[rec_at(s.drop_last(), id)]);
                }
            }
        } else {
            assert(s.last().0@ != id);
            if rec_at(s.drop_last(), id) >= 0 {
                assert(s.drop_last()[rec_at(s.drop_last(), id)] == s[rec_at(s.drop_last(), id)]);
            }
        }
    }
}

proof fn lemma_rec_at_concat(a: Seq<(String, FolderRecord)>, w: Seq<(String, FolderRecord)>, id: Seq<char>)
    ensures
        rec_at(w, id) >= 0 ==> rec_at(a + w, id) == a.len() + rec_at(w, id),
        rec_at(w, id) < 0 ==> rec_at(a + w, id) == rec_at(a, id),
    decreases w.len(),
{
    if w.len() == 0 {
        assert(a + w =~= a);
    } else {
        assert((a + w).drop_last() =~= a + w.drop_last());
        assert((a + w).last() == w.last());
        lemma_rec_at_concat(a, w.drop_last(), id);
    }
}

proof fn lemma_dirty_members(d: Folder, i: int)
    requires
        0 <= i <= d.children@.len(),
    ensures
        forall|x: Folder| #[trigger] all_upto(d, i).contains(x) && x.dirty ==> dirty_upto(d, i).contains(x),
        forall|y: Folder| #[trigger] dirty_upto(d, i).contains(y) ==> all_upto(d, i).contains(y) && y.dirty,
    decreases d, i,
{
    if i == 0 {
        assert forall|x: Folder| #[trigger] all_upto(d, i).contains(x) && x.dirty implies dirty_upto(d, i).contains(x) by {
            assert(all_upto(d, 0)[0] == x);
            assert(dirty_upto(d, 0)[0] == d);
        }
        assert forall|y: Folder| #[trigger] dirty_upto(d, i).contains(y) implies all_upto(d, i).contains(y) && y.dirty by {
            assert(all_upto(d, 0)[0] == d);
        }
    } else {
        lemma_dirty_members(d, i - 1);
        let ap = all_upto(d, i - 1);
        let dp = dirty_upto(d, i - 1);
        let (ah, dh) = match d.children@[i - 1] {
            Node::File(_) => (Seq::<Folder>::empty(), Seq::<Folder>::empty()),
            Node::Folder(c) => (all_upto(c, c.children@.len() as int), dirty_upto(c, c.children@.len() as int)),
        };
        if let Node::Folder(c) = d.children@[i - 1] {
            assert(decreases_to!(d => d.children));
            assert(decreases_to!(d.children => d.children@[i - 1]));
            lemma_dirty_members(c, c.children@.len() as int);
        }
        assert(all_upto(d, i) == ap + ah);
        assert(dirty_upto(d, i) == dp + dh);
        assert forall|x: Folder| #[trigger] all_upto(d, i).contains(x) && x.dirty implies dirty_upto(d, i).contains(x) by {
            let m = choose|m: int| 0 <= m < (ap + ah).len() && (ap + ah)[m] == x;
            if m < ap.len() {
                assert(ap[m] == x);
                assert(ap.contains(x));
                let k = choose|k: int| 0 <= k < dp.len() && dp[k] == x;
                assert((dp + dh)[k] == x);
            } else {
                assert(ah[m - ap.len()] == x);
                assert(ah.contains(x));
                let k = choose|k: int| 0 <= k < dh.len() && dh[k] == x;
                assert((dp + dh)[dp.len() + k] == x);
            }
        }
        assert forall|y: Folder| #[trigger] dirty_upto(d, i).contains(y) implies all_upto(d, i).contains(y) && y.dirty by {
            let m = choose|m: int| 0 <= m < (dp + dh).len() && (dp + dh)[m] == y;
            if m < dp.len() {
                assert(dp[m] == y);
                assert(dp.contains(y));
                let k = choose|k: int| 0 <= k < ap.len() && ap[k] == y;
                assert((ap + ah)[k] == y);
            } else {
                assert(dh[m - dp.len()] == y);
                assert(dh.contains(y));
                let k = choose|k: int| 0 <= k < ah.len() && ah[k] == y;
                assert((ap + ah)[ap.len() + k] == y);
            }
        }
    }
}

proof fn lemma_shape_children(c1: Seq<Node>, c2: Seq<Node>)
    requires
        c1.len() == c2.len(),
        forall|i: int|
            0 <= i < c1.len() ==> match #[trigger] c1[i] {
                Node::File(f) => c2[i] == Node::File(f),
                Node::Folder(x) => c2[i] matches Node::Folder(y) && same_shape(x, y),
            },
    ensures
        child_folder_ids(c1) == child_folder_ids(c2),
        child_files(c1) == child_files(c2),
    decreases c1.len(),
{
    if c1.len() > 0 {
        assert forall|i: int| 0 <= i < c1.len() - 1 implies match #[trigger] c1.drop_last()[i] {
            Node::File(f) => c2.drop_last()[i] == Node::File(f),
            Node::Folder(x) => c2.drop_last()[i] matches Node::Folder(y) && same_shape(x, y),
        } by {
            assert(c1.drop_last()[i] == c1[i]);
            assert(match c1[i] {
                Node::File(f) => c2[i] == Node::File(f),
                Node::Folder(x) => c2[i] matches Node::Folder(y) && same_shape(x, y),
            });
        }
        lemma_shape_children(c1.drop_last(), c2.drop_last());
        assert(match c1[c1.len() - 1] {
            Node::File(f) => c2[c1.len() - 1] == Node::File(f),
            Node::Folder(x) => c2[c1.len() - 1] matches Node::Folder(y) && same_shape(x, y),
        });
    }
}

proof fn lemma_shape_record(x: Folder, x2: Folder, r: FolderRecord)
    requires
        same_shape(x, x2),
        record_of(x, r),
    ensures
        record_of(x2, r),
{
    lemma_shape_children(x.children@, x2.children@);
}

proof fn lemma_shape_all(d: Folder, d2: Folder, i: int)
    requires
        same_shape(d, d2),
        0 <= i <= d.children@.len(),
    ensures
        all_upto(d, i).len() == all_upto(d2, i).len(),
        forall|m: int| 0 <= m < all_upto(d, i).len() ==> same_shape(#[trigger] all_upto(d, i)[m], all_upto(d2, i)[m]),
    decreases d, i,
{
    if i > 0 {
        lemma_shape_all(d, d2, i - 1);
        assert(match d.children@[i - 1] {
            Node::File(f) => d2.children@[i - 1] == Node::File(f),
            Node::Folder(x) => d2.children@[i - 1] matches Node::Folder(y) && same_shape(x, y),
        });
        let ap = all_upto(d, i - 1);
        let bp = all_upto(d2, i - 1);
        match d.children@[i - 1] {
            Node::File(_) => {
                assert(all_upto(d, i) =~= ap);
                assert(all_upto(d2, i) =~= bp);
            },
            Node::Folder(c) => {
                let c2 = d2.children@[i - 1]->Folder_0;
                assert(decreases_to!(d => d.children));
                assert(decreases_to!(d.children => d.children@[i - 1]));
                lemma_shape_all(c, c2, c.children@.len() as int);
                let ah = all_upto(c, c.children@.len() as int);
                let bh = all_upto(c2, c2.children@.len() as int);
                assert(all_upto(d, i) == ap + ah);
                assert(all_upto(d2, i) == bp + bh);
                assert forall|m: int| 0 <= m < (ap + ah).len() implies same_shape(#[trigger] all_upto(d, i)[m], all_upto(d2, i)[m]) by {
                    if m < ap.len() {
                        assert(all_upto(d, i)[m] == ap[m]);
                        assert(all_upto(d2, i)[m] == bp[m]);
                    } else {
                        assert(all_upto(d, i)[m] == ah[m - ap.len()]);
                        assert(all_upto(d2, i)[m] == bh[m - bp.len()]);
                    }
                }
            },
        }
    }
}

/// Flushing keeps the store in step with the tree: when the store holds the
/// record of every clean folder and no removed identifier belongs to a folder
/// of the tree, then once the batch is applied the store holds the record of
/// every folder of the flushed tree.
pub proof fn lemma_flush_syncs(
    s: Seq<(String, FolderRecord)>,
    t: Folder,
    t2: Folder,
    removals: Seq<String>,
    writes: Seq<(String, FolderRecord)>,
)
    requires
        ids_distinct(t),
        synced(s, t),
        writes_hold(writes, 0, dirty_folders(t)),
        same_shape(t, t2),
        forall|x: Folder, j: int|
            #[trigger] all_folders(t).contains(x) && 0 <= j < removals.len() && (#[trigger] removals[j])@
                == x.id@ ==> x.dirty,
    ensures
        mirrors_all(applied(s, removals, writes), t2),
{
    let all = all_folders(t);
    let all2 = all_folders(t2);
    let ds = dirty_folders(t);
    let a = without_keys(s, views(removals));
    lemma_dirty_members(t, t.children@.len() as int);
    lemma_shape_all(t, t2, t.children@.len() as int);
    assert forall|x2: Folder| #[trigger] all2.contains(x2) implies rec_at(applied(s, removals, writes), x2.id@) >= 0
        && record_of(x2, applied(s, removals, writes)[rec_at(applied(s, removals, writes), x2.id@)].1) by {
        let m = choose|m: int| 0 <= m < all2.len() && all2[m] == x2;
        let x = all[m];
        assert(same_shape(all[m], all2[m]));
        assert(all.contains(x));
        assert(x.id == x2.id);
        lemma_rec_at(writes, x.id@);
        lemma_rec_at_concat(a, writes, x.id@);
        let q = rec_at(writes, x.id@);
        if q >= 0 {
            assert(writes[0 + q] == writes[q]);
            let y = ds[q];
            assert(ds.contains(y));
            assert(all.contains(y));
            let my = choose|my: int| 0 <= my < all.len() && all[my] == y;
            assert(all[my].id@ == all[m].id@);
            assert(my == m);
            assert(record_of(x, writes[q].1));
            assert((a + writes)[a.len() + q] == writes[q]);
            lemma_shape_record(x, x2, writes[q].1);
        } else {
            if x.dirty {
                assert(ds.contains(x));
                let p = choose|p: int| 0 <= p < ds.len() && ds[p] == x;
                assert(writes[0 + p].0@ == x.id@);
                assert(writes[0 + p] == writes[p]);
            }
            assert(!views(removals).contains(x.id@)) by {
                if views(removals).contains(x.id@) {
                    let j = choose|j: int| 0 <= j < views(removals).len() && views(removals)[j] == x.id@;
                    assert(removals[j]@ == x.id@);
                }
            }
            lemma_without_keys(s, views(removals), x.id@);
            lemma_rec_at(a, x.id@);
            lemma_rec_at(s, x.id@);
            let ra = rec_at(a, x.id@);
            assert((a + writes)[ra] == a[ra]);
            lemma_shape_record(x, x2, s[rec_at(s, x.id@)].1);
        }
    }
}

/// A new tree, whose only folder is dirty, is in step with any store.
pub proof fn lemma_new_tree_synced(s: Seq<(String, FolderRecord)>, t: Folder)
    requires
        t.dirty,
        t.children@.len() == 0,
    ensures
        synced(s, t),
{
    assert forall|x: Folder| #[trigger] all_folders(t).contains(x) && !x.dirty implies rec_at(s, x.id@)
        >= 0 && record_of(x, s[rec_at(s, x.id@)].1) by {
        lemma_in_upto(t, 0, x);
    }
}

/// A store that holds the record of every folder is in step with the tree.
pub proof fn lemma_mirrors_synced(s: Seq<(String, FolderRecord)>, t: Folder)
    requires
        mirrors_all(s, t),
    ensures
        synced(s, t),
{
}

/// Closing and reopening keeps every file. When the store holds the records of
/// the clean folders of a tree (true of a new tree, and kept so by every change
/// and every flush), flushing the tree, applying the batch and reading the
/// store back gives the same file, with the same name, real path, identifier
/// and metadata, at every path; provided no two folders share an identifier and
/// no removed identifier names a clean folder.
pub proof fn lemma_reopen(
    s: Seq<(String, FolderRecord)>,
    t: Folder,
    t2: Folder,
    removals: Seq<String>,
    writes: Seq<(String, FolderRecord)>,
    d: Folder,
    q: Seq<Seq<char>>,
)
    requires
        ids_distinct(t),
        synced(s, t),
        writes_hold(writes, 0, dirty_folders(t)),
        same_shape(t, t2),
        wf(t2),
        forall|x: Folder, j: int|
            #[trigger] all_folders(t).contains(x) && 0 <= j < removals.len() && (#[trigger] removals[j])@
                == x.id@ ==> x.dirty,
    ensures
        tree_outcome(applied(s, removals, writes), t.id@, applied(s, removals, writes).len()) is None,
        built_from(applied(s, removals, writes), d) && d.id@ == t.id@ ==> file_view(d, q)
            == file_view(t, q),
{
    let s2 = applied(s, removals, writes);
    lemma_flush_syncs(s, t, t2, removals, writes);
    lemma_shape_all(t, t2, t.children@.len() as int);
    assert(ids_distinct(t2)) by {
        assert forall|i: int, j: int|
            0 <= i < all_folders(t2).len() && 0 <= j < all_folders(t2).len() && i != j implies all_folders(
            t2,
        )[i].id@ != all_folders(t2)[j].id@ by {
            assert(same_shape(all_folders(t)[i], all_folders(t2)[i]));
            assert(same_shape(all_folders(t)[j], all_folders(t2)[j]));
        }
    }
    lemma_mirror_loads(s2, t2);
    if built_from(s2, d) && d.id@ == t.id@ {
        lemma_round_trip(t2, s2, d, q);
        lemma_same_shape_files(t, t2, q);
    }
}

/// How many levels of folders the first `i` children of `d` and `d` itself span.
pub open spec fn height_upto(d: Folder, i: int) -> nat
    decreases d, i,
{
    if i <= 0 || i > d.children@.len() {
        1
    } else {
        let prev = height_upto(d, i - 1);
        let here: nat = match d.children@[i - 1] {
            Node::File(_) => 1,
            Node::Folder(c) => 1 + height_upto(c, c.children@.len() as int),
        };
        if prev >= here {
            prev
        } else {
            here
        }
    }
}

/// How many levels of folders the subtree of `d` spans, `d` included.
pub open spec fn height(d: Folder) -> nat {
    height_upto(d, d.children@.len() as int)
}

proof fn lemma_height_le(d: Folder, i: int)
    requires
        0 <= i <= d.children@.len(),
    ensures
        1 <= height_upto(d, i) <= all_upto(d, i).len(),
    decreases d, i,
{
    lemma_all_upto_first(d, i);
    if i > 0 {
        lemma_height_le(d, i - 1);
        if let Node::Folder(c) = d.children@[i - 1] {
            assert(decreases_to!(d => d.children));
            assert(decreases_to!(d.children => d.children@[i - 1]));
            lemma_height_le(c, c.children@.len() as int);
            assert(all_upto(d, i) == all_upto(d, i - 1) + all_upto(c, c.children@.len() as int));
        } else {
            assert(all_upto(d, i) =~= all_upto(d, i - 1));
        }
    }
}

proof fn lemma_child_height(d: Folder, i: int, k: int)
    requires
        0 <= k < i <= d.children@.len(),
        d.children@[k] is Folder,
    ensures
        1 + height(d.children@[k]->Folder_0) <= height_upto(d, i),
    decreases i,
{
    if k < i - 1 {
        lemma_child_height(d, i - 1, k);
    }
}

/// A store that holds the record of every folder of `t` loads any of them
/// given fuel for its height.
proof fn lemma_outcome_none(s: Seq<(String, FolderRecord)>, t: Folder, x: Folder, fuel: nat)
    requires
        mirrors_all(s, t),
        all_folders(t).contains(x),
        fuel >= height(x),
    ensures
        tree_outcome(s, x.id@, fuel) is None,
    decreases x, 1nat, 0int,
{
    lemma_height_le(x, x.children@.len() as int);
    let r = s[rec_at(s, x.id@)].1;
    lemma_children_none(s, t, x, r.folder_ids@, 0, (fuel - 1) as nat);
}

proof fn lemma_children_none(
    s: Seq<(String, FolderRecord)>,
    t: Folder,
    x: Folder,
    fids: Seq<String>,
    j: int,
    fuel: nat,
)
    requires
        mirrors_all(s, t),
        all_folders(t).contains(x),
        fuel + 1 >= height(x),
        fids == s[rec_at(s, x.id@)].1.folder_ids@,
        0 <= j,
    ensures
        children_outcome(s, fids, j, fuel) is None,
    decreases x, 0nat, fids.len() - j,
{
    if j < fids.len() {
        let c = x.children@;
        lemma_folder_positions(c);
        let dp = folder_positions(c);
        assert(views(fids) == child_folder_ids(c));
        assert(views(fids)[j] == fids[j]@);
        let k = dp[j];
        let y = c[k]->Folder_0;
        assert(y.id@ == fids[j]@);
        lemma_subtree_within(t, x);
        lemma_all_child(x, k, c.len() as int);
        lemma_all_upto_first(y, y.children@.len() as int);
        assert(all_folders(y)[0] == y);
        assert(all_folders(x).contains(y));
        lemma_child_height(x, c.len() as int, k);
        assert(decreases_to!(x => x.children));
        assert(decreases_to!(x.children => x.children@[k]));
        lemma_outcome_none(s, t, y, fuel);
        lemma_children_none(s, t, x, fids, j + 1, fuel);
    }
}

/// A store that holds a record for each of the folders of `t`, whose
/// identifiers are distinct, has at least as many records as `t` has folders.
proof fn lemma_records_bound(s: Seq<(String, FolderRecord)>, t: Folder)
    requires
        mirrors_all(s, t),
        ids_distinct(t),
    ensures
        all_folders(t).len() <= s.len(),
{
    let all = all_folders(t);
    let idx = Seq::new(all.len(), |m: int| rec_at(s, all[m].id@));
    assert forall|m: int| 0 <= m < all.len() implies 0 <= #[trigger] idx[m] < s.len() && s[idx[m]].0@
        == all[m].id@ by {
        assert(all.contains(all[m]));
        lemma_rec_at(s, all[m].id@);
    }
    assert(idx.no_duplicates()) by {
        assert forall|a: int, b: int| 0 <= a < idx.len() && 0 <= b < idx.len() && a != b implies idx[a]
            != idx[b] by {
            assert(0 <= idx[a] < s.len() && s[idx[a]].0@ == all[a].id@);
            assert(0 <= idx[b] < s.len() && s[idx[b]].0@ == all[b].id@);
        }
    }
    idx.unique_seq_to_set();
    lemma_int_range(0, s.len() as int);
    assert(idx.to_set().subset_of(set_int_range(0, s.len() as int))) by {
        assert forall|v: int| idx.to_set().contains(v) implies set_int_range(0, s.len() as int).contains(v) by {
            let m = choose|m: int| 0 <= m < idx.len() && idx[m] == v;
            assert(0 <= idx[m] < s.len());
        }
    }
    lemma_len_subset(idx.to_set(), set_int_range(0, s.len() as int));
}

/// A store that holds the record of every folder of a tree whose identifiers
/// are distinct loads that tree: with as much fuel as it has records, loading
/// from the tree's identifier succeeds.
pub proof fn lemma_mirror_loads(s: Seq<(String, FolderRecord)>, t: Folder)
    requires
        mirrors_all(s, t),
        ids_distinct(t),
    ensures
        tree_outcome(s, t.id@, s.len()) is None,
{
    lemma_records_bound(s, t);
    lemma_height_le(t, t.children@.len() as int);
    lemma_all_upto_first(t, t.children@.len() as int);
    assert(all_folders(t)[0] == t);
    lemma_outcome_none(s, t, t, s.len());
}

/// What `export` writes for a tree with distinct identifiers loads: `load`
/// succeeds on it, and reads back the same file at every path.
pub proof fn lemma_export_loads(t: Folder, s: Seq<(String, FolderRecord)>)
    requires
        ids_distinct(t),
        writes_hold(s, 0, all_folders(t)),
        t.id@ == root_id(),
    ensures
        tree_outcome(s, root_id(), s.len()) is None,
        mirrors_all(s, t),
{
    lemma_export_mirrors(t, s);
    lemma_mirror_loads(s, t);
}

/// Inserting a file where nothing stood under its first name, then removing
/// it, leaves nothing under that first name: every folder created on the way
/// collapses. The clauses on `t1` and `t2` are what `FileSystem::insert` and
/// `FileSystem::remove` ensure.
pub proof fn lemma_insert_remove_collapses(t0: Folder, t1: Folder, t2: Folder, s: Seq<Seq<char>>)
    requires
        s.len() >= 1,
        find_index(t0.children@, s[0]) < 0 ==> single_chain(t1, s),
        find_index(t0.children@, s[0]) < 0,
        walk(t1, s) is Found,
        forall|q: Seq<Seq<char>>|
            s.subrange(0, remove_cut(t1, s)).is_prefix_of(q) ==> #[trigger] walk(t2, q) is Missing,
    ensures
        walk(t2, s.subrange(0, 1)) is Missing,
{
    lemma_collapse(t1, s);
    assert(s.subrange(0, 1).is_prefix_of(s.subrange(0, 1)));
}

/// Removing one of two nodes of a folder leaves the folder and the other one:
/// the clause on `t2` is what `FileSystem::remove` ensures.
pub proof fn lemma_sibling_stays(t1: Folder, t2: Folder, s: Seq<Seq<char>>, sib: Seq<char>)
    requires
        wf(t1),
        s.len() >= 1,
        walk(t1, s) is Found,
        sib != s.last(),
        file_at(t1, s.drop_last().push(sib)) is Some,
        forall|q: Seq<Seq<char>>|
            !s.subrange(0, remove_cut(t1, s)).is_prefix_of(q) ==> #[trigger] file_at(t2, q)
                == file_at(t1, q),
    ensures
        file_at(t2, s.drop_last().push(sib)) == file_at(t1, s.drop_last().push(sib)),
        walk(t2, s.drop_last()) matches Walk::Found(Node::Folder(_)),
{
    let par = s.drop_last();
    let sp = par.push(sib);
    assert(par.push(s.last()) =~= s);
    lemma_walk_concat(t1, par, seq![s.last()]);
    lemma_walk_concat(t1, par, seq![sib]);
    assert(par + seq![s.last()] =~= s);
    assert(par + seq![sib] =~= sp);
    lemma_walk_parent(t1, s);
    let p = walk(t1, par)->Found_0->Folder_0;
    lemma_find(p.children@, s.last());
    lemma_find(p.children@, sib);
    assert(find_index(p.children@, s.last()) != find_index(p.children@, sib));
    assert(has_sibling(t1, s));
    lemma_no_collapse(t1, s);
    assert(s.subrange(0, s.len() as int) =~= s);
    if s.is_prefix_of(sp) {
        assert(sp[s.len() - 1] == s[s.len() - 1]);
    }
    lemma_walk_parent(t2, sp);
    assert(sp.drop_last() =~= par);
}

} // verus!
