use vstd::prelude::*;
use crate::error::{fails_with, GodataError, GodataErrorType};
use crate::records::{
    all_folders, built_from, clean, dirty_folders, file_last, file_named, file_record_of, folder_last, folder_named,
    lemma_rec_at, rec_at, rec_name, same_shape, writes_hold, Batch, FileRecord, FolderRecord,
    child_files, child_folder_ids, clash_free, record_of, store_clash_free, tree_outcome,
    children_outcome,
};
use crate::sync::{kept, lemma_kept_refl, lemma_kept_trans};
use crate::laws::{lemma_in_upto, mirrors_all};
use crate::path::{segments_prefix, lemma_split_nonempty, split_path, split_spec, views};
use crate::tree::{
    keys_unique, no_empty,
    single_chain, first_folder, lemma_walk_found_step, lemma_prefix_step,
    cut_len, displaced, drain, find_index, empties, file_at, find_child, lemma_cut_len, lemma_cut_unrelated,
    lemma_find, lemma_not_empties, lookup, names_of_kind, node_ids, node_name, node_wf, remove_cut,
    same_content, subtree_ids, unrelated, walk, wf, File, Folder, Listing, Metadata, Node, Walk,
    insert_refusal, can_fill, copy_string, copy_metadata, names_unique, child, last_of_name, prior_child,
};

verus! {

/// The virtual tree of one project: the root folder, the project's name, and the
/// identifiers of folders removed since the last flush.
pub struct FileSystem {
    pub root: Folder,
    pub name: String,
    pub removed: Vec<String>,
}

/// The identifier under which the root folder is stored.
pub open spec fn root_id() -> Seq<char> {
    seq!['r', 'o', 'o', 't']
}

pub fn root_id_string() -> (r: String)
    ensures
        r@ == root_id(),
{
    let r = String::from_str("root");
    proof {
        reveal_strlit("root");
        assert(r@ =~= root_id());
    }
    r
}

impl FileSystem {
    pub open spec fn inv(&self) -> bool {
        &&& wf(self.root)
        &&& self.root.id@ == root_id()
    }

    /// A fresh, empty tree; refused when the store already holds a root record.
    pub fn new(name: String, store_has_root: bool) -> (r: Result<FileSystem, GodataError>)
        ensures
            store_has_root ==> fails_with(r, GodataErrorType::AlreadyExists),
            !store_has_root ==> (r matches Ok(t) && t.inv() && t.root.children@.len() == 0
                && t.root.id@ == root_id() && t.root.dirty && t.removed@.len() == 0
                && t.name@ == name@),
    {
        if store_has_root {
            return Err(GodataError::new(
                GodataErrorType::AlreadyExists,
                String::from_str("file system already exists"),
            ));
        }
        let root = Folder {
            name: root_id_string(),
            children: Vec::new(),
            metadata: Vec::new(),
            id: root_id_string(),
            dirty: true,
        };
        Ok(FileSystem { root, name, removed: Vec::new() })
    }

    /// Whether anything stands at the path.
    pub fn path_exists(&self, path: &str) -> (r: bool)
        ensures
            r == (walk(self.root, split_spec(path@)) is Found),
    {
        let segs = split_path(path);
        proof {
            assert(views(segs@).skip(0) =~= views(segs@));
        }
        self.root.path_exists(&segs, 0)
    }

    /// The file at the path.
    pub fn get(&self, path: &str) -> (r: Result<&File, GodataError>)
        ensures
            match lookup(self.root, split_spec(path@)) {
                Some(Node::File(f)) => r is Ok && *r->Ok_0 == f,
                Some(Node::Folder(_)) => fails_with(r, GodataErrorType::InvalidPath),
                None => fails_with(r, GodataErrorType::NotFound),
            },
    {
        let segs = split_path(path);
        proof {
            lemma_split_nonempty(path@);
            assert(views(segs@).skip(0) =~= views(segs@));
        }
        match self.root.lookup(&segs, 0) {
            Err(e) => Err(e),
            Ok(Node::Folder(_)) => Err(GodataError::new(
                GodataErrorType::InvalidPath,
                String::from_str("path is a folder"),
            )),
            Ok(Node::File(f)) => Ok(f),
        }
    }

    /// The names of the folders and of the files in the folder at the path, or
    /// in the root.
    pub fn list(&self, path: Option<&str>) -> (r: Result<Listing, GodataError>)
        ensures
            match path {
                None => r matches Ok(l) && views(l.folders@) == names_of_kind(
                    self.root.children@,
                    true,
                ) && views(l.files@) == names_of_kind(self.root.children@, false),
                Some(p) => match lookup(self.root, split_spec(p@)) {
                    Some(Node::Folder(d)) => r matches Ok(l) && views(l.folders@)
                        == names_of_kind(d.children@, true) && views(l.files@) == names_of_kind(
                        d.children@,
                        false,
                    ),
                    Some(Node::File(_)) => fails_with(r, GodataErrorType::InvalidPath),
                    None => fails_with(r, GodataErrorType::NotFound),
                },
            },
    {
        match path {
            None => Ok(self.root.listing()),
            Some(p) => {
                let segs = split_path(p);
                proof {
                    lemma_split_nonempty(p@);
                    assert(views(segs@).skip(0) =~= views(segs@));
                }
                match self.root.lookup(&segs, 0) {
                    Err(e) => Err(e),
                    Ok(Node::File(_)) => Err(GodataError::new(
                        GodataErrorType::InvalidPath,
                        String::from_str("path is a file"),
                    )),
                    Ok(Node::Folder(d)) => Ok(d.listing()),
                }
            },
        }
    }

    /// Inserts a file record at the path, creating the missing folders on the
    /// way. With `overwrite`, whatever stood at the path is replaced and its
    /// files are handed back.
    pub fn insert(&mut self, path: &str, real_path: String, metadata: Metadata, overwrite: bool) -> (r:
        Result<Option<Vec<File>>, GodataError>)
        requires
            old(self).inv(),
            keys_unique(metadata@),
        ensures
            final(self).inv(),
            final(self).removed == old(self).removed,
            kept(old(self).root, final(self).root),
            ({
                let s = split_spec(path@);
                match insert_refusal(old(self).root, s.drop_last(), s.last(), overwrite) {
                    Some(e) => fails_with(r, e) && *final(self) == *old(self),
                    None => {
                        &&& r is Ok
                        &&& walk(final(self).root, s.drop_last()) matches Walk::Found(
                            Node::Folder(g),
                        ) && g.dirty
                        &&& forall|j: int|
                            1 <= j <= s.drop_last().len() && !(walk(
                                old(self).root,
                                s.drop_last().subrange(0, j),
                            ) is Found) ==> (walk(
                                final(self).root,
                                #[trigger] s.drop_last().subrange(0, j),
                            ) matches Walk::Found(Node::Folder(g)) && g.dirty)
                        &&& find_index(old(self).root.children@, s[0]) < 0 ==> single_chain(
                            final(self).root,
                            s,
                        )
                        &&& file_at(final(self).root, s) matches Some(f) && f.name@ == s.last()
                            && f.real_path@ == real_path@ && f.metadata@ == metadata@
                        &&& forall|q: Seq<Seq<char>>|
                            !s.is_prefix_of(q) ==> #[trigger] file_at(final(self).root, q)
                                == file_at(old(self).root, q)
                        &&& forall|q: Seq<Seq<char>>|
                            unrelated(s, q) ==> #[trigger] walk(final(self).root, q) == walk(
                                old(self).root,
                                q,
                            )
                        &&& match lookup(old(self).root, s) {
                            Some(prev) => r->Ok_0 matches Some(v) && v@ == displaced(prev),
                            None => r->Ok_0 is None,
                        }
                    },
                }
            }),
    {
        let ghost s = split_spec(path@);
        let mut segs = split_path(path);
        proof {
            lemma_split_nonempty(path@);
            lemma_kept_refl(self.root);
        }
        let name = segs.pop().unwrap();
        proof {
            assert(views(segs@) =~= s.drop_last());
            assert(views(segs@).skip(0) =~= views(segs@));
            assert(s.drop_last().push(s.last()) =~= s);
        }
        match self.root.insert_check(&name, &segs, 0, overwrite) {
            Some(e) => {
                return Err(GodataError::new(e, String::from_str("cannot insert at that path")));
            },
            None => {},
        }
        let file = File::new(real_path, name, metadata);
        let r = self.root.insert_node(Node::File(file), &segs, 0, overwrite);
        Ok(r)
    }

    /// Removes the node at the path and every folder that this leaves empty; hands
    /// back the files that were removed.
    pub fn remove(&mut self, path: &str) -> (r: Result<Vec<File>, GodataError>)
        requires
            old(self).inv(),
        ensures
            final(self).inv(),
            kept(old(self).root, final(self).root),
            path@.len() == 0 ==> fails_with(r, GodataErrorType::InvalidPath) && *final(self)
                == *old(self),
            path@.len() > 0 ==> ({
                let s = split_spec(path@);
                match walk(old(self).root, s) {
                    Walk::Missing => fails_with(r, GodataErrorType::NotFound) && *final(self)
                        == *old(self),
                    Walk::ThroughFile => fails_with(r, GodataErrorType::InvalidPath)
                        && *final(self) == *old(self),
                    Walk::Found(_) => {
                        let cut = s.subrange(0, remove_cut(old(self).root, s));
                        let n = lookup(old(self).root, cut)->Some_0;
                        &&& lookup(old(self).root, cut) is Some
                        &&& r matches Ok(v) && v@ == displaced(n)
                        &&& walk(final(self).root, cut.drop_last()) matches Walk::Found(
                            Node::Folder(g),
                        ) && g.dirty
                        &&& no_empty(old(self).root) ==> no_empty(final(self).root)
                        &&& views(final(self).removed@) == views(old(self).removed@)
                            + subtree_ids(n)
                        &&& forall|q: Seq<Seq<char>>|
                            !cut.is_prefix_of(q) ==> #[trigger] file_at(final(self).root, q)
                                == file_at(old(self).root, q)
                        &&& forall|q: Seq<Seq<char>>|
                            unrelated(cut, q) ==> #[trigger] walk(final(self).root, q) == walk(
                                old(self).root,
                                q,
                            )
                        &&& forall|q: Seq<Seq<char>>|
                            cut.is_prefix_of(q) ==> #[trigger] walk(final(self).root, q) is Missing
                    },
                }
            }),
    {
        proof {
            lemma_kept_refl(self.root);
        }
        if path.unicode_len() == 0 {
            return Err(GodataError::new(
                GodataErrorType::InvalidPath,
                String::from_str("the root folder cannot be removed"),
            ));
        }
        let ghost s = split_spec(path@);
        let segs = split_path(path);
        proof {
            lemma_split_nonempty(path@);
            assert(views(segs@).skip(0) =~= views(segs@));
            assert(s[0] == segs@[0]@);
            lemma_cut_len(self.root, s);
        }
        match self.root.remove_check(&segs, 0) {
            Some(e) => {
                return Err(GodataError::new(e, String::from_str("cannot remove that path")));
            },
            None => {},
        }
        proof {
            lemma_remove_cut(self.root, s);
            assert(s.subrange(0, 1).drop_last() =~= Seq::<Seq<char>>::empty());
        }
        let node = match self.root.detach(&segs, 0) {
            Some(n) => n,
            None => {
                let i = find_child(&self.root.children, &segs[0]).unwrap();
                self.root.remove_child(i, Ghost(s))
            },
        };
        node_ids(&node, &mut self.removed);
        let files = match node {
            Node::File(f) => vec![f],
            Node::Folder(d) => drain(d),
        };
        Ok(files)
    }

    /// Moves the node at `from` to `to`, under the last name of `to`: the same
    /// node, with its identifier, metadata and subtree. Hands back the files that
    /// stood at `to`, as `insert` does.
    pub fn move_(&mut self, from: &str, to: &str, overwrite: bool) -> (r: Result<
        Option<Vec<File>>,
        GodataError,
    >)
        requires
            old(self).inv(),
        ensures
            final(self).inv(),
            kept(old(self).root, final(self).root),
            ({
                let f = split_spec(from@);
                let t = split_spec(to@);
                if !(walk(old(self).root, f) is Found) {
                    fails_with(r, GodataErrorType::NotFound) && *final(self) == *old(self)
                } else if lookup(old(self).root, t) is Some && !overwrite {
                    fails_with(r, GodataErrorType::AlreadyExists) && *final(self) == *old(self)
                } else if from@.len() == 0 || (t.is_prefix_of(f) && t.len() < f.len()) {
                    fails_with(r, GodataErrorType::InvalidPath) && *final(self) == *old(self)
                } else if insert_refusal(old(self).root, t.drop_last(), t.last(), overwrite) is Some {
                    fails_with(
                        r,
                        insert_refusal(old(self).root, t.drop_last(), t.last(), overwrite)->Some_0,
                    ) && *final(self) == *old(self)
                } else if unrelated(f, t) {
                    &&& r is Ok
                    &&& lookup(final(self).root, t) matches Some(n) && same_content(
                        lookup(old(self).root, f)->Some_0,
                        n,
                    ) && node_name(n) == t.last()
                    &&& walk(final(self).root, f) is Missing
                    &&& forall|q: Seq<Seq<char>>|
                        !t.is_prefix_of(q) && !f.is_prefix_of(q) ==> #[trigger] file_at(
                            final(self).root,
                            q,
                        ) == file_at(old(self).root, q)
                    &&& t[0] != f[0] ==> walk(
                        final(self).root,
                        f.subrange(0, remove_cut(old(self).root, f)),
                    ) is Missing
                    &&& match lookup(old(self).root, t) {
                        Some(prev) => r->Ok_0 matches Some(v) && v@ == displaced(prev),
                        None => r->Ok_0 is None,
                    }
                } else {
                    &&& f.is_prefix_of(t)
                    &&& r is Ok
                    &&& walk(final(self).root, f) is Missing
                    &&& match lookup(old(self).root, t) {
                        Some(prev) => r->Ok_0 matches Some(v) && v@ == displaced(prev),
                        None => r->Ok_0 is None,
                    }
                }
            }),
    {
        let ghost f = split_spec(from@);
        let ghost t = split_spec(to@);
        proof {
            lemma_kept_refl(self.root);
        }
        let fsegs = split_path(from);
        let mut tsegs = split_path(to);
        proof {
            lemma_split_nonempty(from@);
            lemma_split_nonempty(to@);
            assert(views(fsegs@).skip(0) =~= views(fsegs@));
            assert(views(tsegs@).skip(0) =~= views(tsegs@));
        }
        if !self.root.path_exists(&fsegs, 0) {
            return Err(GodataError::new(
                GodataErrorType::NotFound,
                String::from_str("the source path does not exist"),
            ));
        }
        if !overwrite && self.root.path_exists(&tsegs, 0) {
            return Err(GodataError::new(
                GodataErrorType::AlreadyExists,
                String::from_str("the destination path already exists"),
            ));
        }
        if from.unicode_len() == 0 || (tsegs.len() < fsegs.len() && segments_prefix(&tsegs, &fsegs)) {
            return Err(GodataError::new(
                GodataErrorType::InvalidPath,
                String::from_str("cannot move a node onto a folder above it"),
            ));
        }
        proof {
            if !unrelated(f, t) && !(t.is_prefix_of(f) && t.len() < f.len()) {
                if t.is_prefix_of(f) {
                    assert(f =~= t);
                }
                assert(f.is_prefix_of(t));
            }
        }
        let name = tsegs.pop().unwrap();
        proof {
            assert(views(tsegs@) =~= t.drop_last());
            assert(views(tsegs@).skip(0) =~= views(tsegs@));
            assert(t.drop_last().push(t.last()) =~= t);
        }
        match self.root.insert_check(&name, &tsegs, 0, overwrite) {
            Some(e) => {
                return Err(GodataError::new(e, String::from_str("cannot move to that path")));
            },
            None => {},
        }
        proof {
            lemma_found_wf(self.root, f);
        }
        let item = match self.root.lookup(&fsegs, 0) {
            Ok(n) => n.copy_as(name),
            Err(e) => {
                return Err(e);
            },
        };
        let ghost old_root = self.root;
        let displaced_files = self.root.insert_node(item, &tsegs, 0, overwrite);
        let ghost mid_root = self.root;
        proof {
            if unrelated(f, t) && from@.len() > 0 {
                assert(walk(mid_root, f) == walk(old_root, f));
                lemma_not_empties(mid_root, f, t);
                lemma_cut_unrelated(mid_root, f, t);
                lemma_cut_len(mid_root, f);
            }
        }
        proof {
            if f.is_prefix_of(t) && from@.len() > 0 {
                let rest = t.subrange(f.len() as int, t.len() as int);
                assert(f + rest =~= t);
                crate::laws::lemma_walk_concat(mid_root, f, rest);
            }
        }
        let removal = self.remove(from);
        proof {
            lemma_kept_trans(old_root, mid_root, self.root);
            if f.is_prefix_of(t) && from@.len() > 0 {
                lemma_remove_cut(mid_root, f);
                lemma_cut_len(mid_root, f);
                let cut = f.subrange(0, remove_cut(mid_root, f));
                assert(cut.is_prefix_of(f));
            }
            if unrelated(f, t) && from@.len() > 0 {
                let cut = f.subrange(0, remove_cut(mid_root, f));
                assert(unrelated(cut, t));
                assert(walk(self.root, t) == walk(mid_root, t));
                assert(cut.is_prefix_of(f));
                assert(walk(self.root, f) is Missing);
                lemma_remove_cut(mid_root, f);
                assert forall|q: Seq<Seq<char>>|
                    !t.is_prefix_of(q) && !f.is_prefix_of(q) implies #[trigger] file_at(self.root, q)
                    == file_at(old_root, q) by {
                    assert(file_at(mid_root, q) == file_at(old_root, q));
                    if cut.is_prefix_of(q) {
                        assert(walk(self.root, q) is Missing);
                        if file_at(mid_root, q) is Some {
                            lemma_cut_files(mid_root, f, q);
                        }
                    }
                }
                if t[0] != f[0] {
                    lemma_remove_cut(old_root, f);
                    if f.len() >= 2 {
                        let one = f.subrange(0, 1);
                        assert(unrelated(one, t)) by {
                            assert(one[0] == f[0]);
                            if one.is_prefix_of(t) {
                                assert(t[0] == one[0]);
                            }
                            if t.is_prefix_of(one) {
                                assert(t[0] == one[0]);
                            }
                        }
                        assert(walk(mid_root, one) == walk(old_root, one));
                        lemma_find(old_root.children@, f[0]);
                        lemma_find(mid_root.children@, f[0]);
                        assert(one[0] == f[0]);
                        assert(first_folder(mid_root, f) == first_folder(old_root, f));
                    }
                    assert(cut_len(mid_root, f) == cut_len(old_root, f));
                    assert(cut.is_prefix_of(cut));
                }
            }
        }
        match removal {
            Err(e) => Err(e),
            Ok(_) => Ok(displaced_files),
        }
    }

    /// The segments of a folder path; the empty path is the root.
    pub fn folder_segments(path: &str) -> (r: Vec<String>)
        ensures
            views(r@) == folder_spec(path@),
    {
        if path.unicode_len() == 0 {
            let r: Vec<String> = Vec::new();
            assert(views(r@) =~= Seq::<Seq<char>>::empty());
            r
        } else {
            split_path(path)
        }
    }

    /// Attaches many files, each given by its real path and its name, as direct
    /// children of the folder at `path`, which is created when missing.
    pub fn insert_many(&mut self, entries: Vec<(String, String)>, path: &str) -> (r: Result<
        (),
        GodataError,
    >)
        requires
            old(self).inv(),
        ensures
            final(self).inv(),
            final(self).removed == old(self).removed,
            kept(old(self).root, final(self).root),
            ({
                let p = folder_spec(path@);
                if !can_fill(old(self).root, p) {
                    fails_with(r, GodataErrorType::InvalidPath) && *final(self) == *old(self)
                } else {
                    &&& r is Ok
                    &&& walk(final(self).root, p) matches Walk::Found(Node::Folder(g)) && g.dirty
                    &&& forall|j: int|
                        1 <= j <= p.len() && !(walk(old(self).root, p.subrange(0, j)) is Found) ==> (
                        walk(final(self).root, #[trigger] p.subrange(0, j)) matches Walk::Found(
                            Node::Folder(g),
                        ) && g.dirty)
                    &&& walk(final(self).root, p) matches Walk::Found(Node::Folder(g)) && (forall|
                        j: int,
                    |
                        0 <= j < entries@.len() && last_entry(entries@, j) ==> (child(
                            g,
                            (#[trigger] entries@[j]).1@,
                        ) matches Some(Node::File(f)) && f.real_path@ == entries@[j].0@
                            && f.metadata@.len() == 0)) && (forall|name: Seq<char>|
                        (forall|j: int| 0 <= j < entries@.len() ==> (#[trigger] entries@[j]).1@ != name)
                            ==> #[trigger] child(g, name) == prior_child(old(self).root, p, name))
                    &&& forall|q: Seq<Seq<char>>|
                        !p.is_prefix_of(q) ==> #[trigger] file_at(final(self).root, q) == file_at(
                            old(self).root,
                            q,
                        )
                }
            }),
    {
        let segs = FileSystem::folder_segments(path);
        let ghost p = folder_spec(path@);
        proof {
            assert(views(segs@).skip(0) =~= views(segs@));
            lemma_kept_refl(self.root);
        }
        let fill = match self.root.insert_check(&String::new(), &segs, 0, true) {
            Some(_) => false,
            None => true,
        };
        if !fill {
            return Err(GodataError::new(
                GodataErrorType::InvalidPath,
                String::from_str("a file stands on the way to that folder"),
            ));
        }
        let ghost es = entries@;
        let mut files: Vec<File> = Vec::new();
        let mut entries = entries;
        let mut back: Vec<(String, String)> = Vec::new();
        while entries.len() > 0
            invariant
                entries@.len() + back@.len() == es.len(),
                entries@ == es.subrange(0, entries@.len() as int),
                forall|k: int| 0 <= k < back@.len() ==> back@[k] == es[es.len() - 1 - k],
            decreases entries.len(),
        {
            let e = entries.pop().unwrap();
            back.push(e);
            assert(entries@ =~= es.subrange(0, entries@.len() as int));
        }
        let n = back.len();
        let mut i: usize = 0;
        while i < n
            invariant
                n == es.len(),
                i <= n,
                back@.len() == n - i,
                forall|k: int| 0 <= k < back@.len() ==> back@[k] == es[es.len() - 1 - k],
                files@.len() == i,
                forall|j: int|
                    0 <= j < i ==> (#[trigger] files@[j]).name@ == es[j].1@ && files@[j].real_path@
                        == es[j].0@ && files@[j].metadata@.len() == 0,
            decreases n - i,
        {
            let (real_path, name) = back.pop().unwrap();
            assert((real_path, name) == es[i as int]);
            files.push(File::new(real_path, name, Vec::new()));
            i = i + 1;
        }
        let ghost fs = files@;
        self.root.insert_many_at(files, &segs, 0);
        proof {
            let g = walk(self.root, p)->Found_0->Folder_0;
            assert forall|j: int| 0 <= j < es.len() && last_entry(es, j) implies (child(
                g,
                (#[trigger] es[j]).1@,
            ) matches Some(Node::File(f)) && f.real_path@ == es[j].0@ && f.metadata@.len() == 0) by {
                assert(fs[j].name@ == es[j].1@);
                assert forall|k: int| j < k < fs.len() implies (#[trigger] fs[k]).name@
                    != fs[j].name@ by {
                    assert(fs[k].name@ == es[k].1@);
                }
                assert(last_of_name(fs, j, fs.len() as int));
            }
            assert forall|name: Seq<char>|
                (forall|j: int| 0 <= j < es.len() ==> (#[trigger] es[j]).1@ != name) implies #[trigger] child(
                g,
                name,
            ) == prior_child(old(self).root, p, name) by {
                assert forall|j: int| 0 <= j < fs.len() implies (#[trigger] fs[j]).name@ != name by {
                    assert(fs[j].name@ == es[j].1@);
                }
            }
        }
        Ok(())
    }
}

impl FileSystem {
    /// The records of every folder, to copy the whole tree into another store.
    pub fn export(&self) -> (r: Vec<(String, FolderRecord)>)
        ensures
            writes_hold(r@, 0, all_folders(self.root)),
    {
        let mut out: Vec<(String, FolderRecord)> = Vec::new();
        self.root.write_all(&mut out);
        out
    }

    /// The batch that brings the store up to date: the records of the dirty
    /// folders and the identifiers of the removed ones. The tree is left as it
    /// is until the store has taken the batch (`mark_flushed`).
    pub fn flush_batch(&self) -> (r: Batch)
        ensures
            writes_hold(r.writes@, 0, dirty_folders(self.root)),
            r.removals@ == self.removed@,
    {
        let mut writes: Vec<(String, FolderRecord)> = Vec::new();
        self.root.write_to_tree(&mut writes);
        let mut removals: Vec<String> = Vec::new();
        let mut i: usize = 0;
        while i < self.removed.len()
            invariant
                i <= self.removed@.len(),
                removals@ == self.removed@.subrange(0, i as int),
            decreases self.removed@.len() - i,
        {
            removals.push(copy_string(&self.removed[i]));
            assert(removals@ =~= self.removed@.subrange(0, i + 1));
            i = i + 1;
        }
        assert(removals@ =~= self.removed@);
        Batch { writes, removals }
    }

    /// Records that the store has taken the batch of `flush_batch`: every
    /// folder is clean and no removal is pending.
    pub fn mark_flushed(&mut self)
        requires
            old(self).inv(),
        ensures
            final(self).inv(),
            clean(final(self).root),
            same_shape(old(self).root, final(self).root),
            final(self).removed@.len() == 0,
            final(self).name == old(self).name,
    {
        self.removed = Vec::new();
        self.root.reset();
    }

    /// Rebuilds a tree from the stored folder records; refused when there is no
    /// root record.
    pub fn load(name: String, records: &Vec<(String, FolderRecord)>) -> (r: Result<
        FileSystem,
        GodataError,
    >)
        ensures
            match tree_outcome(records@, root_id(), records@.len()) {
                None => r is Ok,
                Some(e) => fails_with(r, e),
            },
            (forall|i: int| 0 <= i < records@.len() ==> (#[trigger] records@[i]).0@ != root_id())
                ==> fails_with(r, GodataErrorType::NotFound),
            r matches Ok(t) ==> t.inv() && t.root.id@ == root_id() && t.removed@.len() == 0
                && t.name@ == name@ && built_from(records@, t.root),
            r matches Ok(t) ==> (store_clash_free(records@) ==> mirrors_all(records@, t.root)),
    {
        let root_key = root_id_string();
        proof {
            lemma_rec_at(records@, root_id());
        }
        match find_record(records, &root_key) {
            None => {
                return Err(GodataError::new(
                    GodataErrorType::NotFound,
                    String::from_str("no root folder was found"),
                ));
            },
            Some(_) => {},
        }
        match from_tree(records, &root_key, records.len()) {
            Ok(root) => Ok(FileSystem { root, name, removed: Vec::new() }),
            Err(e) => Err(e),
        }
    }
}

/// Finds the record stored under `id`.
pub fn find_record(records: &Vec<(String, FolderRecord)>, id: &String) -> (r: Option<usize>)
    ensures
        match r {
            Some(i) => i as int == rec_at(records@, id@),
            None => rec_at(records@, id@) < 0,
        },
{
    let mut i: usize = records.len();
    assert(records@.subrange(0, i as int) =~= records@);
    while i > 0
        invariant
            i <= records@.len(),
            rec_at(records@, id@) == rec_at(records@.subrange(0, i as int), id@),
        decreases i,
    {
        let j = i - 1;
        proof {
            assert(records@.subrange(0, i as int).drop_last() =~= records@.subrange(0, j as int));
            assert(records@.subrange(0, i as int).last() == records@[j as int]);
        }
        let same: bool = records[j].0 == *id;
        if same {
            return Some(j);
        }
        i = j;
    }
    None
}

/// No child folder of `r` after the `j`th and before the `k`th is stored under
/// the name of the `j`th.
pub open spec fn folder_last_upto(s: Seq<(String, FolderRecord)>, r: FolderRecord, j: int, k: int) -> bool {
    forall|m: int| j < m < k ==> rec_name(s, (#[trigger] r.folder_ids@[m])@) != rec_name(
        s,
        r.folder_ids@[j]@,
    )
}

/// No file record of `r` after the `j`th and before the `k`th has its name.
pub open spec fn file_last_upto(r: FolderRecord, j: int, k: int) -> bool {
    forall|m: int| j < m < k ==> (#[trigger] r.files@[m]).name@ != r.files@[j].name@
}

/// Builds the folder stored under `id` and, below it, at most `fuel` levels of
/// folders; deeper nesting can only come of a cycle among corrupted records.
pub fn from_tree(records: &Vec<(String, FolderRecord)>, id: &String, fuel: usize) -> (r: Result<
    Folder,
    GodataError,
>)
    ensures
        match tree_outcome(records@, id@, fuel as nat) {
            None => r is Ok,
            Some(e) => fails_with(r, e),
        },
        r matches Ok(d) ==> wf(d) && d.id@ == id@ && built_from(records@, d),
        r matches Ok(d) ==> (store_clash_free(records@) ==> mirrors_all(records@, d)),
    decreases fuel,
{
    let ghost s = records@;
    let i = match find_record(records, id) {
        Some(i) => i,
        None => {
            return Err(GodataError::new(
                GodataErrorType::NotFound,
                String::from_str("a folder record is missing"),
            ));
        },
    };
    if fuel == 0 {
        return Err(GodataError::new(
            GodataErrorType::InternalError,
            String::from_str("folder records nest deeper than there are records"),
        ));
    }
    proof {
        lemma_rec_at(s, id@);
    }
    let rec = &records[i].1;
    let ghost r = *rec;
    let mut folder = Folder {
        name: copy_string(&rec.name),
        children: Vec::new(),
        metadata: copy_metadata(&rec.metadata),
        id: copy_string(id),
        dirty: false,
    };
    let ghost cf = store_clash_free(s);
    proof {
        assert(s[i as int].1 == r);
        if cf {
            assert(clash_free(s, s[i as int].1));
        }
    }
    let nf = rec.folder_ids.len();
    let mut k: usize = 0;
    while k < nf
        invariant
            cf == store_clash_free(s),
            cf ==> clash_free(s, r),
            cf ==> child_folder_ids(folder.children@) == views(r.folder_ids@.subrange(0, k as int)),
            cf ==> child_files(folder.children@) == Seq::<File>::empty(),
            cf ==> folder.children@.len() == k,
            cf ==> forall|j: int|
                0 <= j < k ==> (#[trigger] folder.children@[j] matches Node::Folder(c) && mirrors_all(s, c)
                    && c.name@ == rec_name(s, r.folder_ids@[j]@)),
            tree_outcome(s, id@, fuel as nat) == children_outcome(s, r.folder_ids@, k as int, (fuel
                - 1) as nat),
            s == records@,
            r == s[i as int].1,
            *rec == r,
            i as int == rec_at(s, id@),
            nf == r.folder_ids@.len(),
            k <= nf,
            fuel > 0,
            wf(folder),
            folder.id@ == id@,
            folder.name@ == r.name@,
            folder.metadata@ == r.metadata@,
            forall|j: int|
                0 <= j < k && folder_last_upto(s, r, j, k as int) ==> (child(
                    folder,
                    rec_name(s, (#[trigger] r.folder_ids@[j])@),
                ) matches Some(Node::Folder(c)) && c.id@ == r.folder_ids@[j]@),
            forall|n: Seq<char>|
                (#[trigger] child(folder, n)) is Some ==> (exists|m: int|
                    0 <= m < k && rec_name(s, (#[trigger] r.folder_ids@[m])@) == n),
            forall|n: Seq<char>|
                (#[trigger] child(folder, n)) matches Some(Node::Folder(c)) ==> built_from(s, c),
        decreases nf - k,
    {
        let sub = match from_tree(records, &rec.folder_ids[k], fuel - 1) {
            Ok(d) => d,
            Err(e) => {
                return Err(e);
            },
        };
        let ghost before = folder;
        let ghost nk = rec_name(s, r.folder_ids@[k as int]@);
        proof {
            lemma_rec_at(s, sub.id@);
            assert(sub.name@ == nk);
            if cf {
                lemma_find(folder.children@, nk);
                if find_index(folder.children@, nk) >= 0 {
                    let j = find_index(folder.children@, nk);
                    assert(folder.children@[j] matches Node::Folder(c) && c.name@ == rec_name(
                        s,
                        r.folder_ids@[j]@,
                    ));
                    assert(rec_name(s, r.folder_ids@[j]@) != rec_name(s, r.folder_ids@[k as int]@));
                }
            }
        }
        let ghost cs = folder.children@;
        folder.put_child(Node::Folder(sub));
        proof {
            if cf {
                assert(folder.children@ == cs.push(Node::Folder(sub)));
                assert(folder.children@.drop_last() =~= cs);
                assert(r.folder_ids@.subrange(0, k + 1) =~= r.folder_ids@.subrange(0, k as int).push(
                    r.folder_ids@[k as int],
                ));
                assert(views(r.folder_ids@.subrange(0, k + 1)) =~= views(
                    r.folder_ids@.subrange(0, k as int),
                ).push(r.folder_ids@[k as int]@));
                assert forall|j: int| 0 <= j < k + 1 implies (#[trigger] folder.children@[j] matches Node::Folder(
                    c,
                ) && mirrors_all(s, c) && c.name@ == rec_name(s, r.folder_ids@[j]@)) by {
                    if j < k {
                        assert(folder.children@[j] == cs[j]);
                    }
                }
            }
            assert forall|j: int|
                0 <= j < k + 1 && folder_last_upto(s, r, j, k + 1) implies (child(
                folder,
                rec_name(s, (#[trigger] r.folder_ids@[j])@),
            ) matches Some(Node::Folder(c)) && c.id@ == r.folder_ids@[j]@) by {
                if j < k {
                    assert(rec_name(s, r.folder_ids@[k as int]@) != rec_name(s, r.folder_ids@[j]@));
                    assert(folder_last_upto(s, r, j, k as int));
                }
            }
            assert forall|n: Seq<char>| (#[trigger] child(folder, n)) is Some implies (exists|m: int|
                0 <= m < k + 1 && rec_name(s, (#[trigger] r.folder_ids@[m])@) == n) by {
                if n == nk {
                    assert(rec_name(s, r.folder_ids@[k as int]@) == n);
                } else {
                    assert(child(before, n) is Some);
                }
            }
            assert forall|n: Seq<char>|
                (#[trigger] child(folder, n) matches Some(Node::Folder(c)) ==> built_from(s, c)) by {
                if n != nk {
                    assert(child(before, n) == child(folder, n));
                }
            }
        }
        k = k + 1;
    }
    let nfi = rec.files.len();
    let mut k: usize = 0;
    proof {
        if cf {
            assert(r.folder_ids@.subrange(0, nf as int) =~= r.folder_ids@);
        }
    }
    while k < nfi
        invariant
            cf == store_clash_free(s),
            cf ==> clash_free(s, r),
            cf ==> child_folder_ids(folder.children@) == views(r.folder_ids@),
            cf ==> child_files(folder.children@).len() == k,
            cf ==> forall|j: int|
                0 <= j < k ==> file_record_of(#[trigger] child_files(folder.children@)[j], r.files@[j]),
            cf ==> folder.children@.len() == nf + k,
            cf ==> forall|j: int|
                0 <= j < nf ==> (#[trigger] folder.children@[j] matches Node::Folder(c) && mirrors_all(s, c)
                    && c.name@ == rec_name(s, r.folder_ids@[j]@)),
            cf ==> forall|j: int|
                nf <= j < nf + k ==> (#[trigger] folder.children@[j] matches Node::File(f) && f.name@
                    == r.files@[j - nf].name@),
            s == records@,
            r == s[i as int].1,
            *rec == r,
            i as int == rec_at(s, id@),
            nf == r.folder_ids@.len(),
            nfi == r.files@.len(),
            k <= nfi,
            wf(folder),
            folder.id@ == id@,
            folder.name@ == r.name@,
            folder.metadata@ == r.metadata@,
            forall|j: int|
                0 <= j < nf && folder_last_upto(s, r, j, nf as int) && !(exists|m: int|
                    0 <= m < k && (#[trigger] r.files@[m]).name@ == rec_name(s, r.folder_ids@[j]@))
                    ==> (child(folder, rec_name(s, (#[trigger] r.folder_ids@[j])@)) matches Some(
                    Node::Folder(c),
                ) && c.id@ == r.folder_ids@[j]@),
            forall|j: int|
                0 <= j < k && file_last_upto(r, j, k as int) ==> (child(
                    folder,
                    (#[trigger] r.files@[j]).name@,
                ) matches Some(Node::File(f)) && file_record_of(f, r.files@[j])),
            forall|n: Seq<char>|
                (#[trigger] child(folder, n)) is Some ==> (exists|m: int|
                    0 <= m < k && (#[trigger] r.files@[m]).name@ == n) || folder_named(s, r, n),
            forall|n: Seq<char>|
                (#[trigger] child(folder, n)) matches Some(Node::Folder(c)) ==> built_from(s, c),
        decreases nfi - k,
    {
        let fr = &rec.files[k];
        let f = File {
            name: copy_string(&fr.name),
            real_path: copy_string(&fr.real_path),
            id: copy_string(&fr.id),
            metadata: copy_metadata(&fr.metadata),
        };
        let ghost before = folder;
        let ghost nk = r.files@[k as int].name@;
        proof {
            if cf {
                lemma_find(folder.children@, nk);
                if find_index(folder.children@, nk) >= 0 {
                    let j = find_index(folder.children@, nk);
                    if j < nf {
                        assert(folder.children@[j] matches Node::Folder(c) && c.name@ == rec_name(
                            s,
                            r.folder_ids@[j]@,
                        ));
                        assert(r.files@[k as int].name@ != rec_name(s, r.folder_ids@[j]@));
                    } else {
                        assert(folder.children@[j] matches Node::File(g) && g.name@ == r.files@[j
                            - nf].name@);
                        assert(r.files@[j - nf].name@ != r.files@[k as int].name@);
                    }
                }
            }
        }
        let ghost cs = folder.children@;
        folder.put_child(Node::File(f));
        proof {
            if cf {
                assert(folder.children@ == cs.push(Node::File(f)));
                assert(folder.children@.drop_last() =~= cs);
                assert(child_files(folder.children@) == child_files(cs).push(f));
                assert forall|j: int| 0 <= j < k + 1 implies file_record_of(
                    #[trigger] child_files(folder.children@)[j],
                    r.files@[j],
                ) by {
                    if j < k {
                        assert(child_files(folder.children@)[j] == child_files(cs)[j]);
                    }
                }
                assert forall|j: int| 0 <= j < nf implies (#[trigger] folder.children@[j] matches Node::Folder(
                    c,
                ) && mirrors_all(s, c) && c.name@ == rec_name(s, r.folder_ids@[j]@)) by {
                    assert(folder.children@[j] == cs[j]);
                }
                assert forall|j: int| nf <= j < nf + k + 1 implies (#[trigger] folder.children@[j] matches Node::File(
                    g,
                ) && g.name@ == r.files@[j - nf].name@) by {
                    if j < nf + k {
                        assert(folder.children@[j] == cs[j]);
                    }
                }
            }
            assert forall|j: int|
                0 <= j < nf && folder_last_upto(s, r, j, nf as int) && !(exists|m: int|
                    0 <= m < k + 1 && (#[trigger] r.files@[m]).name@ == rec_name(
                        s,
                        r.folder_ids@[j]@,
                    )) implies (child(folder, rec_name(s, (#[trigger] r.folder_ids@[j])@)) matches Some(
                Node::Folder(c),
            ) && c.id@ == r.folder_ids@[j]@) by {
                assert(r.files@[k as int].name@ != rec_name(s, r.folder_ids@[j]@));
                assert(!(exists|m: int|
                    0 <= m < k && (#[trigger] r.files@[m]).name@ == rec_name(s, r.folder_ids@[j]@)));
            }
            assert forall|j: int|
                0 <= j < k + 1 && file_last_upto(r, j, k + 1) implies (child(
                folder,
                (#[trigger] r.files@[j]).name@,
            ) matches Some(Node::File(g)) && file_record_of(g, r.files@[j])) by {
                if j < k {
                    assert(r.files@[k as int].name@ != r.files@[j].name@);
                    assert(file_last_upto(r, j, k as int));
                }
            }
            assert forall|n: Seq<char>| (#[trigger] child(folder, n)) is Some implies (exists|m: int|
                0 <= m < k + 1 && (#[trigger] r.files@[m]).name@ == n) || folder_named(s, r, n) by {
                if n == nk {
                    assert(r.files@[k as int].name@ == n);
                } else {
                    assert(child(before, n) is Some);
                }
            }
            assert forall|n: Seq<char>|
                (#[trigger] child(folder, n) matches Some(Node::Folder(c)) ==> built_from(s, c)) by {
                if n != nk {
                    assert(child(before, n) == child(folder, n));
                }
            }
        }
        k = k + 1;
    }
    proof {
        assert forall|x: int| 0 <= x < folder.children@.len() implies (
        #[trigger] folder.children@[x] matches Node::Folder(c) ==> built_from(s, c)) by {
            let n = node_name(folder.children@[x]);
            lemma_find(folder.children@, n);
            assert(child(folder, n) == Some(folder.children@[x]));
        }
        assert forall|j: int|
            0 <= j < r.files@.len() && file_last(r, j) implies (child(
            folder,
            (#[trigger] r.files@[j]).name@,
        ) matches Some(Node::File(f)) && file_record_of(f, r.files@[j])) by {
            assert(file_last_upto(r, j, nfi as int));
        }
        assert forall|j: int|
            0 <= j < r.folder_ids@.len() && folder_last(s, r, j) implies (child(
            folder,
            rec_name(s, (#[trigger] r.folder_ids@[j])@),
        ) matches Some(Node::Folder(c)) && c.id@ == r.folder_ids@[j]@) by {
            assert(folder_last_upto(s, r, j, nf as int));
            assert(!(exists|m: int|
                0 <= m < nfi && (#[trigger] r.files@[m]).name@ == rec_name(s, r.folder_ids@[j]@)));
        }
        assert forall|n: Seq<char>| (#[trigger] child(folder, n)) is Some implies file_named(r, n)
            || folder_named(s, r, n) by {}
        if cf {
            assert(record_of(folder, r));
            assert forall|x: Folder| #[trigger] crate::records::all_folders(folder).contains(x) implies rec_at(
                s,
                x.id@,
            ) >= 0 && record_of(x, s[rec_at(s, x.id@)].1) by {
                lemma_in_upto(folder, folder.children@.len() as int, x);
                if x != folder {
                    let m = choose|m: int|
                        0 <= m < folder.children@.len() && (#[trigger] folder.children@[m]) is Folder
                            && crate::records::all_folders(folder.children@[m]->Folder_0).contains(x);
                    if m >= nf {
                        assert(folder.children@[m] is File);
                    }
                }
            }
        }
    }
    Ok(folder)
}

pub proof fn lemma_find_same_names(a: Seq<Node>, b: Seq<Node>, name: Seq<char>)
    requires
        a.len() == b.len(),
        forall|i: int| 0 <= i < a.len() ==> node_name(#[trigger] a[i]) == node_name(b[i]),
    ensures
        find_index(a, name) == find_index(b, name),
    decreases a.len(),
{
    if a.len() > 0 {
        assert(node_name(a.last()) == node_name(b[b.len() - 1]));
        assert forall|i: int| 0 <= i < a.drop_last().len() implies node_name(
            #[trigger] a.drop_last()[i],
        ) == node_name(b.drop_last()[i]) by {
            assert(node_name(a[i]) == node_name(b[i]));
        }
        lemma_find_same_names(a.drop_last(), b.drop_last(), name);
    }
}

/// Trees equal but for their dirty flags hold the same file at every path.
pub proof fn lemma_same_shape_files(a: Folder, b: Folder, q: Seq<Seq<char>>)
    requires
        same_shape(a, b),
    ensures
        file_at(a, q) == file_at(b, q),
        walk(a, q) is Found == walk(b, q) is Found,
    decreases q.len(),
{
    if q.len() > 0 {
        assert forall|i: int| 0 <= i < a.children@.len() implies node_name(
            #[trigger] a.children@[i],
        ) == node_name(b.children@[i]) by {
            assert(match a.children@[i] {
                Node::File(f) => b.children@[i] == Node::File(f),
                Node::Folder(x) => b.children@[i] matches Node::Folder(y) && same_shape(x, y),
            });
        }
        lemma_find_same_names(a.children@, b.children@, q[0]);
        lemma_find(a.children@, q[0]);
        let i = find_index(a.children@, q[0]);
        if i >= 0 {
            assert(match a.children@[i] {
                Node::File(f) => b.children@[i] == Node::File(f),
                Node::Folder(x) => b.children@[i] matches Node::Folder(y) && same_shape(x, y),
            });
            if q.len() > 1 {
                if let Node::Folder(x) = a.children@[i] {
                    let y = b.children@[i]->Folder_0;
                    lemma_same_shape_files(x, y, q.drop_first());
                }
            }
        }
    }
}

/// The segments of a folder path: none for the empty path, which is the root.
pub open spec fn folder_spec(path: Seq<char>) -> Seq<Seq<char>> {
    if path.len() == 0 {
        Seq::empty()
    } else {
        split_spec(path)
    }
}

/// No entry after the `j`th has the same name.
pub open spec fn last_entry(es: Seq<(String, String)>, j: int) -> bool {
    forall|k: int| j < k < es.len() ==> (#[trigger] es[k]).1@ != es[j].1@
}

/// A node found in a well-formed tree is well formed.
pub proof fn lemma_found_wf(d: Folder, segs: Seq<Seq<char>>)
    requires
        wf(d),
        walk(d, segs) is Found,
    ensures
        node_wf(lookup(d, segs)->Some_0),
    decreases segs.len(),
{
    if segs.len() > 0 {
        lemma_find(d.children@, segs[0]);
        let i = find_index(d.children@, segs[0]);
        assert(d.children@[i] matches Node::Folder(c) ==> wf(c));
        if segs.len() > 1 {
            if let Node::Folder(c) = d.children@[i] {
                lemma_found_wf(c, segs.drop_first());
            }
        }
    }
}

/// Removing detaches at most as much as the collapse below the first name.
pub proof fn lemma_remove_cut(d: Folder, s: Seq<Seq<char>>)
    ensures
        remove_cut(d, s) == cut_len(d, s),
{
}

proof fn lemma_empties_files(c: Folder, g: Seq<Seq<char>>, q: Seq<Seq<char>>)
    requires
        g.len() >= 1,
        walk(c, g) is Found,
        empties(c, g),
        file_at(c, q) is Some,
    ensures
        g.is_prefix_of(q),
    decreases g.len(),
{
    lemma_find(c.children@, q[0]);
    lemma_find(c.children@, g[0]);
    assert(q[0] == g[0]);
    if g.len() == 1 {
        assert(q.subrange(0, 1) =~= g);
    } else {
        lemma_walk_found_step(c, g);
        assert(q.len() >= 2);
        lemma_empties_files(first_folder(c, g), g.drop_first(), q.drop_first());
        lemma_prefix_step(g, q);
    }
}

/// Every file under the part of the tree that removing `s` detaches lies
/// under `s` itself: the folders that collapse hold nothing else.
pub proof fn lemma_cut_files(d: Folder, s: Seq<Seq<char>>, q: Seq<Seq<char>>)
    requires
        s.len() >= 1,
        walk(d, s) is Found,
        s.subrange(0, cut_len(d, s)).is_prefix_of(q),
        file_at(d, q) is Some,
    ensures
        s.is_prefix_of(q),
    decreases s.len(),
{
    lemma_cut_len(d, s);
    let cut = s.subrange(0, cut_len(d, s));
    assert(q[0] == cut[0]);
    if s.len() == 1 {
        assert(cut =~= s);
    } else {
        lemma_walk_found_step(d, s);
        lemma_find(d.children@, s[0]);
        let c = first_folder(d, s);
        assert(q.len() >= 2);
        if empties(c, s.drop_first()) {
            lemma_empties_files(c, s.drop_first(), q.drop_first());
        } else {
            lemma_cut_len(c, s.drop_first());
            assert(cut.drop_first() =~= s.drop_first().subrange(0, cut_len(c, s.drop_first())));
            lemma_prefix_step(cut, q);
            lemma_cut_files(c, s.drop_first(), q.drop_first());
        }
        lemma_prefix_step(s, q);
    }
}

} // verus!
