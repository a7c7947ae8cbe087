use vstd::prelude::*;
use crate::error::{fails_with, GodataError, GodataErrorType};
use crate::fsystem::{folder_spec, last_entry, FileSystem};
use crate::path::{split_spec, views};
use crate::storage::{path_join, path_starts_with, path_strip, LocalEndpoint};
use crate::tree::{
    keys_unique,
    can_fill, child, copy_string, names_of_kind, same_content, node_name, displaced, file_at, insert_refusal, lookup, remove_cut, unrelated,
    walk, File, Listing, Metadata, Node, Walk,
};

verus! {

/// The real paths of the files, each resolved against `root`, that lie under
/// `root`: the ones that may be deleted with their records.
pub open spec fn internal_resolved(root: Seq<char>, files: Seq<File>) -> Seq<Seq<char>>
    decreases files.len(),
{
    if files.len() == 0 {
        Seq::empty()
    } else {
        let rest = internal_resolved(root, files.drop_last());
        let p = path_join(root, files.last().real_path@);
        if path_starts_with(p, root) {
            rest.push(p)
        } else {
            rest
        }
    }
}

/// Only paths under the root are ever handed out for deletion.
pub proof fn lemma_only_internal(root: Seq<char>, files: Seq<File>)
    ensures
        forall|i: int|
            0 <= i < internal_resolved(root, files).len() ==> path_starts_with(
                #[trigger] internal_resolved(root, files)[i],
                root,
            ),
    decreases files.len(),
{
    if files.len() > 0 {
        lemma_only_internal(root, files.drop_last());
        let rest = internal_resolved(root, files.drop_last());
        let all = internal_resolved(root, files);
        assert forall|i: int| 0 <= i < all.len() implies path_starts_with(#[trigger] all[i], root) by {
            if i < rest.len() {
                assert(all[i] == rest[i]);
            }
        }
    }
}

/// The entries of `m` under another key than `k`.
pub open spec fn without_key(m: Seq<(String, String)>, k: Seq<char>) -> Seq<(String, String)>
    decreases m.len(),
{
    if m.len() == 0 {
        Seq::empty()
    } else if m.last().0@ == k {
        without_key(m.drop_last(), k)
    } else {
        without_key(m.drop_last(), k).push(m.last())
    }
}

pub open spec fn real_path_key() -> Seq<char> {
    seq!['r', 'e', 'a', 'l', '_', 'p', 'a', 't', 'h']
}

/// A file linked from outside the storage root, by an absolute path, is never
/// among the paths handed out for deletion: it resolves to its own path, which
/// does not lie under the root.
pub proof fn lemma_external_never_listed(root: Seq<char>, files: Seq<File>, f: File)
    requires
        f.real_path@.len() > 0,
        f.real_path@[0] == '/',
        !path_starts_with(f.real_path@, root),
    ensures
        path_join(root, f.real_path@) == f.real_path@,
        !internal_resolved(root, files).contains(path_join(root, f.real_path@)),
{
    lemma_only_internal(root, files);
}

/// Displaced files, in the form handed to callers: `None` when there were none.
pub open spec fn displaced_paths(root: Seq<char>, prev: Option<Node>, r: Option<Vec<String>>) -> bool {
    match prev {
        Some(n) => if displaced(n).len() == 0 {
            r is None
        } else {
            r matches Some(v) && views(v@) == internal_resolved(root, displaced(n))
        },
        None => r is None,
    }
}

/// Displaced files, in the form that a move hands to callers: whenever the
/// tree handed files back, the owned ones among them, possibly none.
pub open spec fn moved_paths(root: Seq<char>, prev: Option<Node>, r: Option<Vec<String>>) -> bool {
    match prev {
        Some(n) => r matches Some(v) && views(v@) == internal_resolved(root, displaced(n)),
        None => r is None,
    }
}

/// A project: one virtual tree and the storage endpoint that its relative
/// paths are resolved against.
pub struct Project {
    pub tree: FileSystem,
    pub name: String,
    pub collection: String,
    pub endpoint: LocalEndpoint,
}

impl Project {
    pub open spec fn inv(&self) -> bool {
        self.tree.inv()
    }

    pub fn new(tree: FileSystem, name: String, collection: String, endpoint: LocalEndpoint) -> (r:
        Project)
        ensures
            r.tree == tree,
            r.name == name,
            r.collection == collection,
            r.endpoint == endpoint,
    {
        Project { tree, name, collection, endpoint }
    }

    /// The real paths of the files, resolved, that lie under the storage root.
    pub fn internal_paths(&self, files: Vec<File>) -> (r: Vec<String>)
        ensures
            views(r@) == internal_resolved(self.endpoint.root_path@, files@),
    {
        let ghost root = self.endpoint.root_path@;
        let mut out: Vec<String> = Vec::new();
        let mut i: usize = 0;
        while i < files.len()
            invariant
                i <= files@.len(),
                root == self.endpoint.root_path@,
                views(out@) == internal_resolved(root, files@.subrange(0, i as int)),
            decreases files@.len() - i,
        {
            let ghost sub = files@.subrange(0, i + 1);
            assert(sub.drop_last() =~= files@.subrange(0, i as int));
            let p = self.endpoint.resolve(files[i].real_path.as_str());
            if self.endpoint.is_internal(p.as_str()) {
                out.push(p);
                assert(views(out@) =~= views(out@.drop_last()).push(p@));
            }
            i = i + 1;
        }
        assert(files@.subrange(0, i as int) =~= files@);
        out
    }

    fn report(&self, prev: Option<Vec<File>>) -> (r: Option<Vec<String>>)
        ensures
            match prev {
                None => r is None,
                Some(v) => if v@.len() == 0 {
                    r is None
                } else {
                    r matches Some(w) && views(w@) == internal_resolved(
                        self.endpoint.root_path@,
                        v@,
                    )
                },
            },
    {
        match prev {
            None => None,
            Some(v) => {
                if v.len() == 0 {
                    None
                } else {
                    Some(self.internal_paths(v))
                }
            },
        }
    }

    /// Links the file at `real_path` into the tree at `project_path`. Of the files
    /// that this displaces, hands back those that the endpoint owns.
    pub fn add_file(
        &mut self,
        project_path: &str,
        real_path: &str,
        metadata: Metadata,
        overwrite: bool,
    ) -> (r: Result<Option<Vec<String>>, GodataError>)
        requires
            old(self).inv(),
            keys_unique(metadata@),
        ensures
            final(self).inv(),
            final(self).endpoint == old(self).endpoint,
            !path_starts_with(real_path@, old(self).endpoint.root_path@) ==> fails_with(
                r,
                GodataErrorType::InvalidPath,
            ) && *final(self) == *old(self),
            path_starts_with(real_path@, old(self).endpoint.root_path@) ==> ({
                let s = split_spec(project_path@);
                let root = old(self).tree.root;
                match insert_refusal(root, s.drop_last(), s.last(), overwrite) {
                    Some(e) => fails_with(r, e) && *final(self) == *old(self),
                    None => {
                        &&& r matches Ok(o) && displaced_paths(
                            old(self).endpoint.root_path@,
                            lookup(root, s),
                            o,
                        )
                        &&& file_at(final(self).tree.root, s) matches Some(f) && f.real_path@
                            == path_strip(real_path@, old(self).endpoint.root_path@)
                            && f.metadata@ == metadata@
                        &&& forall|q: Seq<Seq<char>>|
                            !s.is_prefix_of(q) ==> #[trigger] file_at(final(self).tree.root, q)
                                == file_at(root, q)
                    },
                }
            }),
    {
        let relpath = self.endpoint.get_relative_path(real_path)?;
        let prev = self.tree.insert(project_path, relpath, metadata, overwrite)?;
        Ok(self.report(prev))
    }

    /// Links the files, each given by its real path and its name, into the
    /// folder at `project_path`.
    pub fn add_folder(&mut self, project_path: &str, entries: Vec<(String, String)>) -> (r: Result<
        (),
        GodataError,
    >)
        requires
            old(self).inv(),
        ensures
            final(self).inv(),
            final(self).endpoint == old(self).endpoint,
            ({
                let p = folder_spec(project_path@);
                if !can_fill(old(self).tree.root, p) {
                    fails_with(r, GodataErrorType::InvalidPath) && *final(self) == *old(self)
                } else {
                    &&& r is Ok
                    &&& walk(final(self).tree.root, p) matches Walk::Found(Node::Folder(g)) && (
                    forall|j: int|
                        0 <= j < entries@.len() && last_entry(entries@, j) ==> (child(
                            g,
                            (#[trigger] entries@[j]).1@,
                        ) matches Some(Node::File(f)) && f.real_path@ == entries@[j].0@))
                    &&& forall|q: Seq<Seq<char>>|
                        !p.is_prefix_of(q) ==> #[trigger] file_at(final(self).tree.root, q)
                            == file_at(old(self).tree.root, q)
                }
            }),
    {
        self.tree.insert_many(entries, project_path)
    }

    /// The metadata of the file at the path, with its resolved real path under
    /// the key `real_path`.
    pub fn get_file(&self, project_path: &str) -> (r: Result<Metadata, GodataError>)
        requires
            self.inv(),
        ensures
            match lookup(self.tree.root, split_spec(project_path@)) {
                Some(Node::File(f)) => r matches Ok(m) && m@.len() >= 1 && m@.drop_last()
                    == without_key(f.metadata@, real_path_key()) && m@.last().0@
                    == real_path_key() && m@.last().1@ == path_join(
                    self.endpoint.root_path@,
                    f.real_path@,
                ),
                Some(Node::Folder(_)) => fails_with(r, GodataErrorType::InvalidPath),
                None => fails_with(r, GodataErrorType::NotFound),
            },
    {
        let f = self.tree.get(project_path)?;
        let key = String::from_str("real_path");
        proof {
            reveal_strlit("real_path");
            assert(key@ =~= real_path_key());
        }
        let mut meta: Metadata = Vec::new();
        let mut i: usize = 0;
        while i < f.metadata.len()
            invariant
                i <= f.metadata@.len(),
                key@ == real_path_key(),
                meta@ == without_key(f.metadata@.subrange(0, i as int), real_path_key()),
            decreases f.metadata@.len() - i,
        {
            let ghost sub = f.metadata@.subrange(0, i + 1);
            assert(sub.drop_last() =~= f.metadata@.subrange(0, i as int));
            let same: bool = f.metadata[i].0 == key;
            if !same {
                let k = copy_string(&f.metadata[i].0);
                let v = copy_string(&f.metadata[i].1);
                meta.push((k, v));
            }
            i = i + 1;
        }
        assert(f.metadata@.subrange(0, i as int) =~= f.metadata@);
        let resolved = self.endpoint.resolve(f.real_path.as_str());
        meta.push((key, resolved));
        Ok(meta)
    }

    /// The names of the folders and files in the folder at the path, or in the
    /// root.
    pub fn list(&self, project_path: Option<&str>) -> (r: Result<Listing, GodataError>)
        ensures
            match project_path {
                None => r matches Ok(l) && views(l.folders@) == names_of_kind(
                    self.tree.root.children@,
                    true,
                ) && views(l.files@) == names_of_kind(self.tree.root.children@, false),
                Some(p) => match lookup(self.tree.root, split_spec(p@)) {
                    Some(Node::Folder(d)) => r matches Ok(l) && views(l.folders@)
                        == names_of_kind(d.children@, true) && views(l.files@) == names_of_kind(
                        d.children@,
                        false,
                    ),
                    Some(Node::File(_)) => fails_with(r, GodataErrorType::InvalidPath),
                    None => fails_with(r, GodataErrorType::NotFound),
                },
            },
    {
        self.tree.list(project_path)
    }

    /// Removes the node at the path; hands back the real paths of the removed
    /// files that the endpoint owns.
    pub fn remove_file(&mut self, project_path: &str) -> (r: Result<Vec<String>, GodataError>)
        requires
            old(self).inv(),
        ensures
            final(self).inv(),
            final(self).endpoint == old(self).endpoint,
            project_path@.len() == 0 ==> fails_with(r, GodataErrorType::InvalidPath),
            project_path@.len() > 0 ==> ({
                let s = split_spec(project_path@);
                let root = old(self).tree.root;
                match walk(root, s) {
                    Walk::Missing => fails_with(r, GodataErrorType::NotFound),
                    Walk::ThroughFile => fails_with(r, GodataErrorType::InvalidPath),
                    Walk::Found(_) => {
                        let cut = s.subrange(0, remove_cut(root, s));
                        &&& r matches Ok(v) && views(v@) == internal_resolved(
                            old(self).endpoint.root_path@,
                            displaced(lookup(root, cut)->Some_0),
                        )
                        &&& forall|q: Seq<Seq<char>>|
                            cut.is_prefix_of(q) ==> #[trigger] walk(final(self).tree.root, q) is Missing
                        &&& forall|q: Seq<Seq<char>>|
                            !cut.is_prefix_of(q) ==> #[trigger] file_at(final(self).tree.root, q)
                                == file_at(root, q)
                    },
                }
            }),
    {
        let removed = self.tree.remove(project_path)?;
        Ok(self.internal_paths(removed))
    }

    /// Moves the node at `from` to `to`; of the files that this displaces, hands
    /// back those that the endpoint owns.
    pub fn move_(&mut self, from: &str, to: &str, overwrite: bool) -> (r: Result<
        Option<Vec<String>>,
        GodataError,
    >)
        requires
            old(self).inv(),
        ensures
            final(self).inv(),
            final(self).endpoint == old(self).endpoint,
            ({
                let f = split_spec(from@);
                let t = split_spec(to@);
                let root = old(self).tree.root;
                if !(walk(root, f) is Found) {
                    fails_with(r, GodataErrorType::NotFound) && *final(self) == *old(self)
                } else if lookup(root, t) is Some && !overwrite {
                    fails_with(r, GodataErrorType::AlreadyExists) && *final(self) == *old(self)
                } else if from@.len() == 0 || (t.is_prefix_of(f) && t.len() < f.len()) {
                    fails_with(r, GodataErrorType::InvalidPath) && *final(self) == *old(self)
                } else if insert_refusal(root, t.drop_last(), t.last(), overwrite) is Some {
                    fails_with(r, insert_refusal(root, t.drop_last(), t.last(), overwrite)->Some_0)
                        && *final(self) == *old(self)
                } else {
                    &&& r matches Ok(o) && moved_paths(
                        old(self).endpoint.root_path@,
                        lookup(root, t),
                        o,
                    )
                    &&& walk(final(self).tree.root, f) is Missing
                    &&& unrelated(f, t) ==> (lookup(final(self).tree.root, t) matches Some(n)
                        && same_content(lookup(root, f)->Some_0, n) && node_name(n) == t.last())
                }
            }),
    {
        let prev = match self.tree.move_(from, to, overwrite) {
            Ok(p) => p,
            Err(e) => {
                return Err(e);
            },
        };
        match prev {
            None => Ok(None),
            Some(v) => Ok(Some(self.internal_paths(v))),
        }
    }

    /// Whether anything stands at the path.
    pub fn path_exists(&self, project_path: &str) -> (r: bool)
        ensures
            r == (walk(self.tree.root, split_spec(project_path@)) is Found),
    {
        self.tree.path_exists(project_path)
    }

    /// A fresh real location for new data at the path.
    pub fn generate_path(&self, project_path: &str) -> (r: String)
        ensures
            r@ == path_join(self.endpoint.root_path@, project_path@),
    {
        self.endpoint.generate_path(project_path)
    }
}

} // verus!
