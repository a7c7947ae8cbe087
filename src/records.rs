use vstd::prelude::*;
use crate::error::{GodataError, GodataErrorType};
use crate::path::views;
use crate::tree::{
    copy_metadata, copy_string, find_index, names_unique, node_name, node_wf, wf, File, Folder,
    Metadata, Node, child, lemma_find,
};

verus! {

/// A file as it is stored, inside the record of its folder.
pub struct FileRecord {
    pub name: String,
    pub real_path: String,
    pub id: String,
    pub metadata: Metadata,
}

/// A folder as it is stored under its identifier: its child folders by
/// identifier, its files in full.
pub struct FolderRecord {
    pub name: String,
    pub folder_ids: Vec<String>,
    pub files: Vec<FileRecord>,
    pub metadata: Metadata,
}

/// The writes and removals of one flush, to be applied to the store at once:
/// the removals first, then the writes.
pub struct Batch {
    pub writes: Vec<(String, FolderRecord)>,
    pub removals: Vec<String>,
}

pub open spec fn file_record_of(f: File, r: FileRecord) -> bool {
    &&& r.name@ == f.name@
    &&& r.real_path@ == f.real_path@
    &&& r.id@ == f.id@
    &&& r.metadata@ == f.metadata@
}

/// The identifiers of the child folders, in order.
pub open spec fn child_folder_ids(c: Seq<Node>) -> Seq<Seq<char>>
    decreases c.len(),
{
    if c.len() == 0 {
        Seq::empty()
    } else {
        match c.last() {
            Node::Folder(d) => child_folder_ids(c.drop_last()).push(d.id@),
            Node::File(_) => child_folder_ids(c.drop_last()),
        }
    }
}

/// The child files, in order.
pub open spec fn child_files(c: Seq<Node>) -> Seq<File>
    decreases c.len(),
{
    if c.len() == 0 {
        Seq::empty()
    } else {
        match c.last() {
            Node::File(f) => child_files(c.drop_last()).push(f),
            Node::Folder(_) => child_files(c.drop_last()),
        }
    }
}

/// `r` is the stored form of the folder `d`.
pub open spec fn record_of(d: Folder, r: FolderRecord) -> bool {
    &&& r.name@ == d.name@
    &&& r.metadata@ == d.metadata@
    &&& views(r.folder_ids@) == child_folder_ids(d.children@)
    &&& r.files@.len() == child_files(d.children@).len()
    &&& forall|i: int|
        0 <= i < r.files@.len() ==> file_record_of(child_files(d.children@)[i], #[trigger] r.files@[i])
}

impl File {
    pub fn to_db_file(&self) -> (r: FileRecord)
        ensures
            file_record_of(*self, r),
    {
        FileRecord {
            name: copy_string(&self.name),
            real_path: copy_string(&self.real_path),
            id: copy_string(&self.id),
            metadata: copy_metadata(&self.metadata),
        }
    }

    pub fn from_db_file(r: FileRecord) -> (f: File)
        ensures
            file_record_of(f, r),
    {
        File { name: r.name, real_path: r.real_path, id: r.id, metadata: r.metadata }
    }
}

impl Folder {
    /// The stored form of this folder.
    pub fn to_db_folder(&self) -> (r: FolderRecord)
        ensures
            record_of(*self, r),
    {
        let mut folder_ids: Vec<String> = Vec::new();
        let mut files: Vec<FileRecord> = Vec::new();
        let mut i: usize = 0;
        while i < self.children.len()
            invariant
                i <= self.children@.len(),
                views(folder_ids@) == child_folder_ids(self.children@.subrange(0, i as int)),
                files@.len() == child_files(self.children@.subrange(0, i as int)).len(),
                forall|j: int|
                    0 <= j < files@.len() ==> file_record_of(
                        child_files(self.children@.subrange(0, i as int))[j],
                        #[trigger] files@[j],
                    ),
            decreases self.children@.len() - i,
        {
            let ghost sub = self.children@.subrange(0, i + 1);
            assert(sub.drop_last() =~= self.children@.subrange(0, i as int));
            match &self.children[i] {
                Node::File(f) => {
                    let rec = f.to_db_file();
                    files.push(rec);
                    assert(child_files(sub) == child_files(sub.drop_last()).push(*f));
                },
                Node::Folder(d) => {
                    let id = copy_string(&d.id);
                    folder_ids.push(id);
                    assert(views(folder_ids@) =~= views(folder_ids@.drop_last()).push(id@));
                },
            }
            i = i + 1;
        }
        assert(self.children@.subrange(0, i as int) =~= self.children@);
        FolderRecord {
            name: copy_string(&self.name),
            folder_ids,
            files,
            metadata: copy_metadata(&self.metadata),
        }
    }
}

/// The folders of the subtree of `d` whose records are stale: `d` first, then
/// those below each of its first `i` children in turn.
pub open spec fn dirty_upto(d: Folder, i: int) -> Seq<Folder>
    decreases d, i,
{
    if i <= 0 || i > d.children@.len() {
        if d.dirty {
            seq![d]
        } else {
            Seq::empty()
        }
    } else {
        let here = match d.children@[i - 1] {
            Node::File(_) => Seq::empty(),
            Node::Folder(c) => dirty_upto(c, c.children@.len() as int),
        };
        dirty_upto(d, i - 1) + here
    }
}

pub open spec fn dirty_folders(d: Folder) -> Seq<Folder> {
    dirty_upto(d, d.children@.len() as int)
}

/// No folder of the subtree is dirty.
pub open spec fn clean(d: Folder) -> bool
    decreases d,
{
    &&& !d.dirty
    &&& forall|i: int|
        0 <= i < d.children@.len() ==> (#[trigger] d.children@[i] matches Node::Folder(c) ==> clean(c))
}

/// The two trees are equal but for their dirty flags.
pub open spec fn same_shape(a: Folder, b: Folder) -> bool
    decreases a,
{
    &&& a.name == b.name
    &&& a.id == b.id
    &&& a.metadata == b.metadata
    &&& a.children@.len() == b.children@.len()
    &&& forall|i: int|
        0 <= i < a.children@.len() ==> match #[trigger] a.children@[i] {
            Node::File(f) => b.children@[i] == Node::File(f),
            Node::Folder(x) => b.children@[i] matches Node::Folder(y) && same_shape(x, y),
        }
}

/// The writes of a batch hold, from `start` on, the records of `ds`.
pub open spec fn writes_hold(w: Seq<(String, FolderRecord)>, start: int, ds: Seq<Folder>) -> bool {
    &&& w.len() == start + ds.len()
    &&& forall|j: int|
        0 <= j < ds.len() ==> (#[trigger] w[start + j]).0@ == ds[j].id@ && record_of(
            ds[j],
            w[start + j].1,
        )
}

impl Folder {
    /// Appends the records of this folder and of the folders below it that are
    /// dirty.
    pub fn write_to_tree(&self, writes: &mut Vec<(String, FolderRecord)>)
        ensures
            forall|j: int| 0 <= j < old(writes)@.len() ==> #[trigger] final(writes)@[j] == old(writes)@[j],
            writes_hold(final(writes)@, old(writes)@.len() as int, dirty_folders(*self)),
        decreases *self,
    {
        let ghost start = old(writes)@.len() as int;
        let ghost w0 = old(writes)@;
        if self.dirty {
            let rec = self.to_db_folder();
            writes.push((copy_string(&self.id), rec));
        }
        assert(writes_hold(writes@, start, dirty_upto(*self, 0)));
        let mut i: usize = 0;
        while i < self.children.len()
            invariant
                i <= self.children@.len(),
                writes@.len() >= start,
                w0.len() == start,
                forall|j: int| 0 <= j < start ==> #[trigger] writes@[j] == w0[j],
                writes_hold(writes@, start, dirty_upto(*self, i as int)),
            decreases self.children@.len() - i,
        {
            match &self.children[i] {
                Node::File(_) => {
                    assert(dirty_upto(*self, i + 1) =~= dirty_upto(*self, i as int));
                },
                Node::Folder(c) => {
                    proof {
                        assert(decreases_to!(*self => self.children));
                        assert(decreases_to!(self.children => self.children@[i as int]));
                    }
                    let ghost before = writes@;
                    let ghost prev = dirty_upto(*self, i as int);
                    c.write_to_tree(writes);
                    assert(before.len() == start + prev.len());
                    assert(forall|k: int| 0 <= k < before.len() ==> #[trigger] writes@[k] == before[k]);
                    let ghost ds = dirty_upto(*self, i + 1);
                    assert(ds =~= prev + dirty_folders(*c));
                    assert forall|j: int| 0 <= j < ds.len() implies (#[trigger] writes@[start + j]).0@
                        == ds[j].id@ && record_of(ds[j], writes@[start + j].1) by {
                        if j < prev.len() {
                            assert(0 <= start + j < before.len());
                            assert(writes@[start + j] == before[start + j]);
                        } else {
                            let m = j - prev.len();
                            assert(writes@[before.len() + m] == writes@[start + j]);
                        }
                    }
                },
            }
            i = i + 1;
        }
    }

    /// Marks every folder of the subtree clean.
    pub fn reset(&mut self)
        requires
            wf(*old(self)),
        ensures
            wf(*final(self)),
            clean(*final(self)),
            same_shape(*old(self), *final(self)),
        decreases *old(self),
    {
        let ghost o = *self;
        let mut i: usize = 0;
        while i < self.children.len()
            invariant
                wf(o),
                o == *old(self),
                self.name == o.name,
                self.id == o.id,
                self.metadata == o.metadata,
                self.children@.len() == o.children@.len(),
                i <= self.children@.len(),
                forall|j: int| i <= j < o.children@.len() ==> #[trigger] self.children@[j] == o.children@[j],
                forall|j: int|
                    0 <= j < i ==> match #[trigger] o.children@[j] {
                        Node::File(f) => self.children@[j] == Node::File(f),
                        Node::Folder(x) => self.children@[j] matches Node::Folder(y) && same_shape(x, y)
                            && clean(y) && wf(y),
                    },
            decreases self.children@.len() - i,
        {
            proof {
                assert(self.children@[i as int] == o.children@[i as int]);
                assert(decreases_to!(o => o.children));
                assert(decreases_to!(o.children => o.children@[i as int]));
            }
            match &mut self.children[i] {
                Node::Folder(c) => c.reset(),
                Node::File(_) => {},
            }
            i = i + 1;
        }
        self.dirty = false;
        proof {
            assert(names_unique(self.children@)) by {
                assert forall|a: int, b: int|
                    0 <= a < self.children@.len() && 0 <= b < self.children@.len() && a != b implies node_name(
                    self.children@[a],
                ) != node_name(self.children@[b]) by {
                    assert(node_name(self.children@[a]) == node_name(o.children@[a]));
                    assert(node_name(self.children@[b]) == node_name(o.children@[b]));
                }
            }
            assert forall|j: int| 0 <= j < self.children@.len() implies (
            #[trigger] self.children@[j] matches Node::Folder(c) ==> wf(c) && clean(c)) by {
                assert(match o.children@[j] {
                    Node::File(f) => self.children@[j] == Node::File(f),
                    Node::Folder(x) => self.children@[j] matches Node::Folder(y) && same_shape(x, y)
                        && clean(y) && wf(y),
                });
            }
        }
    }
}

impl FolderRecord {
    /// Whether the stored folder has no child at all.
    pub fn is_empty(&self) -> (r: bool)
        ensures
            r == (self.folder_ids@.len() == 0 && self.files@.len() == 0),
    {
        self.folder_ids.len() == 0 && self.files.len() == 0
    }
}

/// Index of the last record stored under `id`, or -1.
pub open spec fn rec_at(s: Seq<(String, FolderRecord)>, id: Seq<char>) -> int
    decreases s.len(),
{
    if s.len() == 0 {
        -1
    } else if s.last().0@ == id {
        s.len() - 1
    } else {
        rec_at(s.drop_last(), id)
    }
}

pub proof fn lemma_rec_at(s: Seq<(String, FolderRecord)>, id: Seq<char>)
    ensures
        -1 <= rec_at(s, id) < s.len(),
        rec_at(s, id) >= 0 ==> s[rec_at(s, id)].0@ == id,
        rec_at(s, id) < 0 ==> forall|i: int| 0 <= i < s.len() ==> (#[trigger] s[i]).0@ != id,
    decreases s.len(),
{
    if s.len() > 0 {
        lemma_rec_at(s.drop_last(), id);
        assert forall|j: int| 0 <= j < s.len() - 1 implies s.drop_last()[j] == s[j] by {}
    }
}

/// The name in the record stored under `id`.
pub open spec fn rec_name(s: Seq<(String, FolderRecord)>, id: Seq<char>) -> Seq<char> {
    s[rec_at(s, id)].1.name@
}

/// Some file record of `r` has the name `n`.
pub open spec fn file_named(r: FolderRecord, n: Seq<char>) -> bool {
    exists|m: int| 0 <= m < r.files@.len() && (#[trigger] r.files@[m]).name@ == n
}

/// Some child folder of `r` is stored under the name `n`.
pub open spec fn folder_named(s: Seq<(String, FolderRecord)>, r: FolderRecord, n: Seq<char>) -> bool {
    exists|m: int| 0 <= m < r.folder_ids@.len() && rec_name(s, (#[trigger] r.folder_ids@[m])@) == n
}

/// No file record of `r` after the `j`th has its name.
pub open spec fn file_last(r: FolderRecord, j: int) -> bool {
    forall|m: int| j < m < r.files@.len() ==> (#[trigger] r.files@[m]).name@ != r.files@[j].name@
}

/// No child folder of `r` after the `j`th is stored under its name, and no file
/// record has it.
pub open spec fn folder_last(s: Seq<(String, FolderRecord)>, r: FolderRecord, j: int) -> bool {
    &&& forall|m: int|
        j < m < r.folder_ids@.len() ==> rec_name(s, (#[trigger] r.folder_ids@[m])@) != rec_name(
            s,
            r.folder_ids@[j]@,
        )
    &&& !file_named(r, rec_name(s, r.folder_ids@[j]@))
}

/// The folder `d` is what the records `s` hold under its identifier: its name
/// and metadata, every file and child folder that the record lists (where names
/// clash, the last file, else the last folder), and nothing else, all the way
/// down.
pub open spec fn built_from(s: Seq<(String, FolderRecord)>, d: Folder) -> bool
    decreases d,
{
    let i = rec_at(s, d.id@);
    let r = s[i].1;
    &&& i >= 0
    &&& d.name@ == r.name@
    &&& d.metadata@ == r.metadata@
    &&& forall|j: int|
        0 <= j < r.files@.len() && file_last(r, j) ==> (child(d, (#[trigger] r.files@[j]).name@) matches Some(
            Node::File(f),
        ) && file_record_of(f, r.files@[j]))
    &&& forall|j: int|
        0 <= j < r.folder_ids@.len() && folder_last(s, r, j) ==> (child(
            d,
            rec_name(s, (#[trigger] r.folder_ids@[j])@),
        ) matches Some(Node::Folder(c)) && c.id@ == r.folder_ids@[j]@)
    &&& forall|n: Seq<char>|
        (#[trigger] child(d, n)) is Some ==> file_named(r, n) || folder_named(s, r, n)
    &&& forall|k: int|
        0 <= k < d.children@.len() ==> (#[trigger] d.children@[k] matches Node::Folder(c)
            ==> built_from(s, c))
}

/// Every folder of the subtree of `d`: `d` first, then those below each of its
/// first `i` children in turn.
pub open spec fn all_upto(d: Folder, i: int) -> Seq<Folder>
    decreases d, i,
{
    if i <= 0 || i > d.children@.len() {
        seq![d]
    } else {
        let here = match d.children@[i - 1] {
            Node::File(_) => Seq::empty(),
            Node::Folder(c) => all_upto(c, c.children@.len() as int),
        };
        all_upto(d, i - 1) + here
    }
}

pub open spec fn all_folders(d: Folder) -> Seq<Folder> {
    all_upto(d, d.children@.len() as int)
}

/// No two folders of the subtree share an identifier.
pub open spec fn ids_distinct(d: Folder) -> bool {
    forall|i: int, j: int|
        0 <= i < all_folders(d).len() && 0 <= j < all_folders(d).len() && i != j
            ==> all_folders(d)[i].id@ != all_folders(d)[j].id@
}

impl Folder {
    /// Appends the records of this folder and of every folder below it.
    pub fn write_all(&self, writes: &mut Vec<(String, FolderRecord)>)
        ensures
            forall|j: int| 0 <= j < old(writes)@.len() ==> #[trigger] final(writes)@[j] == old(writes)@[j],
            writes_hold(final(writes)@, old(writes)@.len() as int, all_folders(*self)),
        decreases *self,
    {
        let ghost start = old(writes)@.len() as int;
        let ghost w0 = old(writes)@;
        let rec = self.to_db_folder();
        writes.push((copy_string(&self.id), rec));
        assert(writes_hold(writes@, start, all_upto(*self, 0)));
        let mut i: usize = 0;
        while i < self.children.len()
            invariant
                i <= self.children@.len(),
                writes@.len() >= start,
                w0.len() == start,
                forall|j: int| 0 <= j < start ==> #[trigger] writes@[j] == w0[j],
                writes_hold(writes@, start, all_upto(*self, i as int)),
            decreases self.children@.len() - i,
        {
            match &self.children[i] {
                Node::File(_) => {
                    assert(all_upto(*self, i + 1) =~= all_upto(*self, i as int));
                },
                Node::Folder(c) => {
                    proof {
                        assert(decreases_to!(*self => self.children));
                        assert(decreases_to!(self.children => self.children@[i as int]));
                    }
                    let ghost before = writes@;
                    let ghost prev = all_upto(*self, i as int);
                    c.write_all(writes);
                    assert(before.len() == start + prev.len());
                    assert(forall|k: int| 0 <= k < before.len() ==> #[trigger] writes@[k] == before[k]);
                    let ghost ds = all_upto(*self, i + 1);
                    assert(ds =~= prev + all_folders(*c));
                    assert forall|j: int| 0 <= j < ds.len() implies (#[trigger] writes@[start + j]).0@
                        == ds[j].id@ && record_of(ds[j], writes@[start + j].1) by {
                        if j < prev.len() {
                            assert(0 <= start + j < before.len());
                            assert(writes@[start + j] == before[start + j]);
                        } else {
                            let m = j - prev.len();
                            assert(writes@[before.len() + m] == writes@[start + j]);
                        }
                    }
                },
            }
            i = i + 1;
        }
    }
}

/// No two entries of a record share a name: its files have distinct names, the
/// records of its child folders carry distinct names, and no file takes the
/// name of a child folder.
pub open spec fn clash_free(s: Seq<(String, FolderRecord)>, r: FolderRecord) -> bool {
    &&& forall|a: int, b: int|
        0 <= a < b < r.files@.len() ==> (#[trigger] r.files@[a]).name@ != (#[trigger] r.files@[b]).name@
    &&& forall|a: int, b: int|
        0 <= a < b < r.folder_ids@.len() ==> rec_name(s, (#[trigger] r.folder_ids@[a])@) != rec_name(
            s,
            (#[trigger] r.folder_ids@[b])@,
        )
    &&& forall|a: int, b: int|
        0 <= a < r.files@.len() && 0 <= b < r.folder_ids@.len() ==> (#[trigger] r.files@[a]).name@
            != rec_name(s, (#[trigger] r.folder_ids@[b])@)
}

/// No record of the store has clashing names.
pub open spec fn store_clash_free(s: Seq<(String, FolderRecord)>) -> bool {
    forall|i: int| 0 <= i < s.len() ==> clash_free(s, #[trigger] s[i].1)
}

/// What loading the folder stored under `id`, with at most `fuel` levels of
/// folders, comes to: `None` when it succeeds, else the kind of its failure.
/// A missing record is `NotFound`; nesting deeper than `fuel` is an
/// `InternalError`; otherwise the first child folder that fails decides.
pub open spec fn tree_outcome(s: Seq<(String, FolderRecord)>, id: Seq<char>, fuel: nat) -> Option<
    GodataErrorType,
>
    decreases fuel, 0nat, 0nat,
{
    if rec_at(s, id) < 0 {
        Some(GodataErrorType::NotFound)
    } else if fuel == 0 {
        Some(GodataErrorType::InternalError)
    } else {
        children_outcome(s, s[rec_at(s, id)].1.folder_ids@, 0, (fuel - 1) as nat)
    }
}

/// The outcome of loading the child folders `fids[j..]`, each with `fuel`.
pub open spec fn children_outcome(
    s: Seq<(String, FolderRecord)>,
    fids: Seq<String>,
    j: int,
    fuel: nat,
) -> Option<GodataErrorType>
    decreases fuel, 1nat, fids.len() - j,
{
    if j < 0 || j >= fids.len() {
        None
    } else {
        match tree_outcome(s, fids[j]@, fuel) {
            Some(e) => Some(e),
            None => children_outcome(s, fids, j + 1, fuel),
        }
    }
}

} // verus!
