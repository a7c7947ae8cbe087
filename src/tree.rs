use vstd::prelude::*;
use crate::error::{fails_with, GodataError, GodataErrorType};
use crate::path::{split_path, split_spec, views, lemma_split_nonempty};
use crate::ids::new_id;
use crate::records::all_folders;
use crate::sync::{
    all_dirty, fresh_node, kept, lemma_kept_dirty, lemma_kept_dirty_parent, lemma_kept_refl,
    lemma_kept_update,
};
use crate::laws::{lemma_all_child, lemma_in_upto};

verus! {

/// A key/value annotation, carried with a node and never interpreted here.
pub type Metadata = Vec<(String, String)>;

/// Metadata is a map: no key occurs twice.
pub open spec fn keys_unique(m: Seq<(String, String)>) -> bool {
    forall|i: int, j: int| 0 <= i < m.len() && 0 <= j < m.len() && i != j ==> m[i].0@ != m[j].0@
}

/// A file of the virtual tree: its name in its folder and the place of its data,
/// relative to the storage root.
pub struct File {
    pub real_path: String,
    pub name: String,
    pub metadata: Metadata,
    pub id: String,
}

/// A folder of the virtual tree. `dirty` is set while its own record differs
/// from the one last written to the store.
pub struct Folder {
    pub name: String,
    pub children: Vec<Node>,
    pub metadata: Metadata,
    pub id: String,
    pub dirty: bool,
}

pub enum Node {
    File(File),
    Folder(Folder),
}

pub open spec fn node_name(n: Node) -> Seq<char> {
    match n {
        Node::File(f) => f.name@,
        Node::Folder(d) => d.name@,
    }
}

/// Children names are pairwise distinct.
pub open spec fn names_unique(c: Seq<Node>) -> bool {
    forall|i: int, j: int|
        0 <= i < c.len() && 0 <= j < c.len() && i != j ==> node_name(c[i]) != node_name(c[j])
}

/// Every folder of the subtree has children with distinct names.
pub open spec fn wf(d: Folder) -> bool
    decreases d,
{
    &&& names_unique(d.children@)
    &&& forall|i: int|
        0 <= i < d.children@.len() ==> (#[trigger] d.children@[i] matches Node::Folder(c) ==> wf(c))
}


/// Index of the last child named `name`, or -1.
pub open spec fn find_index(c: Seq<Node>, name: Seq<char>) -> int
    decreases c.len(),
{
    if c.len() == 0 {
        -1
    } else if node_name(c.last()) == name {
        c.len() - 1
    } else {
        find_index(c.drop_last(), name)
    }
}

pub proof fn lemma_find(c: Seq<Node>, name: Seq<char>)
    ensures
        -1 <= find_index(c, name) < c.len(),
        find_index(c, name) >= 0 ==> node_name(c[find_index(c, name)]) == name,
        find_index(c, name) < 0 ==> forall|j: int| 0 <= j < c.len() ==> node_name(#[trigger] c[j]) != name,
        names_unique(c) ==> forall|j: int|
            0 <= j < c.len() && node_name(#[trigger] c[j]) == name ==> find_index(c, name) == j,
    decreases c.len(),
{
    if c.len() > 0 {
        lemma_find(c.drop_last(), name);
        assert forall|j: int| 0 <= j < c.len() - 1 implies c.drop_last()[j] == c[j] by {}
    }
}

/// What following a path of names down from a folder comes to.
pub enum Walk {
    Found(Node),
    Missing,
    ThroughFile,
}

pub open spec fn walk(d: Folder, segs: Seq<Seq<char>>) -> Walk
    decreases segs.len(),
{
    if segs.len() == 0 {
        Walk::Found(Node::Folder(d))
    } else {
        let i = find_index(d.children@, segs[0]);
        if i < 0 {
            Walk::Missing
        } else if segs.len() == 1 {
            Walk::Found(d.children@[i])
        } else {
            match d.children@[i] {
                Node::File(_) => Walk::ThroughFile,
                Node::Folder(c) => walk(c, segs.drop_first()),
            }
        }
    }
}

/// The node at a path below `d`, if there is one.
pub open spec fn lookup(d: Folder, segs: Seq<Seq<char>>) -> Option<Node> {
    match walk(d, segs) {
        Walk::Found(n) => Some(n),
        _ => None,
    }
}

/// The file at a path below `d`, if a file stands there.
pub open spec fn file_at(d: Folder, segs: Seq<Seq<char>>) -> Option<File> {
    match walk(d, segs) {
        Walk::Found(Node::File(f)) => Some(f),
        _ => None,
    }
}

/// A path below a node: the node itself for the empty path.
pub open spec fn walk_node(n: Node, segs: Seq<Seq<char>>) -> Walk {
    match n {
        Node::Folder(d) => walk(d, segs),
        Node::File(f) => if segs.len() == 0 {
            Walk::Found(n)
        } else {
            Walk::ThroughFile
        },
    }
}

impl Node {
    pub fn get_name(&self) -> (r: &String)
        ensures
            r@ == node_name(*self),
    {
        match self {
            Node::File(f) => &f.name,
            Node::Folder(d) => &d.name,
        }
    }

    pub fn is_folder(&self) -> (r: bool)
        ensures
            r == (*self is Folder),
    {
        match self {
            Node::File(_) => false,
            Node::Folder(_) => true,
        }
    }
}

/// Finds the child of that name.
pub fn find_child(c: &Vec<Node>, name: &String) -> (r: Option<usize>)
    ensures
        match r {
            Some(i) => i == find_index(c@, name@) && i < c.len(),
            None => find_index(c@, name@) < 0,
        },
{
    let mut i: usize = c.len();
    assert(c@.subrange(0, i as int) =~= c@);
    while i > 0
        invariant
            i <= c.len(),
            find_index(c@, name@) == find_index(c@.subrange(0, i as int), name@),
        decreases i,
    {
        let j = i - 1;
        proof {
            assert(c@.subrange(0, i as int).drop_last() =~= c@.subrange(0, j as int));
            assert(c@.subrange(0, i as int).last() == c@[j as int]);
        }
        let same: bool = *c[j].get_name() == *name;
        if same {
            return Some(j);
        }
        i = j;
    }
    None
}

/// A message that names the path segment it is about.
pub fn message(text: &str, name: &String) -> (r: String)
    ensures
        r@ == text@ + name@,
{
    let mut m = String::from_str(text);
    m.append(name.as_str());
    m
}

impl Folder {
    /// The node at `segs[k..]` below this folder.
    pub fn lookup(&self, segs: &Vec<String>, k: usize) -> (r: Result<&Node, GodataError>)
        requires
            k < segs.len(),
        ensures
            match walk(*self, views(segs@).skip(k as int)) {
                Walk::Found(n) => r is Ok && *r->Ok_0 == n,
                _ => fails_with(r, GodataErrorType::NotFound),
            },
        decreases segs.len() - k,
    {
        let ghost p = views(segs@).skip(k as int);
        assert(p[0] == segs@[k as int]@);
        match find_child(&self.children, &segs[k]) {
            None => Err(GodataError::new(
                GodataErrorType::NotFound,
                message("no entry named ", &segs[k]),
            )),
            Some(i) => {
                if k + 1 == segs.len() {
                    Ok(&self.children[i])
                } else {
                    match &self.children[i] {
                        Node::File(_) => Err(GodataError::new(
                            GodataErrorType::NotFound,
                            message("cannot descend through the file ", &segs[k]),
                        )),
                        Node::Folder(c) => {
                            assert(p.drop_first() =~= views(segs@).skip(k + 1));
                            c.lookup(segs, k + 1)
                        },
                    }
                }
            },
        }
    }

    /// Whether anything stands at `segs[k..]` below this folder.
    pub fn path_exists(&self, segs: &Vec<String>, k: usize) -> (r: bool)
        requires
            k <= segs.len(),
        ensures
            r == (walk(*self, views(segs@).skip(k as int)) is Found),
        decreases segs.len() - k,
    {
        if k == segs.len() {
            return true;
        }
        let ghost p = views(segs@).skip(k as int);
        assert(p[0] == segs@[k as int]@);
        match find_child(&self.children, &segs[k]) {
            None => false,
            Some(i) => {
                match &self.children[i] {
                    Node::File(_) => k + 1 == segs.len(),
                    Node::Folder(c) => {
                        assert(p.drop_first() =~= views(segs@).skip(k + 1));
                        c.path_exists(segs, k + 1)
                    },
                }
            },
        }
    }
}

/// The files of the first `i` children of `d` and of their subtrees, last child first.
pub open spec fn drain_upto(d: Folder, i: int) -> Seq<File>
    decreases d, i,
{
    if i <= 0 || i > d.children@.len() {
        Seq::empty()
    } else {
        let here = match d.children@[i - 1] {
            Node::File(f) => seq![f],
            Node::Folder(c) => drain_upto(c, c.children@.len() as int),
        };
        here + drain_upto(d, i - 1)
    }
}

/// Every file of the subtree of `d`, its folder structure dropped.
pub open spec fn drain_spec(d: Folder) -> Seq<File> {
    drain_upto(d, d.children@.len() as int)
}

/// The file records that a node stands for: itself, or all files below it.
pub open spec fn displaced(n: Node) -> Seq<File> {
    match n {
        Node::File(f) => seq![f],
        Node::Folder(d) => drain_spec(d),
    }
}

/// Consumes a folder and returns every file of its subtree.
pub fn drain(d: Folder) -> (r: Vec<File>)
    ensures
        r@ == drain_spec(d),
    decreases d,
{
    let ghost dd = d;
    let mut children = d.children;
    let ghost orig = children@;
    let mut out: Vec<File> = Vec::new();
    assert(orig.subrange(0, orig.len() as int) =~= orig);
    while children.len() > 0
        invariant
            orig == dd.children@,
            dd == d,
            children@.len() <= orig.len(),
            children@ == orig.subrange(0, children@.len() as int),
            drain_spec(dd) == out@ + drain_upto(dd, children@.len() as int),
        decreases children.len(),
    {
        let ghost n = children@.len() as int;
        let child = children.pop().unwrap();
        assert(child == orig[n - 1]);
        assert(children@ =~= orig.subrange(0, n - 1));
        match child {
            Node::File(f) => {
                let ghost rest = drain_upto(dd, n - 1);
                let ghost prev = out@;
                assert(drain_upto(dd, n) == seq![f] + rest);
                out.push(f);
                assert(prev + (seq![f] + rest) =~= out@ + rest);
            },
            Node::Folder(c) => {
                proof {
                    assert(decreases_to!(dd => dd.children));
                    assert(decreases_to!(dd.children => dd.children@[n - 1]));
                    assert(decreases_to!(dd.children@[n - 1] => c));
                    assert(decreases_to!(dd => c));
                }
                let ghost prev = out@;
                let mut sub = drain(c);
                out.append(&mut sub);
                assert(prev + (drain_upto(c, c.children@.len() as int) + drain_upto(dd, n - 1)) =~= out@
                    + drain_upto(dd, n - 1));
            },
        }
    }
    out
}

/// A node whose own subtree is well formed.
pub open spec fn node_wf(n: Node) -> bool {
    match n {
        Node::Folder(d) => wf(d),
        Node::File(_) => true,
    }
}

/// Why inserting a node named `nm` into the folder at `p` is refused, if it is.
pub open spec fn insert_refusal(d: Folder, p: Seq<Seq<char>>, nm: Seq<char>, overwrite: bool) -> Option<
    GodataErrorType,
> {
    match walk(d, p) {
        Walk::ThroughFile => Some(GodataErrorType::InvalidPath),
        Walk::Found(Node::File(_)) => Some(GodataErrorType::InvalidPath),
        _ => if !overwrite && lookup(d, p.push(nm)) is Some {
            Some(GodataErrorType::AlreadyExists)
        } else {
            None
        },
    }
}

pub proof fn lemma_push_child(c: Seq<Node>, n: Node)
    requires
        names_unique(c),
        find_index(c, node_name(n)) < 0,
    ensures
        names_unique(c.push(n)),
        forall|name: Seq<char>|
            #[trigger] find_index(c.push(n), name) == if name == node_name(n) {
                c.len() as int
            } else {
                find_index(c, name)
            },
{
    lemma_find(c, node_name(n));
    assert(c.push(n).drop_last() =~= c);
    assert forall|i: int, j: int|
        0 <= i < c.push(n).len() && 0 <= j < c.push(n).len() && i != j implies node_name(
        c.push(n)[i],
    ) != node_name(c.push(n)[j]) by {
        if i < c.len() && j < c.len() {
            assert(c.push(n)[i] == c[i]);
            assert(c.push(n)[j] == c[j]);
        } else if i < c.len() {
            assert(c.push(n)[i] == c[i]);
        } else {
            assert(c.push(n)[j] == c[j]);
        }
    }
}

pub proof fn lemma_update_child(c: Seq<Node>, i: int, n: Node)
    requires
        names_unique(c),
        0 <= i < c.len(),
        node_name(n) == node_name(c[i]),
    ensures
        names_unique(c.update(i, n)),
        forall|name: Seq<char>| #[trigger] find_index(c.update(i, n), name) == find_index(c, name),
{
    let u = c.update(i, n);
    assert forall|a: int, b: int|
        0 <= a < u.len() && 0 <= b < u.len() && a != b implies node_name(u[a]) != node_name(
        u[b],
    ) by {
        assert(node_name(u[a]) == node_name(c[a]));
        assert(node_name(u[b]) == node_name(c[b]));
    }
    assert forall|name: Seq<char>| #[trigger] find_index(u, name) == find_index(c, name) by {
        lemma_find(c, name);
        lemma_find(u, name);
        if find_index(c, name) >= 0 {
            assert(node_name(u[find_index(c, name)]) == name);
        }
        if find_index(u, name) >= 0 {
            assert(node_name(c[find_index(u, name)]) == name);
        }
    }
}

pub proof fn lemma_prefix_step(full: Seq<Seq<char>>, q: Seq<Seq<char>>)
    requires
        full.len() >= 1,
        q.len() >= 1,
        full[0] == q[0],
    ensures
        full.is_prefix_of(q) == full.drop_first().is_prefix_of(q.drop_first()),
{
    if full.is_prefix_of(q) {
        assert(q.drop_first().subrange(0, full.len() - 1) =~= full.drop_first());
    }
    if full.drop_first().is_prefix_of(q.drop_first()) {
        assert forall|m: int| 0 <= m < full.len() implies q.subrange(0, full.len() as int)[m]
            == full[m] by {
            if m > 0 {
                assert(q.drop_first().subrange(0, full.len() - 1)[m - 1] == full.drop_first()[m
                    - 1]);
            }
        }
        assert(q.subrange(0, full.len() as int) =~= full);
    }
}

impl Folder {
    /// A new, empty folder with a fresh identifier.
    pub fn new(name: String) -> (r: Folder)
        ensures
            r.name@ == name@,
            r.children@.len() == 0,
            r.metadata@.len() == 0,
            r.dirty,
            wf(r),
            all_dirty(r),
    {
        let r = Folder { name, children: Vec::new(), metadata: Vec::new(), id: new_id(), dirty: true };
        proof {
            assert forall|x: Folder| #[trigger] all_folders(r).contains(x) implies x.dirty by {
                lemma_in_upto(r, 0, x);
            }
        }
        r
    }

    /// Why inserting a node named `name` into the folder at `segs[k..]` would be
    /// refused, if it would.
    pub fn insert_check(&self, name: &String, segs: &Vec<String>, k: usize, overwrite: bool) -> (r:
        Option<GodataErrorType>)
        requires
            k <= segs.len(),
        ensures
            r == insert_refusal(*self, views(segs@).skip(k as int), name@, overwrite),
        decreases segs.len() - k,
    {
        let ghost p = views(segs@).skip(k as int);
        let ghost full = p.push(name@);
        if k == segs.len() {
            assert(p =~= Seq::<Seq<char>>::empty());
            assert(full.drop_first() =~= Seq::<Seq<char>>::empty());
            if !overwrite && find_child(&self.children, name).is_some() {
                return Some(GodataErrorType::AlreadyExists);
            }
            return None;
        }
        assert(p[0] == segs@[k as int]@);
        assert(p.drop_first() =~= views(segs@).skip(k + 1));
        assert(full.drop_first() =~= p.drop_first().push(name@));
        match find_child(&self.children, &segs[k]) {
            None => None,
            Some(i) => match &self.children[i] {
                Node::File(_) => Some(GodataErrorType::InvalidPath),
                Node::Folder(c) => {
                    assert(walk(*self, p) == walk(*c, p.drop_first()));
                    c.insert_check(name, segs, k + 1, overwrite)
                },
            },
        }
    }

    /// Inserts `node` into the folder at `segs[k..]`, creating missing folders on
    /// the way, and hands back the files that it displaced.
    pub fn insert_node(&mut self, node: Node, segs: &Vec<String>, k: usize, overwrite: bool) -> (r:
        Option<Vec<File>>)
        requires
            wf(*old(self)),
            node_wf(node),
            k <= segs.len(),
            insert_refusal(*old(self), views(segs@).skip(k as int), node_name(node), overwrite)
                is None,
            fresh_node(node),
        ensures
            final(self).name == old(self).name,
            final(self).id == old(self).id,
            final(self).metadata == old(self).metadata,
            wf(*final(self)),
            kept(*old(self), *final(self)),
            old(self).children@.len() == 0 ==> final(self).children@.len() == 1,
            old(self).dirty ==> final(self).dirty,
            ({
                let p = views(segs@).skip(k as int);
                &&& walk(*final(self), p) matches Walk::Found(Node::Folder(g)) && g.dirty
                &&& forall|j: int|
                    1 <= j <= p.len() && !(walk(*old(self), p.subrange(0, j)) is Found) ==> (walk(
                        *final(self),
                        #[trigger] p.subrange(0, j),
                    ) matches Walk::Found(Node::Folder(g)) && g.dirty)
            }),
            ({
                let full = views(segs@).skip(k as int).push(node_name(node));
                &&& find_index(old(self).children@, full[0]) < 0 ==> single_chain(*final(self), full)
                &&& walk(*final(self), full) == Walk::Found(node)
                &&& forall|q: Seq<Seq<char>>|
                    !full.is_prefix_of(q) ==> #[trigger] file_at(*final(self), q) == file_at(
                        *old(self),
                        q,
                    )
                &&& forall|q: Seq<Seq<char>>|
                    !full.is_prefix_of(q) && !q.is_prefix_of(full) ==> #[trigger] walk(
                        *final(self),
                        q,
                    ) == walk(*old(self), q)
                &&& match lookup(*old(self), full) {
                    Some(prev) => r matches Some(v) && v@ == displaced(prev),
                    None => r is None,
                }
            }),
        decreases segs.len() - k,
    {
        let ghost old_self = *self;
        let ghost p = views(segs@).skip(k as int);
        let ghost nm = node_name(node);
        let ghost full = p.push(nm);
        if k == segs.len() {
            assert(p =~= Seq::<Seq<char>>::empty());
            assert(full[0] == nm);
            assert(full.drop_first() =~= Seq::<Seq<char>>::empty());
            let name = node.get_name().clone();
            match find_child(&self.children, &name) {
                Some(i) => {
                    proof {
                        lemma_find(old_self.children@, nm);
                        lemma_update_child(old_self.children@, i as int, node);
                    }
                    let ghost newc = old_self.children@.update(i as int, node);
                    self.children.push(node);
                    let prev = self.children.swap_remove(i);
                    self.dirty = true;
                    assert(self.children@ =~= newc);
                    assert(prev == old_self.children@[i as int]);
                    let out = match prev {
                        Node::File(f) => vec![f],
                        Node::Folder(d) => drain(d),
                    };
                    proof {
                        assert forall|j: int|
                            0 <= j < self.children@.len() && (#[trigger] self.children@[j]) is Folder implies fresh_node(
                            self.children@[j],
                        ) || exists|m: int|
                            0 <= m < old_self.children@.len() && old_self.children@[m]
                                == self.children@[j] by {
                            if j != i {
                                assert(old_self.children@[j] == self.children@[j]);
                            }
                        }
                        lemma_kept_dirty_parent(old_self, *self);
                        assert forall|q: Seq<Seq<char>>|
                            !full.is_prefix_of(q) implies #[trigger] file_at(*self, q) == file_at(
                            old_self,
                            q,
                        ) by {
                            if q.len() > 0 {
                                lemma_find(old_self.children@, q[0]);
                                if q[0] == nm {
                                    assert(q.subrange(0, 1) =~= full);
                                } else {
                                    let j = find_index(old_self.children@, q[0]);
                                    if j >= 0 {
                                        assert(self.children@[j] == old_self.children@[j]);
                                    }
                                }
                            }
                        }
                        assert forall|q: Seq<Seq<char>>|
                            !full.is_prefix_of(q) && !q.is_prefix_of(full) implies #[trigger] walk(*self, q) == walk(
                            old_self,
                            q,
                        ) by {
                            if q.len() > 0 {
                                lemma_find(old_self.children@, q[0]);
                                if q[0] == nm {
                                    assert(q.subrange(0, 1) =~= full);
                                } else {
                                    let j = find_index(old_self.children@, q[0]);
                                    if j >= 0 {
                                        assert(self.children@[j] == old_self.children@[j]);
                                    }
                                }
                            }
                        }
                    }
                    Some(out)
                },
                None => {
                    proof {
                        lemma_push_child(old_self.children@, node);
                    }
                    self.children.push(node);
                    self.dirty = true;
                    proof {
                        assert forall|j: int|
                            0 <= j < self.children@.len() && (#[trigger] self.children@[j]) is Folder implies fresh_node(
                            self.children@[j],
                        ) || exists|m: int|
                            0 <= m < old_self.children@.len() && old_self.children@[m]
                                == self.children@[j] by {
                            if j < old_self.children@.len() {
                                assert(old_self.children@[j] == self.children@[j]);
                            }
                        }
                        lemma_kept_dirty_parent(old_self, *self);
                        assert forall|q: Seq<Seq<char>>|
                            !full.is_prefix_of(q) implies #[trigger] file_at(*self, q) == file_at(
                            old_self,
                            q,
                        ) by {
                            if q.len() > 0 {
                                if q[0] == nm {
                                    assert(q.subrange(0, 1) =~= full);
                                } else {
                                    lemma_find(old_self.children@, q[0]);
                                    let j = find_index(old_self.children@, q[0]);
                                    if j >= 0 {
                                        assert(self.children@[j] == old_self.children@[j]);
                                    }
                                }
                            }
                        }
                        assert forall|q: Seq<Seq<char>>|
                            !full.is_prefix_of(q) && !q.is_prefix_of(full) implies #[trigger] walk(*self, q) == walk(
                            old_self,
                            q,
                        ) by {
                            if q.len() > 0 {
                                if q[0] == nm {
                                    assert(q.subrange(0, 1) =~= full);
                                } else {
                                    lemma_find(old_self.children@, q[0]);
                                    let j = find_index(old_self.children@, q[0]);
                                    if j >= 0 {
                                        assert(self.children@[j] == old_self.children@[j]);
                                    }
                                }
                            }
                        }
                    }
                    None
                },
            }
        } else {
            assert(p[0] == segs@[k as int]@);
            assert(full[0] == p[0]);
            assert(p.drop_first() =~= views(segs@).skip(k + 1));
            assert(full.drop_first() =~= p.drop_first().push(nm));
            match find_child(&self.children, &segs[k]) {
                None => {
                    let mut f = Folder::new(segs[k].clone());
                    let ghost f0 = f;
                    let r = f.insert_node(node, segs, k + 1, overwrite);
                    proof {
                        lemma_find(old_self.children@, p[0]);
                        lemma_push_child(old_self.children@, Node::Folder(f));
                        lemma_kept_dirty(f0, f);
                    }
                    self.children.push(Node::Folder(f));
                    self.dirty = true;
                    proof {
                        assert(find_index(self.children@, p[0]) == old_self.children@.len());
                        assert(first_folder(*self, full) == f);
                        if full.drop_first().len() >= 1 {
                            assert(find_index(f0.children@, full.drop_first()[0]) < 0);
                        }
                        assert(walk(*self, p) == walk(f, p.drop_first()));
                        assert forall|j: int|
                            1 <= j <= p.len() && !(walk(old_self, p.subrange(0, j)) is Found) implies (walk(
                            *self,
                            #[trigger] p.subrange(0, j),
                        ) matches Walk::Found(Node::Folder(g)) && g.dirty) by {
                            let pj = p.subrange(0, j);
                            assert(pj[0] == p[0]);
                            if j >= 2 {
                                let rest = p.drop_first().subrange(0, j - 1);
                                assert(pj.drop_first() =~= rest);
                                assert(walk(f0, rest) is Missing);
                                assert(walk(*self, pj) == walk(f, rest));
                            }
                        }
                    }
                    proof {
                        assert forall|j: int|
                            0 <= j < self.children@.len() && (#[trigger] self.children@[j]) is Folder implies fresh_node(
                            self.children@[j],
                        ) || exists|m: int|
                            0 <= m < old_self.children@.len() && old_self.children@[m]
                                == self.children@[j] by {
                            if j < old_self.children@.len() {
                                assert(old_self.children@[j] == self.children@[j]);
                            }
                        }
                        lemma_kept_dirty_parent(old_self, *self);
                        assert forall|q: Seq<Seq<char>>|
                            !full.is_prefix_of(q) implies #[trigger] file_at(*self, q) == file_at(
                            old_self,
                            q,
                        ) by {
                            if q.len() > 0 {
                                if q[0] == p[0] {
                                    lemma_prefix_step(full, q);
                                    assert(file_at(f, q.drop_first()) == file_at(f0, q.drop_first()));
                                } else {
                                    lemma_find(old_self.children@, q[0]);
                                    let j = find_index(old_self.children@, q[0]);
                                    if j >= 0 {
                                        assert(self.children@[j] == old_self.children@[j]);
                                    }
                                }
                            }
                        }
                        assert forall|q: Seq<Seq<char>>|
                            !full.is_prefix_of(q) && !q.is_prefix_of(full) implies #[trigger] walk(*self, q) == walk(
                            old_self,
                            q,
                        ) by {
                            if q.len() > 0 {
                                if q[0] == p[0] {
                                    lemma_prefix_step(full, q);
lemma_prefix_step(q, full);
                                    assert(walk(f, q.drop_first()) == walk(f0, q.drop_first()));
                                } else {
                                    lemma_find(old_self.children@, q[0]);
                                    let j = find_index(old_self.children@, q[0]);
                                    if j >= 0 {
                                        assert(self.children@[j] == old_self.children@[j]);
                                    }
                                }
                            }
                        }
                    }
                    r
                },
                Some(i) => {
                    let ghost c0 = old_self.children@[i as int]->Folder_0;
                    proof {
                        lemma_find(old_self.children@, p[0]);
                        assert(wf(c0));
                        assert(walk(old_self, p) == walk(c0, p.drop_first()));
                        assert(walk(old_self, full) == walk(c0, full.drop_first()));
                    }
                    let r = match &mut self.children[i] {
                        Node::Folder(c) => c.insert_node(node, segs, k + 1, overwrite),
                        Node::File(_) => None,
                    };
                    proof {
                        let c1 = self.children@[i as int]->Folder_0;
                        lemma_update_child(old_self.children@, i as int, Node::Folder(c1));
                        assert(self.children@ =~= old_self.children@.update(i as int, Node::Folder(c1)));
                        lemma_kept_update(old_self, *self, i as int, c0, c1);
                        assert(find_index(self.children@, p[0]) == i);
                        assert(walk(*self, full) == walk(c1, full.drop_first()));
                        assert(walk(*self, p) == walk(c1, p.drop_first()));
                        assert forall|j: int|
                            1 <= j <= p.len() && !(walk(old_self, p.subrange(0, j)) is Found) implies (walk(
                            *self,
                            #[trigger] p.subrange(0, j),
                        ) matches Walk::Found(Node::Folder(g)) && g.dirty) by {
                            let pj = p.subrange(0, j);
                            assert(pj[0] == p[0]);
                            if j >= 2 {
                                let rest = p.drop_first().subrange(0, j - 1);
                                assert(pj.drop_first() =~= rest);
                                assert(walk(old_self, pj) == walk(c0, rest));
                                assert(walk(*self, pj) == walk(c1, rest));
                            }
                        }
                        assert forall|q: Seq<Seq<char>>|
                            !full.is_prefix_of(q) implies #[trigger] file_at(*self, q) == file_at(
                            old_self,
                            q,
                        ) by {
                            if q.len() > 0 {
                                if q[0] == p[0] {
                                    lemma_prefix_step(full, q);
                                    if q.len() > 1 {
                                        assert(file_at(c1, q.drop_first()) == file_at(
                                            c0,
                                            q.drop_first(),
                                        ));
                                    }
                                } else {
                                    lemma_find(old_self.children@, q[0]);
                                    let j = find_index(old_self.children@, q[0]);
                                    if j >= 0 {
                                        assert(self.children@[j] == old_self.children@[j]);
                                    }
                                }
                            }
                        }
                        assert forall|q: Seq<Seq<char>>|
                            !full.is_prefix_of(q) && !q.is_prefix_of(full) implies #[trigger] walk(*self, q) == walk(
                            old_self,
                            q,
                        ) by {
                            if q.len() > 0 {
                                if q[0] == p[0] {
                                    lemma_prefix_step(full, q);
lemma_prefix_step(q, full);
                                    if q.len() > 1 {
                                        assert(walk(c1, q.drop_first()) == walk(
                                            c0,
                                            q.drop_first(),
                                        ));
                                    }
                                } else {
                                    lemma_find(old_self.children@, q[0]);
                                    let j = find_index(old_self.children@, q[0]);
                                    if j >= 0 {
                                        assert(self.children@[j] == old_self.children@[j]);
                                    }
                                }
                            }
                        }
                    }
                    r
                },
            }
        }
    }
}

/// The child folder that a path of two or more names goes through first.
pub open spec fn first_folder(d: Folder, segs: Seq<Seq<char>>) -> Folder {
    d.children@[find_index(d.children@, segs[0])]->Folder_0
}

/// Every folder below `d` along `s`, down to the parent of its last name, has
/// exactly one child.
pub open spec fn single_chain(d: Folder, s: Seq<Seq<char>>) -> bool
    decreases s.len(),
{
    if s.len() <= 1 {
        true
    } else {
        first_folder(d, s).children@.len() == 1 && single_chain(first_folder(d, s), s.drop_first())
    }
}

/// No folder below `d` is empty.
pub open spec fn no_empty(d: Folder) -> bool
    decreases d,
{
    forall|i: int|
        0 <= i < d.children@.len() ==> (#[trigger] d.children@[i] matches Node::Folder(c) ==> c.children@.len()
            >= 1 && no_empty(c))
}

/// Removing the node at `segs` would leave `d` with no child at all.
pub open spec fn empties(d: Folder, segs: Seq<Seq<char>>) -> bool
    decreases segs.len(),
{
    if segs.len() <= 1 {
        d.children@.len() == 1
    } else {
        empties(first_folder(d, segs), segs.drop_first()) && d.children@.len() == 1
    }
}

/// How many names of `segs` lead to the node that is detached when the node at
/// `segs` is removed below `d`: folders that the removal would leave empty go too.
pub open spec fn cut_len(d: Folder, segs: Seq<Seq<char>>) -> int
    decreases segs.len(),
{
    if segs.len() <= 1 {
        1
    } else if empties(first_folder(d, segs), segs.drop_first()) {
        1
    } else {
        1 + cut_len(first_folder(d, segs), segs.drop_first())
    }
}

pub proof fn lemma_cut_len(d: Folder, segs: Seq<Seq<char>>)
    requires
        segs.len() >= 1,
    ensures
        1 <= cut_len(d, segs) <= segs.len(),
    decreases segs.len(),
{
    if segs.len() > 1 {
        lemma_cut_len(first_folder(d, segs), segs.drop_first());
    }
}

pub proof fn lemma_walk_found_step(d: Folder, segs: Seq<Seq<char>>)
    requires
        segs.len() >= 2,
        walk(d, segs) is Found,
    ensures
        find_index(d.children@, segs[0]) >= 0,
        d.children@[find_index(d.children@, segs[0])] is Folder,
        walk(d, segs) == walk(first_folder(d, segs), segs.drop_first()),
{
    lemma_find(d.children@, segs[0]);
}

impl Folder {
    /// Why removing the node at `segs[k..]` would be refused, if it would.
    pub fn remove_check(&self, segs: &Vec<String>, k: usize) -> (r: Option<GodataErrorType>)
        requires
            k < segs.len(),
        ensures
            r == match walk(*self, views(segs@).skip(k as int)) {
                Walk::Found(_) => None,
                Walk::Missing => Some(GodataErrorType::NotFound),
                Walk::ThroughFile => Some(GodataErrorType::InvalidPath),
            },
        decreases segs.len() - k,
    {
        let ghost p = views(segs@).skip(k as int);
        assert(p[0] == segs@[k as int]@);
        assert(p.drop_first() =~= views(segs@).skip(k + 1));
        match find_child(&self.children, &segs[k]) {
            None => Some(GodataErrorType::NotFound),
            Some(i) => {
                if k + 1 == segs.len() {
                    None
                } else {
                    match &self.children[i] {
                        Node::File(_) => Some(GodataErrorType::InvalidPath),
                        Node::Folder(c) => c.remove_check(segs, k + 1),
                    }
                }
            },
        }
    }

    /// Detaches the node at `segs[k..]`, together with every folder that would be
    /// left empty. `None` says that this folder itself would be left empty: then
    /// nothing is changed, and the caller detaches this folder instead.
    pub fn detach(&mut self, segs: &Vec<String>, k: usize) -> (r: Option<Node>)
        requires
            wf(*old(self)),
            k < segs.len(),
            walk(*old(self), views(segs@).skip(k as int)) is Found,
        ensures
            final(self).name == old(self).name,
            final(self).id == old(self).id,
            final(self).metadata == old(self).metadata,
            kept(*old(self), *final(self)),
            ({
                let p = views(segs@).skip(k as int);
                let cut = p.subrange(0, cut_len(*old(self), p));
                if empties(*old(self), p) {
                    r is None && *final(self) == *old(self)
                } else {
                    &&& wf(*final(self))
                    &&& r is Some
                    &&& r == lookup(*old(self), cut)
                    &&& walk(*final(self), cut.drop_last()) matches Walk::Found(Node::Folder(g))
                        && g.dirty
                    &&& final(self).children@.len() >= 1
                    &&& no_empty(*old(self)) ==> no_empty(*final(self))
                    &&& forall|q: Seq<Seq<char>>|
                        !cut.is_prefix_of(q) ==> #[trigger] file_at(*final(self), q) == file_at(
                            *old(self),
                            q,
                        )
                    &&& forall|q: Seq<Seq<char>>|
                        !cut.is_prefix_of(q) && !q.is_prefix_of(cut) ==> #[trigger] walk(
                            *final(self),
                            q,
                        ) == walk(*old(self), q)
                    &&& forall|q: Seq<Seq<char>>|
                        cut.is_prefix_of(q) ==> #[trigger] walk(*final(self), q) is Missing
                }
            }),
        decreases segs.len() - k,
    {
        let ghost old_self = *self;
        let ghost p = views(segs@).skip(k as int);
        assert(p[0] == segs@[k as int]@);
        assert(p.drop_first() =~= views(segs@).skip(k + 1));
        proof {
            lemma_find(old_self.children@, p[0]);
            lemma_cut_len(old_self, p);
        }
        let i = find_child(&self.children, &segs[k]).unwrap();
        proof {
            lemma_kept_refl(old_self);
        }
        if k + 1 == segs.len() {
            if self.children.len() == 1 {
                return None;
            }
            assert(p.subrange(0, 1) =~= p);
            return Some(self.remove_child(i, Ghost(p)));
        }
        let ghost c0 = old_self.children@[i as int]->Folder_0;
        proof {
            lemma_walk_found_step(old_self, p);
            assert(wf(c0));
        }
        let child_empties = match &self.children[i] {
            Node::Folder(c) => c.would_empty(segs, k + 1),
            Node::File(_) => false,
        };
        if child_empties {
            if self.children.len() == 1 {
                return None;
            }
            proof {
                assert(p.subrange(0, 1) =~= p.subrange(0, cut_len(old_self, p)));
            }
            return Some(self.remove_child(i, Ghost(p)));
        }
        let sub = match &mut self.children[i] {
            Node::Folder(c) => c.detach(segs, k + 1),
            Node::File(_) => None,
        };
        match sub {
            Some(n) => {
                let ghost c1 = self.children@[i as int]->Folder_0;
                let ghost cut = p.subrange(0, cut_len(old_self, p));
                proof {
                    lemma_kept_update(old_self, *self, i as int, c0, c1);
                    let tail_p = p.drop_first();
                    let tail_cut = tail_p.subrange(0, cut_len(c0, tail_p));
                    lemma_cut_len(c0, tail_p);
                    assert(cut.drop_first() =~= tail_cut);
                    assert(cut[0] == p[0]);
                    assert(cut.drop_last().drop_first() =~= tail_cut.drop_last());
                    assert(cut.drop_last()[0] == p[0]);
                    assert(self.children@.len() == old_self.children@.len());
                    if no_empty(old_self) {
                        assert(old_self.children@[i as int] matches Node::Folder(x) ==> no_empty(x));
                        assert forall|j: int| 0 <= j < self.children@.len() implies (
                        #[trigger] self.children@[j] matches Node::Folder(g) ==> g.children@.len() >= 1
                            && no_empty(g)) by {
                            if j != i {
                                assert(self.children@[j] == old_self.children@[j]);
                            }
                        }
                    }
                    lemma_update_child(old_self.children@, i as int, Node::Folder(c1));
                    assert(self.children@ =~= old_self.children@.update(i as int, Node::Folder(c1)));
                    assert(lookup(old_self, cut) == lookup(c0, tail_cut));
                    assert forall|q: Seq<Seq<char>>|
                        !cut.is_prefix_of(q) implies #[trigger] file_at(*self, q) == file_at(
                        old_self,
                        q,
                    ) by {
                        if q.len() > 0 {
                            if q[0] == p[0] {
                                lemma_prefix_step(cut, q);
                                if q.len() > 1 {
                                    assert(file_at(c1, q.drop_first()) == file_at(c0, q.drop_first()));
                                }
                            } else {
                                lemma_find(old_self.children@, q[0]);
                                let j = find_index(old_self.children@, q[0]);
                                if j >= 0 {
                                    assert(self.children@[j] == old_self.children@[j]);
                                }
                            }
                        }
                    }
                    assert forall|q: Seq<Seq<char>>|
                        !cut.is_prefix_of(q) && !q.is_prefix_of(cut) implies #[trigger] walk(*self, q) == walk(
                        old_self,
                        q,
                    ) by {
                        if q.len() > 0 {
                            if q[0] == p[0] {
                                lemma_prefix_step(cut, q);
lemma_prefix_step(q, cut);
                                if q.len() > 1 {
                                    assert(walk(c1, q.drop_first()) == walk(c0, q.drop_first()));
                                }
                            } else {
                                lemma_find(old_self.children@, q[0]);
                                let j = find_index(old_self.children@, q[0]);
                                if j >= 0 {
                                    assert(self.children@[j] == old_self.children@[j]);
                                }
                            }
                        }
                    }
                    assert forall|q: Seq<Seq<char>>|
                        cut.is_prefix_of(q) implies #[trigger] walk(*self, q) is Missing by {
                        assert(q[0] == cut[0]);
                        lemma_prefix_step(cut, q);
                        assert(walk(c1, q.drop_first()) is Missing);
                    }
                }
                Some(n)
            },
            None => None,
        }
    }

    /// Whether removing the node at `segs[k..]` would leave this folder empty.
    pub fn would_empty(&self, segs: &Vec<String>, k: usize) -> (r: bool)
        requires
            k < segs.len(),
            walk(*self, views(segs@).skip(k as int)) is Found,
        ensures
            r == empties(*self, views(segs@).skip(k as int)),
        decreases segs.len() - k,
    {
        let ghost p = views(segs@).skip(k as int);
        assert(p[0] == segs@[k as int]@);
        assert(p.drop_first() =~= views(segs@).skip(k + 1));
        if self.children.len() != 1 {
            return false;
        }
        if k + 1 == segs.len() {
            return true;
        }
        proof {
            lemma_walk_found_step(*self, p);
        }
        let i = find_child(&self.children, &segs[k]).unwrap();
        match &self.children[i] {
            Node::Folder(c) => c.would_empty(segs, k + 1),
            Node::File(_) => false,
        }
    }

    /// Takes out the child at `i`, the one that the path `p` goes through first.
    pub fn remove_child(&mut self, i: usize, Ghost(p): Ghost<Seq<Seq<char>>>) -> (r: Node)
        requires
            wf(*old(self)),
            p.len() >= 1,
            i == find_index(old(self).children@, p[0]),
            0 <= i < old(self).children@.len(),
        ensures
            final(self).name == old(self).name,
            final(self).id == old(self).id,
            final(self).metadata == old(self).metadata,
            wf(*final(self)),
            kept(*old(self), *final(self)),
            final(self).dirty,
            final(self).children@.len() == old(self).children@.len() - 1,
            no_empty(*old(self)) ==> no_empty(*final(self)),
            Some(r) == lookup(*old(self), p.subrange(0, 1)),
            forall|q: Seq<Seq<char>>|
                !p.subrange(0, 1).is_prefix_of(q) ==> #[trigger] file_at(*final(self), q)
                    == file_at(*old(self), q),
            forall|q: Seq<Seq<char>>|
                !p.subrange(0, 1).is_prefix_of(q) && !q.is_prefix_of(p.subrange(0, 1))
                    ==> #[trigger] walk(*final(self), q) == walk(*old(self), q),
            forall|q: Seq<Seq<char>>|
                p.subrange(0, 1).is_prefix_of(q) ==> #[trigger] walk(*final(self), q) is Missing,
    {
        let ghost old_self = *self;
        let ghost c = old_self.children@;
        let ghost one = p.subrange(0, 1);
        proof {
            lemma_find(c, p[0]);
        }
        let r = self.children.remove(i);
        self.dirty = true;
        proof {
            let c2 = self.children@;
            assert(c2 =~= c.remove(i as int));
            assert forall|a: int, b: int|
                0 <= a < c2.len() && 0 <= b < c2.len() && a != b implies node_name(c2[a])
                != node_name(c2[b]) by {
                let a1 = if a < i { a } else { a + 1 };
                let b1 = if b < i { b } else { b + 1 };
                assert(c2[a] == c[a1]);
                assert(c2[b] == c[b1]);
            }
            assert forall|j: int| 0 <= j < c2.len() implies (#[trigger] c2[j] matches Node::Folder(
                f,
            ) ==> wf(f)) by {
                let j1 = if j < i { j } else { j + 1 };
                assert(c2[j] == c[j1]);
            }
            assert forall|j: int|
                0 <= j < c2.len() && (#[trigger] c2[j]) is Folder implies fresh_node(c2[j]) || exists|
                m: int,
            | 0 <= m < c.len() && c[m] == c2[j] by {
                let j1 = if j < i { j } else { j + 1 };
                assert(c2[j] == c[j1]);
            }
            lemma_kept_dirty_parent(old_self, *self);
            if no_empty(old_self) {
                assert forall|j: int| 0 <= j < c2.len() implies (#[trigger] c2[j] matches Node::Folder(
                    f,
                ) ==> f.children@.len() >= 1 && no_empty(f)) by {
                    let j1 = if j < i { j } else { j + 1 };
                    assert(c2[j] == c[j1]);
                }
            }
            assert(one[0] == p[0]);
            assert forall|q: Seq<Seq<char>>|
                !one.is_prefix_of(q) implies #[trigger] file_at(*self, q) == file_at(old_self, q) by {
                if q.len() > 0 {
                    lemma_find(c, q[0]);
                    lemma_find(c2, q[0]);
                    if q[0] == p[0] {
                        assert(q.subrange(0, 1) =~= one);
                    } else {
                        let j = find_index(c, q[0]);
                        if j >= 0 {
                            let j2 = if j < i { j } else { j - 1 };
                            assert(c2[j2] == c[j]);
                            assert(find_index(c2, q[0]) == j2);
                        } else {
                            if find_index(c2, q[0]) >= 0 {
                                let j2 = find_index(c2, q[0]);
                                let j1 = if j2 < i { j2 } else { j2 + 1 };
                                assert(c2[j2] == c[j1]);
                            }
                        }
                    }
                }
            }
            assert forall|q: Seq<Seq<char>>|
                !one.is_prefix_of(q) && !q.is_prefix_of(one) implies #[trigger] walk(*self, q) == walk(old_self, q) by {
                if q.len() > 0 {
                    lemma_find(c, q[0]);
                    lemma_find(c2, q[0]);
                    if q[0] == p[0] {
                        assert(q.subrange(0, 1) =~= one);
                    } else {
                        let j = find_index(c, q[0]);
                        if j >= 0 {
                            let j2 = if j < i { j } else { j - 1 };
                            assert(c2[j2] == c[j]);
                            assert(find_index(c2, q[0]) == j2);
                        } else {
                            if find_index(c2, q[0]) >= 0 {
                                let j2 = find_index(c2, q[0]);
                                let j1 = if j2 < i { j2 } else { j2 + 1 };
                                assert(c2[j2] == c[j1]);
                            }
                        }
                    }
                }
            }
            assert forall|q: Seq<Seq<char>>|
                one.is_prefix_of(q) implies #[trigger] walk(*self, q) is Missing by {
                assert(q[0] == one[0]);
                lemma_find(c2, q[0]);
                if find_index(c2, q[0]) >= 0 {
                    let j2 = find_index(c2, q[0]);
                    let j1 = if j2 < i { j2 } else { j2 + 1 };
                    assert(c2[j2] == c[j1]);
                }
            }
        }
        r
    }
}

/// The names of the children of one kind, in order: folders if `folders`, else files.
pub open spec fn names_of_kind(c: Seq<Node>, folders: bool) -> Seq<Seq<char>>
    decreases c.len(),
{
    if c.len() == 0 {
        Seq::empty()
    } else {
        let rest = names_of_kind(c.drop_last(), folders);
        if (c.last() is Folder) == folders {
            rest.push(node_name(c.last()))
        } else {
            rest
        }
    }
}

/// The identifiers of every folder of the subtree of `d`, `d` included.
pub open spec fn ids_upto(d: Folder, i: int) -> Seq<Seq<char>>
    decreases d, i,
{
    if i <= 0 || i > d.children@.len() {
        seq![d.id@]
    } else {
        let here = match d.children@[i - 1] {
            Node::File(_) => Seq::empty(),
            Node::Folder(c) => ids_upto(c, c.children@.len() as int),
        };
        ids_upto(d, i - 1) + here
    }
}

pub open spec fn subtree_ids(n: Node) -> Seq<Seq<char>> {
    match n {
        Node::File(_) => Seq::empty(),
        Node::Folder(d) => ids_upto(d, d.children@.len() as int),
    }
}

/// The children of a folder, split by kind.
pub struct Listing {
    pub folders: Vec<String>,
    pub files: Vec<String>,
}

impl File {
    /// A new file record with a fresh identifier.
    pub fn new(real_path: String, name: String, metadata: Metadata) -> (r: File)
        ensures
            r.real_path@ == real_path@,
            r.name@ == name@,
            r.metadata@ == metadata@,
    {
        File { real_path, name, metadata, id: new_id() }
    }

    pub fn get_name(&self) -> (r: &String)
        ensures
            r@ == self.name@,
    {
        &self.name
    }
}

impl Folder {
    pub fn get_name(&self) -> (r: &String)
        ensures
            r@ == self.name@,
    {
        &self.name
    }

    /// The names of the children, folders and files apart.
    pub fn listing(&self) -> (r: Listing)
        ensures
            views(r.folders@) == names_of_kind(self.children@, true),
            views(r.files@) == names_of_kind(self.children@, false),
    {
        let mut folders: Vec<String> = Vec::new();
        let mut files: Vec<String> = Vec::new();
        let mut i: usize = 0;
        while i < self.children.len()
            invariant
                i <= self.children@.len(),
                views(folders@) == names_of_kind(self.children@.subrange(0, i as int), true),
                views(files@) == names_of_kind(self.children@.subrange(0, i as int), false),
            decreases self.children@.len() - i,
        {
            let ghost sub = self.children@.subrange(0, i + 1);
            assert(sub.drop_last() =~= self.children@.subrange(0, i as int));
            let name = self.children[i].get_name().clone();
            if self.children[i].is_folder() {
                folders.push(name);
                assert(views(folders@) =~= views(folders@.drop_last()).push(name@));
            } else {
                files.push(name);
                assert(views(files@) =~= views(files@.drop_last()).push(name@));
            }
            i = i + 1;
        }
        assert(self.children@.subrange(0, i as int) =~= self.children@);
        Listing { folders, files }
    }

    /// Appends the identifiers of this folder and of every folder below it.
    pub fn collect_ids(&self, out: &mut Vec<String>)
        ensures
            views(final(out)@) == views(old(out)@) + ids_upto(*self, self.children@.len() as int),
        decreases *self,
    {
        out.push(self.id.clone());
        let ghost start = views(old(out)@);
        proof {
            assert(views(out@) =~= start + ids_upto(*self, 0));
        }
        let mut i: usize = 0;
        while i < self.children.len()
            invariant
                i <= self.children@.len(),
                views(out@) == start + ids_upto(*self, i as int),
            decreases self.children@.len() - i,
        {
            match &self.children[i] {
                Node::File(_) => {
                    assert(ids_upto(*self, i + 1) =~= ids_upto(*self, i as int));
                },
                Node::Folder(c) => {
                    proof {
                        assert(decreases_to!(*self => self.children));
                        assert(decreases_to!(self.children => self.children@[i as int]));
                    }
                    let ghost before = views(out@);
                    c.collect_ids(out);
                    assert(views(out@) =~= start + ids_upto(*self, i + 1));
                },
            }
            i = i + 1;
        }
    }
}

/// Collects the identifiers of every folder below a node, the node included.
pub fn node_ids(n: &Node, out: &mut Vec<String>)
    ensures
        views(final(out)@) == views(old(out)@) + subtree_ids(*n),
{
    match n {
        Node::File(_) => {
            assert(views(out@) =~= views(out@) + subtree_ids(*n));
        },
        Node::Folder(d) => d.collect_ids(out),
    }
}

/// A copy of a string that equals it.
pub fn copy_string(s: &String) -> (r: String)
    ensures
        r == *s,
{
    s.clone()
}

/// A copy of metadata that equals it in content.
pub fn copy_metadata(m: &Metadata) -> (r: Metadata)
    ensures
        r@ == m@,
{
    let mut out: Metadata = Vec::new();
    let mut i: usize = 0;
    while i < m.len()
        invariant
            i <= m@.len(),
            out@ == m@.subrange(0, i as int),
        decreases m@.len() - i,
    {
        let k = copy_string(&m[i].0);
        let v = copy_string(&m[i].1);
        out.push((k, v));
        assert(out@ =~= m@.subrange(0, i + 1));
        i = i + 1;
    }
    assert(out@ =~= m@);
    out
}

/// Two nodes hold the same content: identifiers, metadata, real paths and
/// subtrees agree, whatever the two nodes themselves are named.
pub open spec fn same_content(a: Node, b: Node) -> bool
    decreases a,
{
    match a {
        Node::File(f) => b matches Node::File(g) && f.real_path@ == g.real_path@ && f.metadata@
            == g.metadata@ && f.id@ == g.id@,
        Node::Folder(x) => b matches Node::Folder(y) && x.id@ == y.id@ && x.metadata@
            == y.metadata@ && x.children@.len() == y.children@.len() && forall|i: int|
            0 <= i < x.children@.len() ==> same_content(#[trigger] x.children@[i], y.children@[i])
                && node_name(x.children@[i]) == node_name(y.children@[i]),
    }
}

/// Neither path lies on the other.
pub open spec fn unrelated(a: Seq<Seq<char>>, b: Seq<Seq<char>>) -> bool {
    !a.is_prefix_of(b) && !b.is_prefix_of(a)
}

/// How many names of `segs` lead to the node that removing `segs` detaches from
/// the tree rooted at `d`.
pub open spec fn remove_cut(d: Folder, segs: Seq<Seq<char>>) -> int {
    if empties(d, segs) {
        1
    } else {
        cut_len(d, segs)
    }
}

pub proof fn lemma_unrelated_step(a: Seq<Seq<char>>, b: Seq<Seq<char>>)
    requires
        a.len() >= 1,
        b.len() >= 1,
        a[0] == b[0],
        unrelated(a, b),
    ensures
        a.len() >= 2,
        b.len() >= 2,
        unrelated(a.drop_first(), b.drop_first()),
{
    lemma_prefix_step(a, b);
    lemma_prefix_step(b, a);
    if a.len() == 1 {
        assert(b.subrange(0, 1) =~= a);
    }
    if b.len() == 1 {
        assert(a.subrange(0, 1) =~= b);
    }
}

/// Removing one of two unrelated paths that both stand never empties a folder
/// that holds both.
pub proof fn lemma_not_empties(d: Folder, f: Seq<Seq<char>>, t: Seq<Seq<char>>)
    requires
        wf(d),
        f.len() >= 1,
        t.len() >= 1,
        walk(d, f) is Found,
        walk(d, t) is Found,
        unrelated(f, t),
    ensures
        !empties(d, f),
    decreases f.len(),
{
    lemma_find(d.children@, f[0]);
    lemma_find(d.children@, t[0]);
    if f[0] != t[0] {
        assert(find_index(d.children@, f[0]) != find_index(d.children@, t[0]));
    } else {
        lemma_unrelated_step(f, t);
        lemma_walk_found_step(d, f);
        lemma_walk_found_step(d, t);
        assert(d.children@[find_index(d.children@, f[0])] is Folder);
        assert(wf(first_folder(d, f)));
        lemma_not_empties(first_folder(d, f), f.drop_first(), t.drop_first());
    }
}

/// The part of the tree that removing `f` detaches does not reach an unrelated `t`.
pub proof fn lemma_cut_unrelated(d: Folder, f: Seq<Seq<char>>, t: Seq<Seq<char>>)
    requires
        wf(d),
        f.len() >= 1,
        t.len() >= 1,
        walk(d, f) is Found,
        walk(d, t) is Found,
        unrelated(f, t),
    ensures
        !f.subrange(0, cut_len(d, f)).is_prefix_of(t),
        !t.is_prefix_of(f.subrange(0, cut_len(d, f))),
    decreases f.len(),
{
    lemma_cut_len(d, f);
    let cut = f.subrange(0, cut_len(d, f));
    if t.is_prefix_of(cut) {
        assert(f.subrange(0, t.len() as int) =~= cut.subrange(0, t.len() as int));
    }
    if f[0] != t[0] {
        assert(cut[0] == f[0]);
    } else {
        lemma_unrelated_step(f, t);
        lemma_walk_found_step(d, f);
        lemma_walk_found_step(d, t);
        let c = first_folder(d, f);
        lemma_find(d.children@, f[0]);
        assert(d.children@[find_index(d.children@, f[0])] is Folder);
        assert(wf(c));
        lemma_not_empties(c, f.drop_first(), t.drop_first());
        lemma_cut_unrelated(c, f.drop_first(), t.drop_first());
        lemma_cut_len(c, f.drop_first());
        assert(cut.drop_first() =~= f.drop_first().subrange(0, cut_len(c, f.drop_first())));
        lemma_prefix_step(cut, t);
    }
}

impl Node {
    /// A copy with the same content and name. Copied folders are dirty: their
    /// records are written anew on the next flush.
    pub fn copy(&self) -> (r: Node)
        requires
            node_wf(*self),
        ensures
            same_content(*self, r),
            node_name(r) == node_name(*self),
            node_wf(r),
            fresh_node(r),
    {
        match self {
            Node::File(f) => Node::File(f.copy()),
            Node::Folder(d) => Node::Folder(d.copy()),
        }
    }
}

impl File {
    pub fn copy(&self) -> (r: File)
        ensures
            same_content(Node::File(*self), Node::File(r)),
            r.name@ == self.name@,
    {
        File {
            real_path: copy_string(&self.real_path),
            name: copy_string(&self.name),
            metadata: copy_metadata(&self.metadata),
            id: copy_string(&self.id),
        }
    }
}

impl Folder {
    pub fn copy(&self) -> (r: Folder)
        requires
            wf(*self),
        ensures
            same_content(Node::Folder(*self), Node::Folder(r)),
            r.name@ == self.name@,
            wf(r),
            r.dirty,
            all_dirty(r),
        decreases *self,
    {
        let mut children: Vec<Node> = Vec::new();
        let mut i: usize = 0;
        while i < self.children.len()
            invariant
                i <= self.children@.len(),
                children@.len() == i,
                wf(*self),
                forall|j: int|
                    0 <= j < i ==> same_content(#[trigger] self.children@[j], children@[j])
                        && node_name(self.children@[j]) == node_name(children@[j]) && node_wf(
                        children@[j],
                    ) && fresh_node(children@[j]),
            decreases self.children@.len() - i,
        {
            let c = match &self.children[i] {
                Node::File(f) => Node::File(f.copy()),
                Node::Folder(sub) => {
                    proof {
                        assert(decreases_to!(*self => self.children));
                        assert(decreases_to!(self.children => self.children@[i as int]));
                        assert(wf(*sub));
                    }
                    Node::Folder(sub.copy())
                },
            };
            children.push(c);
            i = i + 1;
        }
        let r = Folder {
            name: copy_string(&self.name),
            children,
            metadata: copy_metadata(&self.metadata),
            id: copy_string(&self.id),
            dirty: true,
        };
        assert(names_unique(r.children@)) by {
            assert forall|a: int, b: int|
                0 <= a < r.children@.len() && 0 <= b < r.children@.len() && a != b implies node_name(
                r.children@[a],
            ) != node_name(r.children@[b]) by {
                assert(node_name(self.children@[a]) == node_name(r.children@[a]));
                assert(node_name(self.children@[b]) == node_name(r.children@[b]));
            }
        }
        assert forall|j: int| 0 <= j < r.children@.len() implies (#[trigger] r.children@[j] matches Node::Folder(
            c,
        ) ==> wf(c)) by {
            assert(node_name(self.children@[j]) == node_name(children@[j]));
            assert(node_wf(r.children@[j]));
        }
        assert forall|x: Folder| #[trigger] all_folders(r).contains(x) implies x.dirty by {
            lemma_in_upto(r, r.children@.len() as int, x);
            if x != r {
                let k = choose|k: int|
                    0 <= k < r.children@.len() && (#[trigger] r.children@[k]) is Folder && all_folders(
                        r.children@[k]->Folder_0,
                    ).contains(x);
                assert(same_content(self.children@[k], children@[k]));
                assert(fresh_node(r.children@[k]));
            }
        }
        r
    }
}

impl Node {
    /// A copy with the same content under another name.
    pub fn copy_as(&self, new_name: String) -> (r: Node)
        requires
            node_wf(*self),
        ensures
            same_content(*self, r),
            node_name(r) == new_name@,
            node_wf(r),
            fresh_node(r),
    {
        match self {
            Node::File(f) => {
                let mut g = f.copy();
                g.name = new_name;
                Node::File(g)
            },
            Node::Folder(d) => {
                let mut c = d.copy();
                let ghost c0 = c;
                c.name = new_name;
                proof {
                    assert forall|x: Folder| #[trigger] all_folders(c).contains(x) implies x.dirty by {
                        lemma_in_upto(c, c.children@.len() as int, x);
                        if x != c {
                            let k = choose|k: int|
                                0 <= k < c.children@.len() && (#[trigger] c.children@[k]) is Folder
                                    && all_folders(c.children@[k]->Folder_0).contains(x);
                            lemma_all_child(c0, k, c0.children@.len() as int);
                            assert(all_folders(c0).contains(x));
                        }
                    }
                }
                Node::Folder(c)
            },
        }
    }
}


/// The child of `d` named `name`, if there is one.
pub open spec fn child(d: Folder, name: Seq<char>) -> Option<Node> {
    if find_index(d.children@, name) >= 0 {
        Some(d.children@[find_index(d.children@, name)])
    } else {
        None
    }
}

/// No file of `files` after the `j`th has the same name.
pub open spec fn last_of_name(files: Seq<File>, j: int, upto: int) -> bool {
    forall|k: int| j < k < upto ==> (#[trigger] files[k]).name@ != files[j].name@
}

impl Folder {
    /// Puts `n` among the children, in place of a child of the same name.
    pub fn put_child(&mut self, n: Node)
        requires
            wf(*old(self)),
            node_wf(n),
        ensures
            final(self).name == old(self).name,
            final(self).id == old(self).id,
            final(self).metadata == old(self).metadata,
            final(self).dirty == old(self).dirty,
            wf(*final(self)),
            child(*final(self), node_name(n)) == Some(n),
            forall|name: Seq<char>|
                name != node_name(n) ==> #[trigger] child(*final(self), name) == child(
                    *old(self),
                    name,
                ),
            child(*old(self), node_name(n)) is None ==> final(self).children@ == old(
                self,
            ).children@.push(n),
            forall|k: int|
                0 <= k < final(self).children@.len() ==> #[trigger] final(self).children@[k] == n
                    || exists|j: int|
                    0 <= j < old(self).children@.len() && old(self).children@[j]
                        == final(self).children@[k],
    {
        let ghost c = self.children@;
        let ghost nm = node_name(n);
        proof {
            lemma_find(c, nm);
        }
        let name = n.get_name().clone();
        match find_child(&self.children, &name) {
            Some(i) => {
                proof {
                    lemma_update_child(c, i as int, n);
                }
                self.children.push(n);
                let _old_child = self.children.swap_remove(i);
                assert(self.children@ =~= c.update(i as int, n));
                proof {
                    assert forall|j: int| 0 <= j < self.children@.len() implies (
                    #[trigger] self.children@[j] matches Node::Folder(f) ==> wf(f)) by {
                        if j != i {
                            assert(self.children@[j] == c[j]);
                        }
                    }
                    assert forall|k: int| 0 <= k < self.children@.len() implies #[trigger] self.children@[k]
                        == n || exists|j: int| 0 <= j < c.len() && c[j] == self.children@[k] by {
                        if k != i {
                            assert(c[k] == self.children@[k]);
                        }
                    }
                    assert forall|name2: Seq<char>| name2 != nm implies #[trigger] child(
                        *self,
                        name2,
                    ) == child(*old(self), name2) by {
                        lemma_find(c, name2);
                        let j = find_index(c, name2);
                        if j >= 0 {
                            assert(self.children@[j] == c[j]);
                        }
                    }
                }
            },
            None => {
                proof {
                    lemma_push_child(c, n);
                }
                self.children.push(n);
                proof {
                    assert forall|j: int| 0 <= j < self.children@.len() implies (
                    #[trigger] self.children@[j] matches Node::Folder(f) ==> wf(f)) by {
                        if j < c.len() {
                            assert(self.children@[j] == c[j]);
                        }
                    }
                    assert forall|k: int| 0 <= k < self.children@.len() implies #[trigger] self.children@[k]
                        == n || exists|j: int| 0 <= j < c.len() && c[j] == self.children@[k] by {
                        if k < c.len() {
                            assert(c[k] == self.children@[k]);
                        }
                    }
                    assert forall|name2: Seq<char>| name2 != nm implies #[trigger] child(
                        *self,
                        name2,
                    ) == child(*old(self), name2) by {
                        lemma_find(c, name2);
                        let j = find_index(c, name2);
                        if j >= 0 {
                            assert(self.children@[j] == c[j]);
                        }
                    }
                }
            },
        }
    }

    /// Puts every file among the children; of files with one name the last stays.
    #[verifier::rlimit(40)]
    pub fn insert_all(&mut self, files: Vec<File>)
        requires
            wf(*old(self)),
        ensures
            final(self).name == old(self).name,
            final(self).id == old(self).id,
            final(self).metadata == old(self).metadata,
            final(self).dirty,
            wf(*final(self)),
            forall|j: int|
                0 <= j < files@.len() && last_of_name(files@, j, files@.len() as int) ==> child(
                    *final(self),
                    (#[trigger] files@[j]).name@,
                ) == Some(Node::File(files@[j])),
            forall|name: Seq<char>|
                (forall|j: int| 0 <= j < files@.len() ==> (#[trigger] files@[j]).name@ != name)
                    ==> #[trigger] child(*final(self), name) == child(*old(self), name),
            kept(*old(self), *final(self)),
    {
        let ghost o = *self;
        let ghost fs = files@;
        let n = files.len();
        let mut files = files;
        let mut rest: Vec<File> = Vec::new();
        while files.len() > 0
            invariant
                files@.len() + rest@.len() == fs.len(),
                files@ == fs.subrange(0, files@.len() as int),
                forall|k: int| 0 <= k < rest@.len() ==> rest@[k] == fs[fs.len() - 1 - k],
            decreases files.len(),
        {
            let f = files.pop().unwrap();
            rest.push(f);
            assert(files@ =~= fs.subrange(0, files@.len() as int));
        }
        let mut i: usize = 0;
        while i < n
            invariant
                n == fs.len(),
                i <= n,
                rest@.len() == n - i,
                forall|k: int| 0 <= k < rest@.len() ==> rest@[k] == fs[fs.len() - 1 - k],
                wf(*self),
                self.name == o.name,
                self.id == o.id,
                self.metadata == o.metadata,
                forall|j: int|
                    0 <= j < i && last_of_name(fs, j, i as int) ==> child(
                        *self,
                        (#[trigger] fs[j]).name@,
                    ) == Some(Node::File(fs[j])),
                forall|name: Seq<char>|
                    (forall|j: int| 0 <= j < i ==> (#[trigger] fs[j]).name@ != name) ==> #[trigger] child(
                        *self,
                        name,
                    ) == child(o, name),
                forall|k: int|
                    0 <= k < self.children@.len() && (#[trigger] self.children@[k]) is Folder ==> exists|
                        j: int,
                    | 0 <= j < o.children@.len() && o.children@[j] == self.children@[k],
            decreases n - i,
        {
            let f = rest.pop().unwrap();
            assert(f == fs[i as int]);
            let ghost before = *self;
            self.put_child(Node::File(f));
            proof {
                assert forall|j: int|
                    0 <= j < i + 1 && last_of_name(fs, j, i + 1) implies child(
                    *self,
                    (#[trigger] fs[j]).name@,
                ) == Some(Node::File(fs[j])) by {
                    if j < i {
                        assert(fs[i as int].name@ != fs[j].name@);
                        assert(last_of_name(fs, j, i as int));
                    }
                }
                assert forall|name: Seq<char>|
                    (forall|j: int| 0 <= j < i + 1 ==> (#[trigger] fs[j]).name@ != name) implies #[trigger] child(
                    *self,
                    name,
                ) == child(o, name) by {
                    assert(fs[i as int].name@ != name);
                    assert(child(before, name) == child(o, name));
                }
                assert forall|k: int|
                    0 <= k < self.children@.len() && (#[trigger] self.children@[k]) is Folder implies exists|
                    j: int,
                | 0 <= j < o.children@.len() && o.children@[j] == self.children@[k] by {
                    let j0 = choose|j0: int|
                        0 <= j0 < before.children@.len() && before.children@[j0] == self.children@[k];
                    assert(before.children@[j0] is Folder);
                }
            }
            i = i + 1;
        }
        let ghost filled = *self;
        self.dirty = true;
        proof {
            assert forall|name: Seq<char>|
                (forall|j: int| 0 <= j < fs.len() ==> (#[trigger] fs[j]).name@ != name) implies #[trigger] child(
                *self,
                name,
            ) == child(o, name) by {
                assert(child(filled, name) == child(o, name));
            }
            assert forall|j: int|
                0 <= j < fs.len() && last_of_name(fs, j, fs.len() as int) implies child(
                *self,
                (#[trigger] fs[j]).name@,
            ) == Some(Node::File(fs[j])) by {
                assert(child(filled, fs[j].name@) == Some(Node::File(fs[j])));
            }
            lemma_kept_dirty_parent(o, *self);
        }
    }
}

/// What the folder at `p` held under `name` before a bulk insert into it.
pub open spec fn prior_child(d: Folder, p: Seq<Seq<char>>, name: Seq<char>) -> Option<Node> {
    match walk(d, p) {
        Walk::Found(Node::Folder(h)) => child(h, name),
        _ => None,
    }
}

/// A bulk insert into the folder at `p` can go ahead: no file stands on the way.
pub open spec fn can_fill(d: Folder, p: Seq<Seq<char>>) -> bool {
    !(walk(d, p) is ThroughFile) && !(walk(d, p) matches Walk::Found(Node::File(_)))
}

impl Folder {
    /// Puts the files into the folder at `segs[k..]`, creating it and the
    /// folders on the way when they are missing.
    pub fn insert_many_at(&mut self, files: Vec<File>, segs: &Vec<String>, k: usize)
        requires
            wf(*old(self)),
            k <= segs.len(),
            can_fill(*old(self), views(segs@).skip(k as int)),
        ensures
            final(self).name == old(self).name,
            final(self).id == old(self).id,
            final(self).metadata == old(self).metadata,
            wf(*final(self)),
            kept(*old(self), *final(self)),
            old(self).dirty ==> final(self).dirty,
            ({
                let p = views(segs@).skip(k as int);
                &&& walk(*final(self), p) matches Walk::Found(Node::Folder(g)) && g.dirty
                &&& forall|j: int|
                    1 <= j <= p.len() && !(walk(*old(self), p.subrange(0, j)) is Found) ==> (walk(
                        *final(self),
                        #[trigger] p.subrange(0, j),
                    ) matches Walk::Found(Node::Folder(g)) && g.dirty)
            }),
            ({
                let p = views(segs@).skip(k as int);
                &&& walk(*final(self), p) matches Walk::Found(Node::Folder(g)) && (forall|j: int|
                    0 <= j < files@.len() && last_of_name(files@, j, files@.len() as int) ==> child(
                        g,
                        (#[trigger] files@[j]).name@,
                    ) == Some(Node::File(files@[j]))) && (forall|name: Seq<char>|
                    (forall|j: int| 0 <= j < files@.len() ==> (#[trigger] files@[j]).name@ != name)
                        ==> #[trigger] child(g, name) == prior_child(*old(self), p, name))
                &&& forall|q: Seq<Seq<char>>|
                    !p.is_prefix_of(q) ==> #[trigger] file_at(*final(self), q) == file_at(
                        *old(self),
                        q,
                    )
                &&& forall|q: Seq<Seq<char>>|
                    unrelated(p, q) ==> #[trigger] walk(*final(self), q) == walk(*old(self), q)
            }),
        decreases segs.len() - k,
    {
        let ghost old_self = *self;
        let ghost p = views(segs@).skip(k as int);
        let ghost fs = files@;
        if k == segs.len() {
            assert(p =~= Seq::<Seq<char>>::empty());
            self.insert_all(files);
            proof {
                assert forall|q: Seq<Seq<char>>| unrelated(p, q) implies #[trigger] walk(*self, q)
                    == walk(old_self, q) by {
                    assert(q.subrange(0, 0) =~= p);
                }
            }
            return;
        }
        assert(p[0] == segs@[k as int]@);
        assert(p.drop_first() =~= views(segs@).skip(k + 1));
        match find_child(&self.children, &segs[k]) {
            None => {
                let mut f = Folder::new(segs[k].clone());
                let ghost f0 = f;
                assert(p.drop_first().len() == 0 || walk(f0, p.drop_first()) is Missing);
                f.insert_many_at(files, segs, k + 1);
                proof {
                    lemma_find(old_self.children@, p[0]);
                    lemma_push_child(old_self.children@, Node::Folder(f));
                    lemma_kept_dirty(f0, f);
                }
                self.children.push(Node::Folder(f));
                self.dirty = true;
                proof {
                    assert forall|j: int|
                        0 <= j < self.children@.len() && (#[trigger] self.children@[j]) is Folder implies fresh_node(
                        self.children@[j],
                    ) || exists|m: int|
                        0 <= m < old_self.children@.len() && old_self.children@[m] == self.children@[j] by {
                        if j < old_self.children@.len() {
                            assert(old_self.children@[j] == self.children@[j]);
                        }
                    }
                    lemma_kept_dirty_parent(old_self, *self);
                    assert(walk(*self, p) == walk(f, p.drop_first()));
                    assert forall|j: int|
                        1 <= j <= p.len() && !(walk(old_self, p.subrange(0, j)) is Found) implies (walk(
                        *self,
                        #[trigger] p.subrange(0, j),
                    ) matches Walk::Found(Node::Folder(g)) && g.dirty) by {
                        let pj = p.subrange(0, j);
                        assert(pj[0] == p[0]);
                        if j >= 2 {
                            let rest = p.drop_first().subrange(0, j - 1);
                            assert(pj.drop_first() =~= rest);
                            assert(walk(f0, rest) is Missing);
                            assert(walk(*self, pj) == walk(f, rest));
                        }
                    }
                    assert forall|name: Seq<char>| #[trigger] prior_child(f0, p.drop_first(), name)
                        == prior_child(old_self, p, name) by {}
                    assert forall|q: Seq<Seq<char>>|
                        !p.is_prefix_of(q) implies #[trigger] file_at(*self, q) == file_at(
                        old_self,
                        q,
                    ) by {
                        if q.len() > 0 {
                            if q[0] == p[0] {
                                lemma_prefix_step(p, q);
                                assert(file_at(f, q.drop_first()) == file_at(f0, q.drop_first()));
                            } else {
                                lemma_find(old_self.children@, q[0]);
                                let j = find_index(old_self.children@, q[0]);
                                if j >= 0 {
                                    assert(self.children@[j] == old_self.children@[j]);
                                }
                            }
                        }
                    }
                    assert forall|q: Seq<Seq<char>>|
                        unrelated(p, q) implies #[trigger] walk(*self, q) == walk(old_self, q) by {
                        if q.len() > 0 {
                            if q[0] == p[0] {
                                lemma_prefix_step(p, q);
                                lemma_prefix_step(q, p);
                                assert(walk(f, q.drop_first()) == walk(f0, q.drop_first()));
                            } else {
                                lemma_find(old_self.children@, q[0]);
                                let j = find_index(old_self.children@, q[0]);
                                if j >= 0 {
                                    assert(self.children@[j] == old_self.children@[j]);
                                }
                            }
                        } else {
                            assert(q.is_prefix_of(p));
                        }
                    }
                }
            },
            Some(i) => {
                let ghost c0 = old_self.children@[i as int]->Folder_0;
                proof {
                    lemma_find(old_self.children@, p[0]);
                    assert(old_self.children@[i as int] is Folder);
                    assert(wf(c0));
                    assert(walk(old_self, p) == walk(c0, p.drop_first()));
                }
                match &mut self.children[i] {
                    Node::Folder(c) => c.insert_many_at(files, segs, k + 1),
                    Node::File(_) => {},
                }
                proof {
                    let c1 = self.children@[i as int]->Folder_0;
                    lemma_update_child(old_self.children@, i as int, Node::Folder(c1));
                    assert(self.children@ =~= old_self.children@.update(i as int, Node::Folder(c1)));
                    lemma_kept_update(old_self, *self, i as int, c0, c1);
                    assert(find_index(self.children@, p[0]) == i);
                    assert(walk(*self, p) == walk(c1, p.drop_first()));
                    assert forall|j: int|
                        1 <= j <= p.len() && !(walk(old_self, p.subrange(0, j)) is Found) implies (walk(
                        *self,
                        #[trigger] p.subrange(0, j),
                    ) matches Walk::Found(Node::Folder(g)) && g.dirty) by {
                        let pj = p.subrange(0, j);
                        assert(pj[0] == p[0]);
                        if j >= 2 {
                            let rest = p.drop_first().subrange(0, j - 1);
                            assert(pj.drop_first() =~= rest);
                            assert(walk(old_self, pj) == walk(c0, rest));
                            assert(walk(*self, pj) == walk(c1, rest));
                        }
                    }
                    assert forall|name: Seq<char>| #[trigger] prior_child(c0, p.drop_first(), name)
                        == prior_child(old_self, p, name) by {}
                    assert forall|q: Seq<Seq<char>>|
                        !p.is_prefix_of(q) implies #[trigger] file_at(*self, q) == file_at(
                        old_self,
                        q,
                    ) by {
                        if q.len() > 0 {
                            if q[0] == p[0] {
                                lemma_prefix_step(p, q);
                                if q.len() > 1 {
                                    assert(file_at(c1, q.drop_first()) == file_at(c0, q.drop_first()));
                                }
                            } else {
                                lemma_find(old_self.children@, q[0]);
                                let j = find_index(old_self.children@, q[0]);
                                if j >= 0 {
                                    assert(self.children@[j] == old_self.children@[j]);
                                }
                            }
                        }
                    }
                    assert forall|q: Seq<Seq<char>>|
                        unrelated(p, q) implies #[trigger] walk(*self, q) == walk(old_self, q) by {
                        if q.len() > 0 {
                            if q[0] == p[0] {
                                lemma_prefix_step(p, q);
                                lemma_prefix_step(q, p);
                                if q.len() > 1 {
                                    assert(walk(c1, q.drop_first()) == walk(c0, q.drop_first()));
                                } else {
                                    assert(q.is_prefix_of(p)) by {
                                        assert(p.subrange(0, 1) =~= q);
                                    }
                                }
                            } else {
                                lemma_find(old_self.children@, q[0]);
                                let j = find_index(old_self.children@, q[0]);
                                if j >= 0 {
                                    assert(self.children@[j] == old_self.children@[j]);
                                }
                            }
                        } else {
                            assert(q.is_prefix_of(p));
                        }
                    }
                }
            },
        }
    }
}

} // verus!
