use vstd::prelude::*;
use crate::error::{fails_with, GodataError, GodataErrorType};

verus! {

/// What `Path::join` makes of a base and a path on Unix: an absolute path
/// replaces the base; otherwise the path is appended, after a `/` unless the
/// base is empty or already ends in one.
pub open spec fn path_join(base: Seq<char>, rel: Seq<char>) -> Seq<char> {
    if rel.len() > 0 && rel[0] == '/' {
        rel
    } else if base.len() == 0 || base.last() == '/' {
        base + rel
    } else {
        base + seq!['/'] + rel
    }
}

/// Whether `Path::starts_with` finds `base` as whole leading components of `p`.
pub uninterp spec fn path_starts_with(p: Seq<char>, base: Seq<char>) -> bool;

/// What `Path::strip_prefix` leaves of `p` once `base` is taken off its front.
pub uninterp spec fn path_strip(p: Seq<char>, base: Seq<char>) -> Seq<char>;

/// Relies on `std::path::Path::join` (through `PathBuf::push`) on Unix: an
/// absolute path replaces the base, a relative one is appended after a
/// separator when the base does not end in one. Both inputs are UTF-8, so the
/// text conversion loses nothing.
#[verifier::external_body]
fn join_path(base: &str, rel: &str) -> (r: String)
    ensures
        r@ == path_join(base@, rel@),
{
    std::path::Path::new(base).join(rel).to_string_lossy().into_owned()
}

/// Relies on `std::path::Path::starts_with`, which compares whole components.
#[verifier::external_body]
fn starts_with_path(p: &str, base: &str) -> (r: bool)
    ensures
        r == path_starts_with(p@, base@),
{
    std::path::Path::new(p).starts_with(base)
}

/// Relies on `std::path::Path::strip_prefix`, which fails exactly when
/// `starts_with` is false.
#[verifier::external_body]
fn strip_path(p: &str, base: &str) -> (r: Option<String>)
    ensures
        r is Some == path_starts_with(p@, base@),
        r matches Some(s) ==> s@ == path_strip(p@, base@),
{
    match std::path::Path::new(p).strip_prefix(base) {
        Ok(rest) => Some(rest.to_string_lossy().into_owned()),
        Err(_) => None,
    }
}

/// A storage location on the local disk: it maps virtual paths to real paths
/// under its root, and owns the files that lie under that root.
pub struct LocalEndpoint {
    pub root_path: String,
}

impl LocalEndpoint {
    pub fn new(root_path: String) -> (r: LocalEndpoint)
        ensures
            r.root_path@ == root_path@,
    {
        LocalEndpoint { root_path }
    }

    /// A fresh real location for data at a virtual path.
    pub fn generate_path(&self, project_path: &str) -> (r: String)
        ensures
            r@ == path_join(self.root_path@, project_path@),
    {
        join_path(self.root_path.as_str(), project_path)
    }

    /// Whether the file at `path` is owned by this endpoint, so that it may be
    /// deleted with its record.
    pub fn is_internal(&self, path: &str) -> (r: bool)
        ensures
            r == path_starts_with(path@, self.root_path@),
    {
        starts_with_path(path, self.root_path.as_str())
    }

    /// The path relative to the root; refused for a path that is not under it.
    pub fn get_relative_path(&self, path: &str) -> (r: Result<String, GodataError>)
        ensures
            path_starts_with(path@, self.root_path@) ==> (r matches Ok(s) && s@ == path_strip(
                path@,
                self.root_path@,
            )),
            !path_starts_with(path@, self.root_path@) ==> fails_with(
                r,
                GodataErrorType::InvalidPath,
            ),
    {
        match strip_path(path, self.root_path.as_str()) {
            Some(s) => Ok(s),
            None => Err(GodataError::new(
                GodataErrorType::InvalidPath,
                String::from_str("the path is not under the storage root"),
            )),
        }
    }

    /// The real path of a stored relative path.
    pub fn resolve(&self, relpath: &str) -> (r: String)
        ensures
            r@ == path_join(self.root_path@, relpath@),
    {
        join_path(self.root_path.as_str(), relpath)
    }
}

/// Where a project's data lives: the kind of endpoint and its root path, as
/// kept in the store of mappings.
pub struct StorageMapping {
    pub endpoint_kind: String,
    pub root_path: String,
}

/// The stored form of a mapping: `kind:root`.
pub open spec fn mapping_text(kind: Seq<char>, root: Seq<char>) -> Seq<char> {
    kind + seq![':'] + root
}

pub open spec fn no_colon(s: Seq<char>) -> bool {
    forall|i: int| 0 <= i < s.len() ==> s[i] != ':'
}

impl StorageMapping {
    pub fn new(endpoint_kind: String, root_path: String) -> (r: StorageMapping)
        ensures
            r.endpoint_kind == endpoint_kind,
            r.root_path == root_path,
    {
        StorageMapping { endpoint_kind, root_path }
    }

    /// The text under which the mapping is stored.
    pub fn encode(&self) -> (r: String)
        ensures
            r@ == mapping_text(self.endpoint_kind@, self.root_path@),
    {
        let mut r = self.endpoint_kind.clone();
        r.append(":");
        r.append(self.root_path.as_str());
        proof {
            reveal_strlit(":");
        }
        r
    }

    /// Reads a stored mapping: the kind runs up to the first colon, the root
    /// path is the rest. `None` when there is no colon.
    pub fn decode(text: &str) -> (r: Option<StorageMapping>)
        ensures
            r is Some == !no_colon(text@),
            r matches Some(m) ==> mapping_text(m.endpoint_kind@, m.root_path@) == text@ && no_colon(
                m.endpoint_kind@,
            ),
    {
        let n = text.unicode_len();
        let mut i: usize = 0;
        while i < n
            invariant
                n == text@.len(),
                i <= n,
                no_colon(text@.subrange(0, i as int)),
            decreases n - i,
        {
            if text.get_char(i) == ':' {
                let kind = String::from_str(text.substring_char(0, i));
                let root = String::from_str(text.substring_char(i + 1, n));
                proof {
                    assert(mapping_text(kind@, root@) =~= text@);
                }
                return Some(StorageMapping { endpoint_kind: kind, root_path: root });
            }
            proof {
                assert forall|j: int| 0 <= j < i + 1 implies #[trigger] text@.subrange(0, i + 1)[j]
                    != ':' by {
                    if j < i {
                        assert(text@.subrange(0, i + 1)[j] == text@.subrange(0, i as int)[j]);
                    }
                }
            }
            i = i + 1;
        }
        assert(text@.subrange(0, n as int) =~= text@);
        None
    }
}

/// A mapping whose kind has no colon reads back as it was stored.
pub proof fn lemma_mapping_round_trip(kind: Seq<char>, root: Seq<char>, k2: Seq<char>, r2: Seq<char>)
    requires
        no_colon(kind),
        no_colon(k2),
        mapping_text(k2, r2) == mapping_text(kind, root),
    ensures
        k2 == kind,
        r2 == root,
{
    let t = mapping_text(kind, root);
    if k2.len() < kind.len() {
        assert(t[k2.len() as int] == ':');
        assert(t[k2.len() as int] == kind[k2.len() as int]);
    } else if k2.len() > kind.len() {
        assert(t[kind.len() as int] == ':');
        assert(t[kind.len() as int] == k2[kind.len() as int]);
    }
    assert(k2 =~= kind) by {
        assert forall|i: int| 0 <= i < kind.len() implies k2[i] == kind[i] by {
            assert(t[i] == kind[i]);
            assert(mapping_text(k2, r2)[i] == k2[i]);
        }
    }
    assert(k2.len() == kind.len());
    assert(t.len() == kind.len() + 1 + root.len());
    assert(mapping_text(k2, r2).len() == k2.len() + 1 + r2.len());
    assert(r2 =~= root) by {
        assert forall|i: int| 0 <= i < root.len() implies r2[i] == root[i] by {
            assert((kind + seq![':']).len() == kind.len() + 1);
            assert((k2 + seq![':']).len() == k2.len() + 1);
            assert(t[kind.len() + 1 + i] == root[i]);
            assert(mapping_text(k2, r2)[k2.len() + 1 + i] == r2[i]);
        }
    }
}

} // verus!
