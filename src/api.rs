use vstd::prelude::*;
use crate::error::{fails_with, GodataError, GodataErrorType};
use crate::path::views;

verus! {

/// An entry of a directory listing: its name and whether it is a directory.
pub struct DirEntry {
    pub name: String,
    pub is_dir: bool,
}

/// A name that starts with a dot is hidden.
pub open spec fn hidden(name: Seq<char>) -> bool {
    name.len() > 0 && name[0] == '.'
}

/// The names of the directories among the entries, hidden ones only when asked
/// for, in order.
pub open spec fn visible_dirs(entries: Seq<DirEntry>, show_hidden: bool) -> Seq<Seq<char>>
    decreases entries.len(),
{
    if entries.len() == 0 {
        Seq::empty()
    } else {
        let rest = visible_dirs(entries.drop_last(), show_hidden);
        let e = entries.last();
        if e.is_dir && (show_hidden || !hidden(e.name@)) {
            rest.push(e.name@)
        } else {
            rest
        }
    }
}

fn is_hidden(name: &String) -> (r: bool)
    ensures
        r == hidden(name@),
{
    let s = name.as_str();
    if s.unicode_len() == 0 {
        return false;
    }
    s.get_char(0) == '.'
}

fn dir_names(entries: &Vec<DirEntry>, show_hidden: bool) -> (r: Vec<String>)
    ensures
        views(r@) == visible_dirs(entries@, show_hidden),
{
    let mut out: Vec<String> = Vec::new();
    let mut i: usize = 0;
    while i < entries.len()
        invariant
            i <= entries@.len(),
            views(out@) == visible_dirs(entries@.subrange(0, i as int), show_hidden),
        decreases entries@.len() - i,
    {
        let ghost sub = entries@.subrange(0, i + 1);
        assert(sub.drop_last() =~= entries@.subrange(0, i as int));
        let e = &entries[i];
        if e.is_dir && (show_hidden || !is_hidden(&e.name)) {
            let n = e.name.clone();
            out.push(n);
            assert(views(out@) =~= views(out@.drop_last()).push(n@));
        }
        i = i + 1;
    }
    assert(entries@.subrange(0, i as int) =~= entries@);
    out
}

/// The names of the projects of a collection, from the listing of its
/// directory.
pub fn list_projects(show_hidden: bool, entries: &Vec<DirEntry>) -> (r: Vec<String>)
    ensures
        views(r@) == visible_dirs(entries@, show_hidden),
{
    dir_names(entries, show_hidden)
}

/// The names of the collections, from the listing of the main directory.
pub fn list_collections(show_hidden: bool, entries: &Vec<DirEntry>) -> (r: Vec<String>)
    ensures
        views(r@) == visible_dirs(entries@, show_hidden),
{
    dir_names(entries, show_hidden)
}

/// Whether a project may be deleted: only when both its tree and its storage
/// are empty, unless forced.
pub fn delete_project(tree_is_empty: bool, storage_is_empty: bool, force: bool) -> (r: Result<
    (),
    GodataError,
>)
    ensures
        r is Ok == ((tree_is_empty && storage_is_empty) || force),
        r is Err ==> fails_with(r, GodataErrorType::NotPermitted),
{
    if (tree_is_empty && storage_is_empty) || force {
        Ok(())
    } else {
        Err(GodataError::new(
            GodataErrorType::NotPermitted,
            String::from_str("the project is not empty"),
        ))
    }
}

} // verus!
