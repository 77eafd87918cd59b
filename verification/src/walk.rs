use crate::entry::EntryView;
use crate::error::Error;
use crate::fs::FsView;
use crate::path::{first_component, rest_of_path};
use crate::scan::find_from;
use vstd::prelude::*;

verus! {

/// Walks all components of a path but the last, from the directory `dir` on.
/// Gives the directory that the last component is to be looked up in, and
/// that component. Each component before the last must name a directory;
/// where it names none the walk fails as the search does, and where it names
/// a file it fails with `NotFound`.
pub open spec fn parent_of(fs: FsView, dir: u32, path: Seq<char>) -> Result<
    (u32, Seq<char>),
    Error,
>
    decreases path.len(),
{
    match rest_of_path(path) {
        None => Ok((dir, first_component(path))),
        Some(rest) => match find_from(fs.bytes_of(dir), 0, first_component(path)) {
            Err(e) => Err(e),
            Ok(e) => if e.is_dir() && rest.len() < path.len() {
                parent_of(fs, e.cluster() as u32, rest)
            } else {
                Err(Error::NotFound)
            },
        },
    }
}

/// The entry that a path names from the directory `dir` on, with the
/// directory that holds it.
pub open spec fn lookup(fs: FsView, dir: u32, path: Seq<char>) -> Result<(u32, EntryView), Error> {
    match parent_of(fs, dir, path) {
        Err(e) => Err(e),
        Ok((d, name)) => match find_from(fs.bytes_of(d), 0, name) {
            Err(e) => Err(e),
            Ok(e) => Ok((d, e)),
        },
    }
}

} // verus!
