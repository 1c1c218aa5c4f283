//! Locators inside the mirror: strings whose parts are separated by `/`, as
//! in the addresses that the mirror copies.

use vstd::prelude::*;
use vstd::string::*;
use crate::chars::{
    begins_with, chars_of, contains, cut, ends_with, finishes_with, last_index_of, rfind,
    starts_with,
};

verus! {

/// The directory that holds `path`: what stands before its last `/`. A
/// locator without `/` lies in the empty directory, and one directly under
/// the root lies in `/`.
pub open spec fn dir_of(path: Seq<char>) -> Seq<char> {
    if !contains(path, "/"@) {
        Seq::empty()
    } else if last_index_of(path, "/"@) == 0 {
        "/"@
    } else {
        path.subrange(0, last_index_of(path, "/"@))
    }
}

/// `rel` seen from `dir`: `rel` itself where it starts at the root or `dir`
/// is empty, else `dir`, one `/` between them, and `rel`.
pub open spec fn join(dir: Seq<char>, rel: Seq<char>) -> Seq<char> {
    if starts_with(rel, "/"@) || dir.len() == 0 {
        rel
    } else if ends_with(dir, "/"@) {
        dir + rel
    } else {
        dir + "/"@ + rel
    }
}

/// The directory that holds `path`.
pub fn parent_dir(path: &str) -> (out: String)
    ensures
        out@ == dir_of(path@),
{
    let p = chars_of(path);
    let slash = chars_of("/");
    match rfind(&p, &slash) {
        None => String::new(),
        Some(i) => {
            if i == 0 {
                String::from_str("/")
            } else {
                cut(path, 0, i)
            }
        },
    }
}

/// `rel` seen from `dir`.
pub fn join_path(dir: &str, rel: &str) -> (out: String)
    ensures
        out@ == join(dir@, rel@),
{
    let d = chars_of(dir);
    let r = chars_of(rel);
    let slash = chars_of("/");
    if begins_with(&r, &slash) || d.len() == 0 {
        String::from_str(rel)
    } else {
        let mut out = String::from_str(dir);
        if !finishes_with(&d, &slash) {
            out.append("/");
        }
        out.append(rel);
        out
    }
}

} // verus!
