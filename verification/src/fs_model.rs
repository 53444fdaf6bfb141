//! Plain-value model of what the filesystem reports about files: a
//! last-modified timestamp, per-file metadata, and a snapshot of the files
//! visible to one request, looked up by exact path.

use vstd::prelude::*;

use crate::bytes::bytes_eq;

verus! {

/// A wall-clock timestamp: whole seconds since the epoch and the
/// sub-second remainder in nanoseconds.
#[derive(Clone, Copy, Debug, PartialEq, Eq, Structural)]
pub struct FileTime {
    pub secs: u64,
    pub nanos: u32,
}

/// What a stat call reports about a file. The modified time is absent when
/// the filesystem cannot provide one or it predates the epoch.
#[derive(Clone, Copy, Debug, PartialEq, Eq, Structural)]
pub struct FileMetadata {
    pub size: u64,
    pub modified: Option<FileTime>,
}

/// One file as a request sees it: its path, its metadata, and its bytes.
pub struct FsFile {
    pub path: Vec<u8>,
    pub meta: FileMetadata,
    pub data: Vec<u8>,
}

/// The first file in the snapshot whose path equals `path` exactly.
pub open spec fn spec_find_file(files: Seq<FsFile>, path: Seq<u8>) -> Option<FsFile>
    decreases files.len(),
{
    if files.len() == 0 {
        None
    } else if files[0].path@ == path {
        Some(files[0])
    } else {
        spec_find_file(files.skip(1), path)
    }
}

/// Looks up `path` in the snapshot.
pub fn find_file<'a>(files: &'a Vec<FsFile>, path: &Vec<u8>) -> (r: Option<&'a FsFile>)
    ensures
        match spec_find_file(files@, path@) {
            Some(f) => r is Some && *r->0 == f,
            None => r is None,
        },
{
    let mut i: usize = 0;
    proof {
        assert(files@.skip(0) =~= files@);
    }
    while i < files.len()
        invariant
            0 <= i <= files.len(),
            spec_find_file(files@, path@) == spec_find_file(files@.skip(i as int), path@),
        decreases files.len() - i,
    {
        proof {
            assert(files@.skip(i as int)[0] == files@[i as int]);
            assert(files@.skip(i as int).skip(1) =~= files@.skip(i + 1));
        }
        if bytes_eq(&files[i].path, path) {
            return Some(&files[i]);
        }
        i = i + 1;
    }
    proof {
        assert(files@.skip(files.len() as int) =~= Seq::<FsFile>::empty());
    }
    None
}

} // verus!
