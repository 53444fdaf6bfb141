//! The two handlers: one serving any file under a trusted root from the
//! untrusted URL tail, one serving a single configured file. Both take
//! the request's header values and a snapshot of the relevant files and
//! return the exact response descriptor the contracts describe.

use vstd::prelude::*;

use crate::bytes::{contains_byte, has_byte, NUL, SLASH};
use crate::errors::HandlerError;
use crate::fs_model::FsFile;
use crate::negotiate::opt_view;
use crate::resolve::{join_under_root, resolve_request_path, spec_join, spec_resolve};
use crate::respond::{
    create_file_response, error_response, is_error_response, response_matches, RequestHeaders,
    ResponseDescriptor,
};

verus! {

broadcast use crate::bytes::lemma_vec_u8_deep_view;

/// Serves any file under the trusted root directory `root`.
pub struct FileSystemHandler {
    pub root: Vec<u8>,
}

/// Serves the single file at the trusted path `path`.
pub struct FileHandler {
    pub path: Vec<u8>,
}

impl FileHandler {
    /// A handler for the given file path.
    pub fn new(path: Vec<u8>) -> (h: FileHandler)
        ensures
            h.path == path,
    {
        FileHandler { path }
    }

    /// Serves the configured file from the snapshot.
    pub fn handle(&self, req: &RequestHeaders, files: &Vec<FsFile>) -> (r: ResponseDescriptor)
        ensures
            response_matches(
                r,
                self.path@,
                opt_view(req.if_none_match),
                req.if_modified_since,
                opt_view(req.accept_encoding),
                files@,
            ),
    {
        create_file_response(&self.path, req, files)
    }
}

impl FileSystemHandler {
    /// A handler for the given root directory.
    pub fn new(root: Vec<u8>) -> (h: FileSystemHandler)
        ensures
            h.root == root,
    {
        FileSystemHandler { root }
    }

    /// Resolves the untrusted tail under the root and serves the result
    /// from the snapshot; a rejected tail is reported by status alone.
    pub fn handle(&self, tail: &Vec<u8>, req: &RequestHeaders, files: &Vec<FsFile>) -> (r:
        ResponseDescriptor)
        ensures
            match spec_resolve(tail@) {
                Ok(segs) => response_matches(
                    r,
                    spec_join(self.root@, segs),
                    opt_view(req.if_none_match),
                    req.if_modified_since,
                    opt_view(req.accept_encoding),
                    files@,
                ),
                Err(e) => is_error_response(r, e),
            },
    {
        match resolve_request_path(tail) {
            Ok(segs) => {
                let path = join_under_root(&self.root, &segs);
                create_file_response(&path, req, files)
            },
            Err(e) => error_response(&e),
        }
    }
}

/// The wildcard tail of the matched route, as raw (still percent-encoded)
/// segments, in order.
pub struct FilePathExtractor {
    pub parts: Vec<Vec<u8>>,
}

/// The segments joined back into one raw tail, `/`-separated.
pub open spec fn spec_join_parts(parts: Seq<Seq<u8>>) -> Seq<u8>
    decreases parts.len(),
{
    if parts.len() == 0 {
        Seq::<u8>::empty()
    } else if parts.len() == 1 {
        parts[0]
    } else {
        parts[0] + seq![SLASH] + spec_join_parts(parts.skip(1))
    }
}

proof fn lemma_join_parts_push(parts: Seq<Seq<u8>>, x: Seq<u8>)
    ensures
        parts.len() == 0 ==> spec_join_parts(parts.push(x)) == x,
        parts.len() > 0 ==> spec_join_parts(parts.push(x)) == spec_join_parts(parts) + seq![
            SLASH,
        ] + x,
    decreases parts.len(),
{
    let p = parts.push(x);
    if parts.len() == 0 {
        assert(p.len() == 1);
        assert(p[0] == x);
    } else {
        assert(p[0] == parts[0]);
        lemma_join_parts_push(parts.skip(1), x);
        assert(p.skip(1) =~= parts.skip(1).push(x));
        if parts.len() == 1 {
            assert(parts.skip(1).len() == 0);
            assert(spec_join_parts(p) == parts[0] + seq![SLASH] + x);
            assert(spec_join_parts(parts) == parts[0]);
        } else {
            assert(spec_join_parts(p) == parts[0] + seq![SLASH] + (spec_join_parts(parts.skip(1))
                + seq![SLASH] + x));
            assert(parts[0] + seq![SLASH] + (spec_join_parts(parts.skip(1)) + seq![SLASH] + x)
                =~= (parts[0] + seq![SLASH] + spec_join_parts(parts.skip(1))) + seq![SLASH] + x);
        }
    }
}

impl FilePathExtractor {
    /// Wraps the captured wildcard segments.
    pub fn new(parts: Vec<Vec<u8>>) -> (e: FilePathExtractor)
        ensures
            e.parts == parts,
    {
        FilePathExtractor { parts }
    }

    /// The raw tail the segments came from: the parts joined with `/`.
    pub fn tail(&self) -> (t: Vec<u8>)
        ensures
            t@ == spec_join_parts(self.parts.deep_view()),
    {
        let mut t: Vec<u8> = Vec::new();
        let mut i: usize = 0;
        let ghost all = self.parts.deep_view();
        proof {
            assert(all.take(0) =~= Seq::<Seq<u8>>::empty());
        }
        while i < self.parts.len()
            invariant
                0 <= i <= self.parts.len(),
                all == self.parts.deep_view(),
                t@ == spec_join_parts(all.take(i as int)),
            decreases self.parts.len() - i,
        {
            if i > 0 {
                t.push(SLASH);
            }
            crate::bytes::append_bytes(&mut t, &self.parts[i]);
            proof {
                lemma_join_parts_push(all.take(i as int), all[i as int]);
                assert(all.take(i as int).push(all[i as int]) =~= all.take(i + 1));
                assert(all[i as int] == self.parts@[i as int]@);
            }
            i = i + 1;
        }
        proof {
            assert(all.take(self.parts.len() as int) =~= all);
        }
        t
    }

    /// A captured segment must not carry a separator or a null byte; such
    /// a segment is structurally invalid rather than a traversal attempt.
    pub fn validate(&self) -> (r: Result<(), HandlerError>)
        ensures
            r is Ok <==> forall|i: int|
                0 <= i < self.parts.deep_view().len() ==> !contains_byte(
                    #[trigger] self.parts.deep_view()[i],
                    SLASH,
                ) && !contains_byte(self.parts.deep_view()[i], NUL),
            r is Err ==> r->Err_0 == HandlerError::MalformedRequestPath,
    {
        let ghost all = self.parts.deep_view();
        let mut i: usize = 0;
        while i < self.parts.len()
            invariant
                0 <= i <= self.parts.len(),
                all == self.parts.deep_view(),
                forall|j: int|
                    0 <= j < i ==> !contains_byte(#[trigger] all[j], SLASH) && !contains_byte(
                        all[j],
                        NUL,
                    ),
            decreases self.parts.len() - i,
        {
            proof {
                assert(all[i as int] == self.parts@[i as int]@);
            }
            if has_byte(&self.parts[i], SLASH) || has_byte(&self.parts[i], NUL) {
                return Err(HandlerError::MalformedRequestPath);
            }
            i = i + 1;
        }
        Ok(())
    }
}

} // verus!
