//! Response composition: the full per-request flow over a snapshot of the
//! filesystem. Negotiation picks the variant, the conditional evaluator
//! decides Fresh or NotModified, and the composer assembles the status,
//! headers and body of the response descriptor.

use vstd::prelude::*;

use crate::bytes::{copy_bytes, split_on, split_vec, trim, trim_ows, COMMA, STAR};
use crate::conditional::{entity_tag, etag_bytes, not_modified, spec_tag_in, IfNoneMatch};
use crate::errors::{error_status, spec_error_status, HandlerError, Status};
use crate::fs_model::{find_file, spec_find_file, FileMetadata, FileTime, FsFile};
use crate::media::{mime_for_path, spec_mime_for};
use crate::negotiate::{
    check_compressed_files, encoding_candidates, opt_view, spec_candidates, spec_select,
    ContentEncoding,
};

verus! {

broadcast use crate::bytes::lemma_vec_u8_deep_view;

/// The raw values of the three request headers this subsystem reads.
/// `If-Modified-Since` arrives already converted to whole seconds since
/// the epoch; the other two are raw header bytes.
pub struct RequestHeaders {
    pub if_none_match: Option<Vec<u8>>,
    pub if_modified_since: Option<u64>,
    pub accept_encoding: Option<Vec<u8>>,
}

/// What is handed back to the transport: a status, the few headers this
/// subsystem emits, and the body bytes (empty for anything but 200).
pub struct ResponseDescriptor {
    pub status: Status,
    pub content_type: Option<Vec<u8>>,
    pub content_encoding: Option<Vec<u8>>,
    pub etag: Option<Vec<u8>>,
    pub last_modified: Option<FileTime>,
    pub body: Vec<u8>,
}

/// A raw `If-None-Match` value that is exactly the wildcard.
pub open spec fn spec_inm_is_wildcard(raw: Seq<u8>) -> bool {
    trim_ows(raw) == seq![STAR]
}

/// The tags listed in a raw `If-None-Match` value: comma-separated,
/// each trimmed of optional whitespace.
pub open spec fn spec_inm_tags(raw: Seq<u8>) -> Seq<Seq<u8>> {
    split_on(raw, COMMA).map_values(|p: Seq<u8>| trim_ows(p))
}

/// Parses a raw `If-None-Match` header value.
pub fn parse_if_none_match(raw: &Vec<u8>) -> (r: IfNoneMatch)
    ensures
        spec_inm_is_wildcard(raw@) ==> r matches IfNoneMatch::Any,
        !spec_inm_is_wildcard(raw@) ==> (r matches IfNoneMatch::Items(v) && v.deep_view()
            == spec_inm_tags(raw@)),
{
    let t = trim(raw);
    if t.len() == 1 && t[0] == STAR {
        proof {
            assert(t@ =~= seq![STAR]);
        }
        return IfNoneMatch::Any;
    }
    proof {
        if trim_ows(raw@) == seq![STAR] {
            assert(t@.len() == 1 && t@[0] == STAR);
        }
    }
    let parts = split_vec(raw, COMMA);
    let ghost all = parts.deep_view();
    let mut out: Vec<Vec<u8>> = Vec::new();
    let mut i: usize = 0;
    proof {
        assert(out.deep_view() =~= spec_inm_tags(raw@).take(0));
    }
    while i < parts.len()
        invariant
            0 <= i <= parts.len(),
            all == parts.deep_view(),
            all == split_on(raw@, COMMA),
            parts@.len() == all.len(),
            out.deep_view() == spec_inm_tags(raw@).take(i as int),
        decreases parts.len() - i,
    {
        proof {
            assert(all[i as int] == parts@[i as int]@);
        }
        let piece = trim(&parts[i]);
        let ghost old_deep = out.deep_view();
        out.push(piece);
        proof {
            assert(out.deep_view() =~= old_deep.push(piece@));
            assert(spec_inm_tags(raw@)[i as int] == trim_ows(all[i as int]));
            assert(out.deep_view() =~= spec_inm_tags(raw@).take(i + 1));
        }
        i = i + 1;
    }
    proof {
        assert(spec_inm_tags(raw@).take(parts.len() as int) =~= spec_inm_tags(raw@));
    }
    IfNoneMatch::Items(out)
}

/// The Fresh / NotModified decision over the raw header values: a present
/// `If-None-Match` decides alone (wildcard, or a listed tag equal to the
/// file's current tag); otherwise `If-Modified-Since` compares against
/// the file's whole-second modified time.
pub open spec fn spec_decision(
    meta: FileMetadata,
    inm_raw: Option<Seq<u8>>,
    ims: Option<u64>,
) -> bool {
    match inm_raw {
        Some(raw) => spec_inm_is_wildcard(raw) || (meta.modified matches Some(t) && spec_tag_in(
            spec_inm_tags(raw),
            etag_bytes(meta.size, t.secs, t.nanos),
        )),
        None => meta.modified matches Some(t) && (ims matches Some(limit) && t.secs <= limit),
    }
}

/// A failure response: the mapped status code, no headers, empty body.
pub open spec fn is_error_response(r: ResponseDescriptor, e: HandlerError) -> bool {
    r.status == spec_error_status(e) && r.content_type is None && r.content_encoding is None
        && r.etag is None && r.last_modified is None && r.body@ == Seq::<u8>::empty()
}

/// Builds the response that reports a failure.
pub fn error_response(e: &HandlerError) -> (r: ResponseDescriptor)
    ensures
        is_error_response(r, *e),
{
    ResponseDescriptor {
        status: error_status(e),
        content_type: None,
        content_encoding: None,
        etag: None,
        last_modified: None,
        body: Vec::new(),
    }
}

/// Which candidate sibling files exist in the snapshot, in candidate
/// order.
pub open spec fn spec_exists_flags(
    base: Seq<u8>,
    cands: Seq<ContentEncoding>,
    files: Seq<FsFile>,
) -> Seq<bool> {
    Seq::new(cands.len(), |j: int| spec_find_file(files, base + cands[j].spec_suffix()) is Some)
}

pub open spec fn spec_enc_view(e: Option<ContentEncoding>) -> Option<Seq<u8>> {
    match e {
        Some(c) => Some(c.spec_token()),
        None => None,
    }
}

/// The exact response for a request, as a predicate over the descriptor:
/// the variant is the first candidate whose sibling exists; a missing
/// file is not-found; a NotModified decision yields 304 with no body and
/// no validator headers; otherwise 200 with the file's bytes, the media
/// type of the base path, the negotiated encoding label, and the
/// validators derived from the metadata.
pub open spec fn response_matches(
    r: ResponseDescriptor,
    base: Seq<u8>,
    inm: Option<Seq<u8>>,
    ims: Option<u64>,
    accept: Option<Seq<u8>>,
    files: Seq<FsFile>,
) -> bool {
    let cands = spec_candidates(accept);
    let sel = spec_select(base, cands, spec_exists_flags(base, cands, files));
    match spec_find_file(files, sel.0) {
        None => is_error_response(r, HandlerError::ResourceNotFound),
        Some(f) => if spec_decision(f.meta, inm, ims) {
            r.status == Status::NotModified && r.content_type is None && r.content_encoding
                is None && r.etag is None && r.last_modified is None && r.body@
                == Seq::<u8>::empty()
        } else {
            r.status == Status::Okay && r.body@ == f.data@ && opt_view(r.content_type) == Some(
                spec_mime_for(base),
            ) && opt_view(r.content_encoding) == spec_enc_view(sel.1) && (match f.meta.modified {
                Some(t) => opt_view(r.etag) == Some(etag_bytes(f.meta.size, t.secs, t.nanos))
                    && r.last_modified == Some(t),
                None => r.etag is None && r.last_modified is None,
            })
        },
    }
}

/// The file the response predicate says is served: the first candidate
/// sibling that exists, else the base file.
pub open spec fn spec_served_file(
    base: Seq<u8>,
    accept: Option<Seq<u8>>,
    files: Seq<FsFile>,
) -> Option<FsFile> {
    let cands = spec_candidates(accept);
    spec_find_file(files, spec_select(base, cands, spec_exists_flags(base, cands, files)).0)
}

/// A request whose `If-None-Match` lists the served file's current entity
/// tag gets NotModified with an empty body, whatever `If-Modified-Since`
/// says; one whose list misses it (and is not the wildcard) gets the full
/// body with status 200.
pub proof fn lemma_if_none_match_law(
    r: ResponseDescriptor,
    base: Seq<u8>,
    raw: Seq<u8>,
    ims: Option<u64>,
    accept: Option<Seq<u8>>,
    files: Seq<FsFile>,
)
    requires
        response_matches(r, base, Some(raw), ims, accept, files),
        !spec_inm_is_wildcard(raw),
        spec_served_file(base, accept, files) matches Some(f) && f.meta.modified is Some,
    ensures
        ({
            let f = spec_served_file(base, accept, files)->0;
            let tag = etag_bytes(f.meta.size, f.meta.modified->0.secs, f.meta.modified->0.nanos);
            &&& spec_tag_in(spec_inm_tags(raw), tag) ==> r.status == Status::NotModified
                && r.body@ == Seq::<u8>::empty()
            &&& !spec_tag_in(spec_inm_tags(raw), tag) ==> r.status == Status::Okay && r.body@
                == f.data@
        }),
{
}

/// With no `If-None-Match`, an `If-Modified-Since` at or after the served
/// file's whole-second modified time gets NotModified with an empty
/// body; a strictly earlier one gets the full body with status 200.
pub proof fn lemma_if_modified_since_law(
    r: ResponseDescriptor,
    base: Seq<u8>,
    limit: u64,
    accept: Option<Seq<u8>>,
    files: Seq<FsFile>,
)
    requires
        response_matches(r, base, None, Some(limit), accept, files),
        spec_served_file(base, accept, files) matches Some(f) && f.meta.modified is Some,
    ensures
        ({
            let f = spec_served_file(base, accept, files)->0;
            &&& f.meta.modified->0.secs <= limit ==> r.status == Status::NotModified && r.body@
                == Seq::<u8>::empty()
            &&& f.meta.modified->0.secs > limit ==> r.status == Status::Okay && r.body@
                == f.data@
        }),
{
}

/// When gzip is the only acceptable encoding: if the `.gz` sibling
/// exists, a fresh response carries the gzip label and exactly the
/// sibling's bytes; if it does not, a fresh response has no encoding
/// label and exactly the base file's bytes.
pub proof fn lemma_gzip_negotiation_law(
    r: ResponseDescriptor,
    base: Seq<u8>,
    inm: Option<Seq<u8>>,
    ims: Option<u64>,
    accept: Option<Seq<u8>>,
    files: Seq<FsFile>,
)
    requires
        response_matches(r, base, inm, ims, accept, files),
        spec_candidates(accept) == seq![ContentEncoding::Gzip],
    ensures
        spec_find_file(files, base + ContentEncoding::Gzip.spec_suffix()) matches Some(g) ==> (
        !spec_decision(g.meta, inm, ims) ==> r.status == Status::Okay && opt_view(
            r.content_encoding,
        ) == Some(ContentEncoding::Gzip.spec_token()) && r.body@ == g.data@),
        spec_find_file(files, base + ContentEncoding::Gzip.spec_suffix()) is None ==> match
            spec_find_file(files, base) {
            Some(f) => !spec_decision(f.meta, inm, ims) ==> r.status == Status::Okay
                && r.content_encoding is None && r.body@ == f.data@,
            None => is_error_response(r, HandlerError::ResourceNotFound),
        },
{
    let cands = spec_candidates(accept);
    let flags = spec_exists_flags(base, cands, files);
    assert(cands.len() == 1 && cands[0] == ContentEncoding::Gzip);
    assert(flags.len() == 1);
    assert(flags[0] == (spec_find_file(files, base + ContentEncoding::Gzip.spec_suffix())
        is Some));
    if flags[0] {
        assert(spec_select(base, cands, flags) == (
            base + ContentEncoding::Gzip.spec_suffix(),
            Some(ContentEncoding::Gzip),
        ));
    } else {
        assert(cands.skip(1).len() == 0);
        assert(spec_select(base, cands.skip(1), flags.skip(1)) == (
            base,
            None::<ContentEncoding>,
        ));
    }
}

/// Adds the cache-validator headers derived from the file's metadata to
/// a response: the weak entity tag and the last-modified time, each only
/// when the modified time is available.
pub fn append_headers(res: ResponseDescriptor, metadata: &FileMetadata) -> (r: ResponseDescriptor)
    ensures
        r.status == res.status,
        r.content_type == res.content_type,
        r.content_encoding == res.content_encoding,
        r.body == res.body,
        match metadata.modified {
            Some(t) => opt_view(r.etag) == Some(etag_bytes(metadata.size, t.secs, t.nanos))
                && r.last_modified == Some(t),
            None => r.etag is None && r.last_modified is None,
        },
{
    let tag = entity_tag(metadata);
    ResponseDescriptor {
        status: res.status,
        content_type: res.content_type,
        content_encoding: res.content_encoding,
        etag: tag,
        last_modified: metadata.modified,
        body: res.body,
    }
}

/// Serves the file at `path` (or a precompressed sibling) from the
/// snapshot, honoring the conditional and negotiation headers.
pub fn create_file_response(
    path: &Vec<u8>,
    req: &RequestHeaders,
    files: &Vec<FsFile>,
) -> (r: ResponseDescriptor)
    ensures
        response_matches(
            r,
            path@,
            opt_view(req.if_none_match),
            req.if_modified_since,
            opt_view(req.accept_encoding),
            files@,
        ),
{
    let cands = encoding_candidates(&req.accept_encoding);
    let mut flags: Vec<bool> = Vec::new();
    let mut i: usize = 0;
    let ghost spec_flags = spec_exists_flags(path@, cands@, files@);
    while i < cands.len()
        invariant
            0 <= i <= cands.len(),
            spec_flags == spec_exists_flags(path@, cands@, files@),
            flags@ == spec_flags.take(i as int),
        decreases cands.len() - i,
    {
        let vp = crate::negotiate::variant_path(path, &cands[i]);
        let present = match find_file(files, &vp) {
            Some(_) => true,
            None => false,
        };
        proof {
            assert(vp@ == path@ + cands@[i as int].spec_suffix());
            assert(spec_flags[i as int] == (spec_find_file(files@, vp@) is Some));
        }
        flags.push(present);
        proof {
            assert(flags@ =~= spec_flags.take(i + 1));
        }
        i = i + 1;
    }
    proof {
        assert(flags@ =~= spec_flags);
    }
    let variant = check_compressed_files(path, &cands, &flags);
    let ghost sel = spec_select(path@, cands@, spec_flags);
    match find_file(files, &variant.path) {
        None => {
            let e = HandlerError::ResourceNotFound;
            error_response(&e)
        },
        Some(f) => {
            let inm: Option<IfNoneMatch> = match &req.if_none_match {
                Some(raw) => Some(parse_if_none_match(raw)),
                None => None,
            };
            let fresh_meta = f.meta;
            let nm = not_modified(&fresh_meta, &inm, &req.if_modified_since);
            proof {
                assert(nm == spec_decision(
                    fresh_meta,
                    opt_view(req.if_none_match),
                    req.if_modified_since,
                )) by {
                    match req.if_none_match {
                        Some(raw) => {
                            if spec_inm_is_wildcard(raw@) {
                                assert(inm matches Some(h) && h matches IfNoneMatch::Any);
                            } else {
                                assert(inm matches Some(h) && h matches IfNoneMatch::Items(v)
                                    && v.deep_view() == spec_inm_tags(raw@));
                            }
                        },
                        None => {},
                    }
                }
            }
            if nm {
                ResponseDescriptor {
                    status: Status::NotModified,
                    content_type: None,
                    content_encoding: None,
                    etag: None,
                    last_modified: None,
                    body: Vec::new(),
                }
            } else {
                let body = copy_bytes(&f.data);
                let ct = mime_for_path(path);
                let enc_hdr: Option<Vec<u8>> = match &variant.encoding {
                    Some(e) => Some(e.token()),
                    None => None,
                };
                let res = ResponseDescriptor {
                    status: Status::Okay,
                    content_type: Some(ct),
                    content_encoding: enc_hdr,
                    etag: None,
                    last_modified: None,
                    body,
                };
                append_headers(res, &fresh_meta)
            }
        },
    }
}

} // verus!
