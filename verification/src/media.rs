//! Media-type resolution: extracting the extension of the file name at
//! the end of a path and mapping it to a MIME type through the
//! `mime_guess` table, with `application/octet-stream` as the fallback
//! for unknown or missing extensions.

use vstd::prelude::*;

use crate::bytes::{contains_byte, subrange_vec, DOT, SLASH};

verus! {

/// The file-name portion of a path: everything after the last `/`.
pub open spec fn file_name(p: Seq<u8>) -> Seq<u8>
    decreases p.len(),
{
    if p.len() == 0 {
        Seq::<u8>::empty()
    } else if p[p.len() - 1] == SLASH {
        Seq::<u8>::empty()
    } else {
        file_name(p.take(p.len() - 1)).push(p[p.len() - 1])
    }
}

/// The extension of a file name: what follows the last `.`, provided that
/// dot is not the first character of the name.
pub open spec fn ext_scan(s: Seq<u8>) -> Option<Seq<u8>>
    decreases s.len(),
{
    if s.len() <= 1 {
        None
    } else if s[s.len() - 1] == DOT {
        Some(Seq::<u8>::empty())
    } else {
        match ext_scan(s.take(s.len() - 1)) {
            Some(e) => Some(e.push(s[s.len() - 1])),
            None => None,
        }
    }
}

/// The extension of the file name at the end of `p`, if any.
pub open spec fn ext_of(p: Seq<u8>) -> Option<Seq<u8>> {
    ext_scan(file_name(p))
}

/// What the `mime_guess` table returns for an extension. The table is
/// fixed at compile time, so the result is a function of the extension
/// bytes alone.
pub uninterp spec fn mime_lookup(ext: Seq<u8>) -> Option<Seq<u8>>;

/// Relies on mime_guess::get_mime_type_str: a fixed, case-insensitive
/// table lookup from a file extension to the media-type string, `None`
/// when the extension is empty or unknown.
#[verifier::external_body]
fn guess_mime_ext(ext: &Vec<u8>) -> (r: Option<Vec<u8>>)
    ensures
        r is Some <==> mime_lookup(ext@) is Some,
        r is Some ==> r->0@ == mime_lookup(ext@)->0,
{
    core::str::from_utf8(ext.as_slice())
        .ok()
        .and_then(mime_guess::get_mime_type_str)
        .map(|m| m.as_bytes().to_vec())
}

/// The bytes of `application/octet-stream`.
pub open spec fn octet_stream() -> Seq<u8> {
    seq![
        0x61u8, 0x70u8, 0x70u8, 0x6cu8, 0x69u8, 0x63u8, 0x61u8, 0x74u8, 0x69u8, 0x6fu8, 0x6eu8,
        0x2fu8, 0x6fu8, 0x63u8, 0x74u8, 0x65u8, 0x74u8, 0x2du8, 0x73u8, 0x74u8, 0x72u8, 0x65u8,
        0x61u8, 0x6du8,
    ]
}

/// Builds the generic `application/octet-stream` type.
pub fn octet_stream_bytes() -> (r: Vec<u8>)
    ensures
        r@ == octet_stream(),
{
    let mut v: Vec<u8> = Vec::new();
    v.push(0x61);
    v.push(0x70);
    v.push(0x70);
    v.push(0x6c);
    v.push(0x69);
    v.push(0x63);
    v.push(0x61);
    v.push(0x74);
    v.push(0x69);
    v.push(0x6f);
    v.push(0x6e);
    v.push(0x2f);
    v.push(0x6f);
    v.push(0x63);
    v.push(0x74);
    v.push(0x65);
    v.push(0x74);
    v.push(0x2d);
    v.push(0x73);
    v.push(0x74);
    v.push(0x72);
    v.push(0x65);
    v.push(0x61);
    v.push(0x6d);
    proof {
        assert(v@ =~= octet_stream());
    }
    v
}

/// The media type served for a path: the table's answer for the file
/// name's extension, else the generic octet-stream type.
pub open spec fn spec_mime_for(p: Seq<u8>) -> Seq<u8> {
    match ext_of(p) {
        None => octet_stream(),
        Some(e) => match mime_lookup(e) {
            None => octet_stream(),
            Some(m) => m,
        },
    }
}

proof fn lemma_file_name_suffix(a: Seq<u8>, b: Seq<u8>)
    requires
        !contains_byte(b, SLASH),
    ensures
        file_name(a + b) == file_name(a) + b,
    decreases b.len(),
{
    if b.len() == 0 {
        assert(a + b =~= a);
        assert(file_name(a) + b =~= file_name(a));
    } else {
        let s = a + b;
        assert(s[s.len() - 1] == b[b.len() - 1]);
        assert(b[b.len() - 1] != SLASH);
        assert(!contains_byte(b.drop_last(), SLASH)) by {
            assert(forall|i: int|
                0 <= i < b.drop_last().len() ==> b.drop_last()[i] == b[i] && b[i] != SLASH);
        }
        lemma_file_name_suffix(a, b.drop_last());
        assert(s.take(s.len() - 1) =~= a + b.drop_last());
        assert((file_name(a) + b.drop_last()).push(b[b.len() - 1]) =~= file_name(a) + b);
    }
}

proof fn lemma_ext_scan_suffix(a: Seq<u8>, b: Seq<u8>)
    requires
        a.len() >= 2,
        a[a.len() - 1] == DOT,
        !contains_byte(b, DOT),
    ensures
        ext_scan(a + b) == Some(b),
    decreases b.len(),
{
    if b.len() == 0 {
        assert(a + b =~= a);
        assert(ext_scan(a) == Some(Seq::<u8>::empty()));
        assert(b =~= Seq::<u8>::empty());
    } else {
        let s = a + b;
        assert(s[s.len() - 1] == b[b.len() - 1]);
        assert(b[b.len() - 1] != DOT);
        assert(!contains_byte(b.drop_last(), DOT)) by {
            assert(forall|i: int|
                0 <= i < b.drop_last().len() ==> b.drop_last()[i] == b[i] && b[i] != DOT);
        }
        lemma_ext_scan_suffix(a, b.drop_last());
        assert(s.take(s.len() - 1) =~= a + b.drop_last());
        assert(b.drop_last().push(b[b.len() - 1]) =~= b);
    }
}

proof fn lemma_ext_scan_none(s: Seq<u8>)
    requires
        forall|i: int| 1 <= i < s.len() ==> s[i] != DOT,
    ensures
        ext_scan(s) is None,
    decreases s.len(),
{
    if s.len() > 1 {
        assert(s[s.len() - 1] != DOT);
        let t = s.take(s.len() - 1);
        assert(forall|i: int| 1 <= i < t.len() ==> #[trigger] t[i] != DOT);
        lemma_ext_scan_none(t);
    }
}

/// The media type for the file at `path`, guessed from the extension of
/// its file name, falling back to the generic octet-stream type.
#[verifier::rlimit(80)]
pub fn mime_for_path(path: &Vec<u8>) -> (r: Vec<u8>)
    ensures
        r@ == spec_mime_for(path@),
{
    // Start of the file name: just past the last separator.
    let mut n0: usize = path.len();
    while n0 > 0 && path[n0 - 1] != SLASH
        invariant
            0 <= n0 <= path.len(),
            forall|k: int| n0 <= k < path@.len() ==> path@[k] != SLASH,
        decreases n0,
    {
        n0 = n0 - 1;
    }
    proof {
        assert(!contains_byte(path@.skip(n0 as int), SLASH)) by {
            assert(forall|i: int|
                0 <= i < path@.skip(n0 as int).len() ==> path@.skip(n0 as int)[i] == path@[n0 + i]
                    && path@[n0 + i] != SLASH);
        }
        lemma_file_name_suffix(path@.take(n0 as int), path@.skip(n0 as int));
        assert(path@.take(n0 as int) + path@.skip(n0 as int) =~= path@);
        if n0 > 0 {
            assert(path@.take(n0 as int)[n0 - 1] == SLASH);
            assert(file_name(path@.take(n0 as int)) == Seq::<u8>::empty());
        } else {
            assert(path@.take(0) =~= Seq::<u8>::empty());
        }
        assert(Seq::<u8>::empty() + path@.skip(n0 as int) =~= path@.skip(n0 as int));
        assert(file_name(path@) == path@.skip(n0 as int));
    }
    // Last dot strictly inside the file name.
    let mut k: usize = path.len();
    while k > n0 && k - n0 > 1 && path[k - 1] != DOT
        invariant
            n0 <= k <= path.len(),
            forall|j: int| k <= j < path@.len() ==> path@[j] != DOT,
        decreases k,
    {
        k = k - 1;
    }
    let ghost name = path@.skip(n0 as int);
    if k > n0 && k - n0 > 1 {
        // path[k - 1] is a dot at position >= 1 of the file name.
        let ext = subrange_vec(path, k, path.len());
        proof {
            let a = path@.subrange(n0 as int, k as int);
            let b = path@.subrange(k as int, path@.len() as int);
            assert(a.len() >= 2);
            assert(a[a.len() - 1] == path@[k - 1]);
            assert(path@[k - 1] == DOT);
            assert(!contains_byte(b, DOT)) by {
                assert(forall|i: int|
                    0 <= i < b.len() ==> b[i] == path@[k + i] && path@[k + i] != DOT);
            }
            lemma_ext_scan_suffix(a, b);
            assert(a + b =~= name);
            assert(ext_of(path@) == Some(b));
            assert(ext@ == b);
        }
        match guess_mime_ext(&ext) {
            Some(m) => m,
            None => octet_stream_bytes(),
        }
    } else {
        proof {
            assert(forall|i: int| 1 <= i < name.len() ==> name[i] == path@[n0 + i] && path@[n0
                + i] != DOT);
            lemma_ext_scan_none(name);
            assert(ext_of(path@) is None);
        }
        octet_stream_bytes()
    }
}

} // verus!
