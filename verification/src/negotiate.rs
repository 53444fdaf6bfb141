//! Content-encoding negotiation: parsing the `Accept-Encoding` header,
//! ordering the supported encodings by the client's quality values, and
//! selecting the precompressed sibling file that actually exists.
//!
//! Quality values are held in thousandths (`q=0.8` is 800), so no
//! floating point is involved. A malformed header is treated as absent,
//! which selects the identity encoding.

use vstd::prelude::*;

use crate::bytes::{
    bytes_eq, split_on, split_vec, subrange_vec, trim, trim_ows, COMMA, DOT, SEMICOLON,
};
verus! {

broadcast use crate::bytes::lemma_vec_u8_deep_view;

pub const DIGIT_ZERO: u8 = 0x30;
pub const DIGIT_ONE: u8 = 0x31;
pub const LOWER_Q: u8 = 0x71;
pub const EQUALS: u8 = 0x3d;

/// The two encodings with a precompressed sibling-file convention.
#[derive(Clone, Copy, Debug, PartialEq, Eq, Structural)]
pub enum ContentEncoding {
    Gzip,
    Brotli,
}

impl ContentEncoding {
    /// The header token of the encoding: `gzip` or `br`.
    pub open spec fn spec_token(self) -> Seq<u8> {
        match self {
            ContentEncoding::Gzip => seq![0x67u8, 0x7au8, 0x69u8, 0x70u8],
            ContentEncoding::Brotli => seq![0x62u8, 0x72u8],
        }
    }

    /// The filename suffix of the precompressed sibling: `.gz` or `.br`.
    pub open spec fn spec_suffix(self) -> Seq<u8> {
        match self {
            ContentEncoding::Gzip => seq![DOT, 0x67u8, 0x7au8],
            ContentEncoding::Brotli => seq![DOT, 0x62u8, 0x72u8],
        }
    }

    /// The header token as bytes.
    pub fn token(&self) -> (r: Vec<u8>)
        ensures
            r@ == self.spec_token(),
    {
        let mut v: Vec<u8> = Vec::new();
        match self {
            ContentEncoding::Gzip => {
                v.push(0x67);
                v.push(0x7a);
                v.push(0x69);
                v.push(0x70);
                proof {
                    assert(v@ =~= self.spec_token());
                }
            },
            ContentEncoding::Brotli => {
                v.push(0x62);
                v.push(0x72);
                proof {
                    assert(v@ =~= self.spec_token());
                }
            },
        }
        v
    }
}

/// The sibling-file suffix for an encoding.
pub fn encoding_extension(encoding: &ContentEncoding) -> (r: Vec<u8>)
    ensures
        r@ == encoding.spec_suffix(),
{
    let mut v: Vec<u8> = Vec::new();
    v.push(DOT);
    match encoding {
        ContentEncoding::Gzip => {
            v.push(0x67);
            v.push(0x7a);
        },
        ContentEncoding::Brotli => {
            v.push(0x62);
            v.push(0x72);
        },
    }
    proof {
        assert(v@ =~= encoding.spec_suffix());
    }
    v
}

pub open spec fn is_digit(b: u8) -> bool {
    0x30 <= b && b <= 0x39
}

/// An HTTP quality value in thousandths: `0`, `1`, or either followed by
/// a point and at most three digits (`1` only by zeros).
pub open spec fn spec_parse_qvalue(s: Seq<u8>) -> Option<u16> {
    if s.len() == 0 || s.len() > 5 {
        None
    } else if s[0] == DIGIT_ZERO {
        if s.len() == 1 {
            Some(0u16)
        } else if s[1] != DOT {
            None
        } else if forall|i: int| 2 <= i < s.len() ==> is_digit(#[trigger] s[i]) {
            Some(
                ((if s.len() >= 3 {
                    (s[2] - 0x30) * 100
                } else {
                    0
                }) + (if s.len() >= 4 {
                    (s[3] - 0x30) * 10
                } else {
                    0
                }) + (if s.len() >= 5 {
                    s[4] - 0x30
                } else {
                    0
                })) as u16,
            )
        } else {
            None
        }
    } else if s[0] == DIGIT_ONE {
        if s.len() == 1 {
            Some(1000u16)
        } else if s[1] != DOT {
            None
        } else if forall|i: int| 2 <= i < s.len() ==> s[i] == DIGIT_ZERO {
            Some(1000u16)
        } else {
            None
        }
    } else {
        None
    }
}

/// Parses a quality value into thousandths.
pub fn parse_qvalue(v: &Vec<u8>) -> (r: Option<u16>)
    ensures
        r == spec_parse_qvalue(v@),
{
    if v.len() == 0 || v.len() > 5 {
        return None;
    }
    if v[0] == DIGIT_ZERO {
        if v.len() == 1 {
            return Some(0);
        }
        if v[1] != DOT {
            return None;
        }
        let mut q: u16 = 0;
        if v.len() >= 3 {
            if !(DIGIT_ZERO <= v[2] && v[2] <= 0x39) {
                return None;
            }
            q = (v[2] - 0x30) as u16 * 100;
        }
        if v.len() >= 4 {
            if !(DIGIT_ZERO <= v[3] && v[3] <= 0x39) {
                return None;
            }
            q = q + (v[3] - 0x30) as u16 * 10;
        }
        if v.len() >= 5 {
            if !(DIGIT_ZERO <= v[4] && v[4] <= 0x39) {
                return None;
            }
            q = q + (v[4] - 0x30) as u16;
        }
        Some(q)
    } else if v[0] == DIGIT_ONE {
        if v.len() == 1 {
            return Some(1000);
        }
        if v[1] != DOT {
            return None;
        }
        let mut i: usize = 2;
        while i < v.len()
            invariant
                2 <= i <= v.len(),
                2 <= v@.len() <= 5,
                v@[0] == DIGIT_ONE,
                v@[1] == DOT,
                forall|j: int| 2 <= j < i ==> v@[j] == DIGIT_ZERO,
            decreases v.len() - i,
        {
            proof {
                if v@[i as int] != DIGIT_ZERO {
                    assert(!(forall|j: int| 2 <= j < v@.len() ==> v@[j] == DIGIT_ZERO)) by {
                        assert(2 <= i < v@.len() && v@[i as int] != DIGIT_ZERO);
                    }
                }
            }
            if v[i] != DIGIT_ZERO {
                return None;
            }
            i = i + 1;
        }
        Some(1000)
    } else {
        None
    }
}

/// One element of the `Accept-Encoding` list: a token and its quality in
/// thousandths (1000 when unspecified).
pub struct AcceptItem {
    pub token: Vec<u8>,
    pub q: u16,
}

pub open spec fn item_view(it: AcceptItem) -> (Seq<u8>, u16) {
    (it.token@, it.q)
}

pub open spec fn items_view(v: Seq<AcceptItem>) -> Seq<(Seq<u8>, u16)> {
    Seq::new(v.len(), |i: int| item_view(v[i]))
}

/// One element parsed: the token before any `;`, trimmed, and the value
/// of a `q=` parameter in the first parameter slot if there is one.
/// Anything else malformed rejects the element.
pub open spec fn spec_parse_item(s: Seq<u8>) -> Option<(Seq<u8>, u16)> {
    let parts = split_on(s, SEMICOLON);
    let tok = trim_ows(parts[0]);
    if tok.len() == 0 {
        None
    } else if parts.len() == 1 {
        Some((tok, 1000u16))
    } else {
        let p1 = trim_ows(parts[1]);
        if p1.len() >= 2 && p1[0] == LOWER_Q && p1[1] == EQUALS {
            match spec_parse_qvalue(p1.skip(2)) {
                Some(q) => Some((tok, q)),
                None => None,
            }
        } else {
            None
        }
    }
}

/// Parses one comma-separated element of the header.
pub fn parse_item(s: &Vec<u8>) -> (r: Option<AcceptItem>)
    ensures
        match spec_parse_item(s@) {
            Some(it) => r is Some && item_view(r->0) == it,
            None => r is None,
        },
{
    let parts = split_vec(s, SEMICOLON);
    proof {
        crate::bytes::lemma_split_on_nonempty(s@, SEMICOLON);
        assert(parts.deep_view()[0] == parts@[0]@);
    }
    let tok = trim(&parts[0]);
    if tok.len() == 0 {
        return None;
    }
    if parts.len() == 1 {
        return Some(AcceptItem { token: tok, q: 1000 });
    }
    proof {
        assert(parts.deep_view()[1] == parts@[1]@);
    }
    let p1 = trim(&parts[1]);
    if p1.len() >= 2 && p1[0] == LOWER_Q && p1[1] == EQUALS {
        let qs = subrange_vec(&p1, 2, p1.len());
        proof {
            assert(qs@ =~= p1@.skip(2));
        }
        match parse_qvalue(&qs) {
            Some(q) => Some(AcceptItem { token: tok, q }),
            None => None,
        }
    } else {
        None
    }
}

/// The parsed header: every element must parse, else the whole header is
/// malformed.
pub open spec fn spec_parse_items(parts: Seq<Seq<u8>>) -> Option<Seq<(Seq<u8>, u16)>>
    decreases parts.len(),
{
    if parts.len() == 0 {
        Some(Seq::<(Seq<u8>, u16)>::empty())
    } else {
        match (spec_parse_item(parts[0]), spec_parse_items(parts.skip(1))) {
            (Some(it), Some(rest)) => Some(seq![it] + rest),
            _ => None,
        }
    }
}

pub open spec fn spec_parse_accept(s: Seq<u8>) -> Option<Seq<(Seq<u8>, u16)>> {
    spec_parse_items(split_on(s, COMMA))
}

/// Parses the whole `Accept-Encoding` header value.
pub fn parse_accept_encoding(s: &Vec<u8>) -> (r: Option<Vec<AcceptItem>>)
    ensures
        match spec_parse_accept(s@) {
            Some(items) => r is Some && items_view(r->0@) == items,
            None => r is None,
        },
{
    let parts = split_vec(s, COMMA);
    let ghost all = parts.deep_view();
    let mut out: Vec<AcceptItem> = Vec::new();
    let mut i: usize = 0;
    proof {
        assert(all.skip(0) =~= all);
        if spec_parse_items(all) is Some {
            assert(Seq::<(Seq<u8>, u16)>::empty() + spec_parse_items(all)->0 =~=
                spec_parse_items(all)->0);
            assert(items_view(out@) =~= Seq::<(Seq<u8>, u16)>::empty());
        }
    }
    while i < parts.len()
        invariant
            0 <= i <= parts.len(),
            all == parts.deep_view(),
            all == split_on(s@, COMMA),
            parts@.len() == all.len(),
            match spec_parse_items(all.skip(i as int)) {
                Some(rest) => spec_parse_items(all) matches Some(whole) && whole == items_view(
                    out@,
                ) + rest,
                None => spec_parse_items(all) is None,
            },
        decreases parts.len() - i,
    {
        proof {
            assert(all.skip(i as int)[0] == all[i as int]);
            assert(all[i as int] == parts@[i as int]@);
            assert(all.skip(i as int).skip(1) =~= all.skip(i + 1));
        }
        match parse_item(&parts[i]) {
            Some(it) => {
                let ghost old_view = items_view(out@);
                out.push(it);
                proof {
                    assert(items_view(out@) =~= old_view.push(item_view(it)));
                    if spec_parse_items(all.skip(i + 1)) is Some {
                        let rest = spec_parse_items(all.skip(i + 1))->0;
                        assert(spec_parse_items(all.skip(i as int)) == Some(
                            seq![item_view(it)] + rest,
                        ));
                        assert(old_view + (seq![item_view(it)] + rest) =~= items_view(out@)
                            + rest);
                    }
                }
            },
            None => {
                proof {
                    assert(spec_parse_items(all.skip(i as int)) is None);
                }
                return None;
            },
        }
        i = i + 1;
    }
    proof {
        assert(all.skip(parts.len() as int) =~= Seq::<Seq<u8>>::empty());
        assert(spec_parse_items(Seq::<Seq<u8>>::empty()) == Some(
            Seq::<(Seq<u8>, u16)>::empty(),
        ));
        assert(items_view(out@) + Seq::<(Seq<u8>, u16)>::empty() =~= items_view(out@));
    }
    Some(out)
}

/// The quality of the first element with the given token, if any.
pub open spec fn spec_quality_of(items: Seq<(Seq<u8>, u16)>, tok: Seq<u8>) -> Option<u16>
    decreases items.len(),
{
    if items.len() == 0 {
        None
    } else if items[0].0 == tok {
        Some(items[0].1)
    } else {
        spec_quality_of(items.skip(1), tok)
    }
}

fn quality_of(items: &Vec<AcceptItem>, tok: &Vec<u8>) -> (r: Option<u16>)
    ensures
        r == spec_quality_of(items_view(items@), tok@),
{
    let ghost all = items_view(items@);
    let mut i: usize = 0;
    proof {
        assert(all.skip(0) =~= all);
    }
    while i < items.len()
        invariant
            0 <= i <= items.len(),
            all == items_view(items@),
            spec_quality_of(all, tok@) == spec_quality_of(all.skip(i as int), tok@),
        decreases items.len() - i,
    {
        proof {
            assert(all.skip(i as int)[0] == all[i as int]);
            assert(all.skip(i as int).skip(1) =~= all.skip(i + 1));
        }
        if bytes_eq(&items[i].token, tok) {
            return Some(items[i].q);
        }
        i = i + 1;
    }
    proof {
        assert(all.skip(items.len() as int) =~= Seq::<(Seq<u8>, u16)>::empty());
    }
    None
}

/// The candidate encodings in the order they should be tried: requested
/// encodings with a nonzero quality, by descending quality, brotli before
/// gzip on a tie.
pub open spec fn spec_ordered(qg: Option<u16>, qb: Option<u16>) -> Seq<ContentEncoding> {
    let g = qg matches Some(q) && q > 0;
    let b = qb matches Some(q) && q > 0;
    if g && b {
        if qb->0 >= qg->0 {
            seq![ContentEncoding::Brotli, ContentEncoding::Gzip]
        } else {
            seq![ContentEncoding::Gzip, ContentEncoding::Brotli]
        }
    } else if b {
        seq![ContentEncoding::Brotli]
    } else if g {
        seq![ContentEncoding::Gzip]
    } else {
        Seq::<ContentEncoding>::empty()
    }
}

pub open spec fn opt_view(o: Option<Vec<u8>>) -> Option<Seq<u8>> {
    match o {
        Some(v) => Some(v@),
        None => None,
    }
}

/// The ordered candidate encodings for an `Accept-Encoding` header; an
/// absent or malformed header yields none (the identity response).
pub open spec fn spec_candidates(accept: Option<Seq<u8>>) -> Seq<ContentEncoding> {
    match accept {
        None => Seq::<ContentEncoding>::empty(),
        Some(raw) => match spec_parse_accept(raw) {
            None => Seq::<ContentEncoding>::empty(),
            Some(items) => spec_ordered(
                spec_quality_of(items, ContentEncoding::Gzip.spec_token()),
                spec_quality_of(items, ContentEncoding::Brotli.spec_token()),
            ),
        },
    }
}

/// Computes the ordered candidate encodings for the request.
pub fn encoding_candidates(accept: &Option<Vec<u8>>) -> (r: Vec<ContentEncoding>)
    ensures
        r@ == spec_candidates(opt_view(*accept)),
{
    let mut r: Vec<ContentEncoding> = Vec::new();
    let raw = match accept {
        Some(raw) => raw,
        None => {
            proof {
                assert(r@ =~= spec_candidates(opt_view(*accept)));
            }
            return r;
        },
    };
    let items = match parse_accept_encoding(raw) {
        Some(items) => items,
        None => {
            proof {
                assert(r@ =~= spec_candidates(opt_view(*accept)));
            }
            return r;
        },
    };
    let gz_tok = ContentEncoding::Gzip.token();
    let br_tok = ContentEncoding::Brotli.token();
    let qg = quality_of(&items, &gz_tok);
    let qb = quality_of(&items, &br_tok);
    let g = match qg {
        Some(q) => q > 0,
        None => false,
    };
    let b = match qb {
        Some(q) => q > 0,
        None => false,
    };
    if g && b {
        let qgv = match qg {
            Some(q) => q,
            None => 0,
        };
        let qbv = match qb {
            Some(q) => q,
            None => 0,
        };
        if qbv >= qgv {
            r.push(ContentEncoding::Brotli);
            r.push(ContentEncoding::Gzip);
        } else {
            r.push(ContentEncoding::Gzip);
            r.push(ContentEncoding::Brotli);
        }
    } else if b {
        r.push(ContentEncoding::Brotli);
    } else if g {
        r.push(ContentEncoding::Gzip);
    }
    proof {
        assert(r@ =~= spec_candidates(opt_view(*accept)));
    }
    r
}

/// A (path, optional encoding) pair naming the on-disk file to read.
pub struct FileVariant {
    pub path: Vec<u8>,
    pub encoding: Option<ContentEncoding>,
}

/// The base path with the encoding's suffix appended.
pub fn variant_path(base: &Vec<u8>, encoding: &ContentEncoding) -> (r: Vec<u8>)
    ensures
        r@ == base@ + encoding.spec_suffix(),
{
    let mut r = crate::bytes::copy_bytes(base);
    let suffix = encoding_extension(encoding);
    crate::bytes::append_bytes(&mut r, &suffix);
    r
}

/// Which variant is used, given which candidate sibling files exist: the
/// first candidate whose sibling exists, else the base file with no
/// encoding label.
pub open spec fn spec_select(base: Seq<u8>, cands: Seq<ContentEncoding>, exists: Seq<bool>) -> (
    Seq<u8>,
    Option<ContentEncoding>,
)
    decreases cands.len(),
{
    if cands.len() == 0 || exists.len() == 0 {
        (base, None::<ContentEncoding>)
    } else if exists[0] {
        (base + cands[0].spec_suffix(), Some(cands[0]))
    } else {
        spec_select(base, cands.skip(1), exists.skip(1))
    }
}

/// An encoding label is only ever selected for a sibling that exists; a
/// variant with no label is the base file itself.
pub proof fn lemma_select_sound(base: Seq<u8>, cands: Seq<ContentEncoding>, exists: Seq<bool>)
    requires
        cands.len() == exists.len(),
    ensures
        match spec_select(base, cands, exists) {
            (p, Some(e)) => exists|j: int|
                0 <= j < cands.len() && cands[j] == e && exists[j] && p == base + e.spec_suffix(),
            (p, None) => p == base,
        },
    decreases cands.len(),
{
    if cands.len() > 0 && !exists[0] {
        lemma_select_sound(base, cands.skip(1), exists.skip(1));
        match spec_select(base, cands.skip(1), exists.skip(1)) {
            (p, Some(e)) => {
                let j = choose|j: int|
                    0 <= j < cands.skip(1).len() && cands.skip(1)[j] == e && exists.skip(1)[j]
                        && p == base + e.spec_suffix();
                assert(cands[j + 1] == e && exists[j + 1]);
            },
            (p, None) => {},
        }
    }
}

/// Picks the variant to serve: the first candidate whose sibling file
/// exists (`exists` answers that, in candidate order), else the base.
pub fn check_compressed_files(
    base: &Vec<u8>,
    cands: &Vec<ContentEncoding>,
    exists: &Vec<bool>,
) -> (r: FileVariant)
    requires
        cands@.len() == exists@.len(),
    ensures
        r.path@ == spec_select(base@, cands@, exists@).0,
        r.encoding == spec_select(base@, cands@, exists@).1,
{
    let mut i: usize = 0;
    proof {
        assert(cands@.skip(0) =~= cands@);
        assert(exists@.skip(0) =~= exists@);
    }
    while i < cands.len()
        invariant
            0 <= i <= cands.len(),
            cands@.len() == exists@.len(),
            spec_select(base@, cands@, exists@) == spec_select(
                base@,
                cands@.skip(i as int),
                exists@.skip(i as int),
            ),
        decreases cands.len() - i,
    {
        proof {
            assert(cands@.skip(i as int)[0] == cands@[i as int]);
            assert(exists@.skip(i as int)[0] == exists@[i as int]);
            assert(cands@.skip(i as int).skip(1) =~= cands@.skip(i + 1));
            assert(exists@.skip(i as int).skip(1) =~= exists@.skip(i + 1));
        }
        if exists[i] {
            return FileVariant {
                path: variant_path(base, &cands[i]),
                encoding: Some(cands[i]),
            };
        }
        i = i + 1;
    }
    proof {
        assert(cands@.skip(cands.len() as int) =~= Seq::<ContentEncoding>::empty());
    }
    FileVariant { path: crate::bytes::copy_bytes(base), encoding: None }
}

} // verus!
