//! Conditional-cache evaluation: a weak entity tag derived from file
//! metadata, and the Fresh / NotModified decision from the
//! `If-None-Match` and `If-Modified-Since` validators.
//!
//! The tag is a pure function of (size, modified time); the injectivity
//! lemma below shows that it changes whenever any of the inputs changes.

use vstd::prelude::*;

use crate::bytes::{bytes_eq, DOT, HYPHEN, QUOTE, SLASH, UPPER_W};
use crate::fs_model::FileMetadata;

verus! {

broadcast use crate::bytes::lemma_vec_u8_deep_view;

/// The lowercase hexadecimal digit for a nibble.
pub open spec fn hex_digit(n: u8) -> u8
    recommends
        n < 16,
{
    if n < 10 {
        (0x30 + n) as u8
    } else {
        (0x61 + n - 10) as u8
    }
}

/// The lowercase hexadecimal rendering of `n`, most significant digit
/// first, no leading zeros (zero itself is "0").
pub open spec fn hex_of(n: u64) -> Seq<u8>
    decreases n,
{
    if n < 16 {
        seq![hex_digit(n as u8)]
    } else {
        hex_of(n / 16).push(hex_digit((n % 16) as u8))
    }
}

fn hex_digit_exec(n: u8) -> (r: u8)
    requires
        n < 16,
    ensures
        r == hex_digit(n),
{
    if n < 10 {
        0x30 + n
    } else {
        0x61 + n - 10
    }
}

/// Renders `n` in lowercase hexadecimal.
pub fn hex_bytes(n: u64) -> (r: Vec<u8>)
    ensures
        r@ == hex_of(n),
    decreases n,
{
    if n < 16 {
        let mut v: Vec<u8> = Vec::new();
        v.push(hex_digit_exec(n as u8));
        proof {
            assert(v@ =~= seq![hex_digit(n as u8)]);
        }
        v
    } else {
        let mut v = hex_bytes(n / 16);
        v.push(hex_digit_exec((n % 16) as u8));
        v
    }
}

pub open spec fn is_hex_digit(b: u8) -> bool {
    (0x30 <= b && b <= 0x39) || (0x61 <= b && b <= 0x66)
}

pub open spec fn all_hex(s: Seq<u8>) -> bool {
    forall|i: int| 0 <= i < s.len() ==> is_hex_digit(#[trigger] s[i])
}

spec fn digit_val(b: u8) -> int {
    if b <= 0x39 {
        b - 0x30
    } else {
        b - 0x61 + 10
    }
}

spec fn unhex(s: Seq<u8>) -> int
    decreases s.len(),
{
    if s.len() == 0 {
        0
    } else {
        unhex(s.drop_last()) * 16 + digit_val(s.last())
    }
}

proof fn lemma_hex_of_all_hex(n: u64)
    ensures
        all_hex(hex_of(n)),
    decreases n,
{
    if n < 16 {
        assert(is_hex_digit(hex_digit(n as u8)));
    } else {
        lemma_hex_of_all_hex(n / 16);
        let h = hex_of(n / 16);
        assert(is_hex_digit(hex_digit((n % 16) as u8)));
        assert(forall|i: int|
            0 <= i < h.push(hex_digit((n % 16) as u8)).len() ==> is_hex_digit(
                #[trigger] h.push(hex_digit((n % 16) as u8))[i],
            ));
    }
}

/// The hexadecimal rendering decodes back to the number it came from.
proof fn lemma_unhex_hex(n: u64)
    ensures
        unhex(hex_of(n)) == n,
    decreases n,
{
    if n < 16 {
        let s = hex_of(n);
        assert(s == seq![hex_digit(n as u8)]);
        assert(s.drop_last() =~= Seq::<u8>::empty());
        assert(s.last() == hex_digit(n as u8));
        assert(unhex(Seq::<u8>::empty()) == 0);
        assert(digit_val(hex_digit(n as u8)) == n);
        assert(unhex(s) == unhex(s.drop_last()) * 16 + digit_val(s.last()));
    } else {
        lemma_unhex_hex(n / 16);
        let h = hex_of(n / 16);
        let d = hex_digit((n % 16) as u8);
        assert(h.push(d).drop_last() =~= h);
        assert(h.push(d).last() == d);
        assert(digit_val(d) == n % 16);
        assert(unhex(hex_of(n)) == unhex(h) * 16 + n % 16);
        assert((n / 16) * 16 + n % 16 == n) by {
            vstd::arithmetic::div_mod::lemma_fundamental_div_mod(n as int, 16);
        }
    }
}

/// Hexadecimal rendering is injective.
proof fn lemma_hex_injective(a: u64, b: u64)
    requires
        hex_of(a) == hex_of(b),
    ensures
        a == b,
{
    lemma_unhex_hex(a);
    lemma_unhex_hex(b);
}

/// The weak entity tag derived from metadata: `W/"` then the size, the
/// whole seconds and the nanosecond remainder of the modified time, each
/// in hexadecimal, separated by `-` and `.`, then a closing quote.
pub open spec fn etag_bytes(size: u64, secs: u64, nanos: u32) -> Seq<u8> {
    seq![UPPER_W, SLASH, QUOTE] + (hex_of(size) + seq![HYPHEN] + (hex_of(secs) + seq![DOT] + (
    hex_of(nanos as u64) + seq![QUOTE])))
}

/// Computes the weak entity tag for the file's metadata; there is none
/// when the modified time is unavailable.
pub fn entity_tag(meta: &FileMetadata) -> (r: Option<Vec<u8>>)
    ensures
        match meta.modified {
            Some(t) => r is Some && r->0@ == etag_bytes(meta.size, t.secs, t.nanos),
            None => r is None,
        },
{
    match meta.modified {
        Some(t) => {
            let mut v: Vec<u8> = Vec::new();
            v.push(UPPER_W);
            v.push(SLASH);
            v.push(QUOTE);
            let mut h1 = hex_bytes(meta.size);
            v.append(&mut h1);
            v.push(HYPHEN);
            let mut h2 = hex_bytes(t.secs);
            v.append(&mut h2);
            v.push(DOT);
            let mut h3 = hex_bytes(t.nanos as u64);
            v.append(&mut h3);
            v.push(QUOTE);
            proof {
                assert(v@ =~= etag_bytes(meta.size, t.secs, t.nanos));
            }
            Some(v)
        },
        None => None,
    }
}

/// Splitting at a non-hexadecimal separator is unambiguous when what
/// precedes it is all hexadecimal digits.
proof fn lemma_sep_split(a1: Seq<u8>, r1: Seq<u8>, a2: Seq<u8>, r2: Seq<u8>, sep: u8)
    requires
        all_hex(a1),
        all_hex(a2),
        !is_hex_digit(sep),
        a1 + seq![sep] + r1 == a2 + seq![sep] + r2,
    ensures
        a1 == a2,
        r1 == r2,
{
    let s1 = a1 + seq![sep] + r1;
    let s2 = a2 + seq![sep] + r2;
    if a1.len() < a2.len() {
        assert(s1[a1.len() as int] == sep);
        assert(s2[a1.len() as int] == a2[a1.len() as int]);
        assert(is_hex_digit(a2[a1.len() as int]));
        assert(false);
    } else if a2.len() < a1.len() {
        assert(s2[a2.len() as int] == sep);
        assert(s1[a2.len() as int] == a1[a2.len() as int]);
        assert(is_hex_digit(a1[a2.len() as int]));
        assert(false);
    }
    assert(a1 =~= a2) by {
        assert(forall|k: int| 0 <= k < a1.len() ==> s1[k] == a1[k] && s2[k] == a2[k]);
    }
    assert(s1.len() == s2.len());
    assert(r1.len() == r2.len());
    assert forall|k: int| 0 <= k < r1.len() implies r1[k] == r2[k] by {
        assert(s1[a1.len() + 1 + k] == r1[k]);
        assert(s2[a2.len() + 1 + k] == r2[k]);
        assert(s1[a1.len() + 1 + k] == s2[a1.len() + 1 + k]);
    }
    assert(r1 =~= r2);
}

proof fn lemma_strip_prefix(p: Seq<u8>, x: Seq<u8>, y: Seq<u8>)
    requires
        p + x == p + y,
    ensures
        x == y,
{
    assert((p + x).len() == p.len() + x.len());
    assert((p + y).len() == p.len() + y.len());
    assert(x.len() == y.len());
    assert forall|k: int| 0 <= k < x.len() implies x[k] == y[k] by {
        assert((p + x)[p.len() + k] == x[k]);
        assert((p + y)[p.len() + k] == y[k]);
    }
    assert(x =~= y);
}

/// The entity tag is injective in (size, seconds, nanoseconds): identical
/// metadata always yields the identical tag (the tag is a pure function),
/// and a change in the size or in either part of the modified time always
/// changes the tag.
pub proof fn lemma_entity_tag_injective(s1: u64, t1: u64, n1: u32, s2: u64, t2: u64, n2: u32)
    requires
        etag_bytes(s1, t1, n1) == etag_bytes(s2, t2, n2),
    ensures
        s1 == s2,
        t1 == t2,
        n1 == n2,
{
    lemma_hex_of_all_hex(s1);
    lemma_hex_of_all_hex(s2);
    lemma_hex_of_all_hex(t1);
    lemma_hex_of_all_hex(t2);
    lemma_hex_of_all_hex(n1 as u64);
    lemma_hex_of_all_hex(n2 as u64);
    let rest1 = hex_of(t1) + seq![DOT] + (hex_of(n1 as u64) + seq![QUOTE]);
    let rest2 = hex_of(t2) + seq![DOT] + (hex_of(n2 as u64) + seq![QUOTE]);
    lemma_strip_prefix(
        seq![UPPER_W, SLASH, QUOTE],
        hex_of(s1) + seq![HYPHEN] + rest1,
        hex_of(s2) + seq![HYPHEN] + rest2,
    );
    lemma_sep_split(hex_of(s1), rest1, hex_of(s2), rest2, HYPHEN);
    lemma_hex_injective(s1, s2);
    lemma_sep_split(
        hex_of(t1),
        hex_of(n1 as u64) + seq![QUOTE],
        hex_of(t2),
        hex_of(n2 as u64) + seq![QUOTE],
        DOT,
    );
    lemma_hex_injective(t1, t2);
    assert(hex_of(n1 as u64) + seq![QUOTE] + Seq::<u8>::empty() =~= hex_of(n1 as u64) + seq![
        QUOTE,
    ]);
    assert(hex_of(n2 as u64) + seq![QUOTE] + Seq::<u8>::empty() =~= hex_of(n2 as u64) + seq![
        QUOTE,
    ]);
    lemma_sep_split(
        hex_of(n1 as u64),
        Seq::<u8>::empty(),
        hex_of(n2 as u64),
        Seq::<u8>::empty(),
        QUOTE,
    );
    lemma_hex_injective(n1 as u64, n2 as u64);
}

/// The parsed `If-None-Match` header: either the wildcard or a list of
/// entity tags as sent by the client.
pub enum IfNoneMatch {
    Any,
    Items(Vec<Vec<u8>>),
}

pub open spec fn spec_tag_in(items: Seq<Seq<u8>>, tag: Seq<u8>) -> bool {
    exists|i: int| 0 <= i < items.len() && items[i] == tag
}

/// The Fresh / NotModified decision. `If-None-Match`, when present, takes
/// precedence and `If-Modified-Since` is ignored: the wildcard or a listed
/// tag equal to the file's current tag yields NotModified. Otherwise a
/// present `If-Modified-Since` yields NotModified exactly when the file's
/// modified time, truncated to whole seconds, is not strictly later.
pub open spec fn spec_not_modified(
    meta: FileMetadata,
    inm: Option<IfNoneMatch>,
    ims: Option<u64>,
) -> bool {
    match inm {
        Some(IfNoneMatch::Any) => true,
        Some(IfNoneMatch::Items(items)) => match meta.modified {
            Some(t) => spec_tag_in(items.deep_view(), etag_bytes(meta.size, t.secs, t.nanos)),
            None => false,
        },
        None => match (meta.modified, ims) {
            (Some(t), Some(limit)) => t.secs <= limit,
            _ => false,
        },
    }
}

/// Whether `tag` occurs in the client's tag list, byte for byte.
fn tag_in_items(items: &Vec<Vec<u8>>, tag: &Vec<u8>) -> (r: bool)
    ensures
        r == spec_tag_in(items.deep_view(), tag@),
{
    let mut i: usize = 0;
    while i < items.len()
        invariant
            0 <= i <= items.len(),
            forall|j: int| 0 <= j < i ==> items.deep_view()[j] != tag@,
        decreases items.len() - i,
    {
        if bytes_eq(&items[i], tag) {
            proof {
                assert(items.deep_view()[i as int] == tag@);
                assert(spec_tag_in(items.deep_view(), tag@)) by {
                    assert(0 <= i < items.deep_view().len() && items.deep_view()[i as int]
                        == tag@);
                }
            }
            return true;
        }
        i = i + 1;
    }
    proof {
        if spec_tag_in(items.deep_view(), tag@) {
            let w = choose|k: int|
                0 <= k < items.deep_view().len() && items.deep_view()[k] == tag@;
            assert(items.deep_view()[w] != tag@);
        }
    }
    false
}

/// Decides Fresh (false) or NotModified (true) from the validators.
pub fn not_modified(meta: &FileMetadata, inm: &Option<IfNoneMatch>, ims: &Option<u64>) -> (r:
    bool)
    ensures
        r == spec_not_modified(*meta, *inm, *ims),
{
    match inm {
        Some(h) => {
            match h {
                IfNoneMatch::Any => true,
                IfNoneMatch::Items(items) => {
                    match entity_tag(meta) {
                        Some(tag) => tag_in_items(items, &tag),
                        None => false,
                    }
                },
            }
        },
        None => {
            match (meta.modified, ims) {
                (Some(t), Some(limit)) => t.secs <= *limit,
                _ => false,
            }
        },
    }
}

} // verus!
