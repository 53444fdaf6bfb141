//! Path resolution: turns the untrusted, possibly percent-encoded URL tail
//! into a sequence of path segments that provably cannot escape the
//! configured root when joined under it.
//!
//! The pipeline is: percent-decode the whole tail once, reject null bytes
//! and malformed UTF-8, split on `/`, then fold the components left to
//! right, where `.` and empty components vanish and `..` pops the previous
//! component or rejects the request when there is nothing left to pop.

use vstd::prelude::*;

use crate::bytes::{
    contains_byte, has_byte, split_on, split_vec, subrange_vec, DOT, NUL, PERCENT, SLASH,
};
use crate::errors::HandlerError;

verus! {

broadcast use crate::bytes::lemma_vec_u8_deep_view;

/// The numeric value of an ASCII hexadecimal digit.
pub open spec fn hex_val(b: u8) -> Option<u8> {
    if 0x30 <= b && b <= 0x39 {
        Some((b - 0x30) as u8)
    } else if 0x41 <= b && b <= 0x46 {
        Some((b - 0x41 + 10) as u8)
    } else if 0x61 <= b && b <= 0x66 {
        Some((b - 0x61 + 10) as u8)
    } else {
        None
    }
}

fn hex_val_exec(b: u8) -> (r: Option<u8>)
    ensures
        r == hex_val(b),
{
    if 0x30 <= b && b <= 0x39 {
        Some(b - 0x30)
    } else if 0x41 <= b && b <= 0x46 {
        Some(b - 0x41 + 10)
    } else if 0x61 <= b && b <= 0x66 {
        Some(b - 0x61 + 10)
    } else {
        None
    }
}

/// Full percent-decoding of `s`. A `%` must be followed by exactly two
/// hexadecimal digits; anything else is malformed and rejected.
pub open spec fn spec_percent_decode(s: Seq<u8>) -> Option<Seq<u8>>
    decreases s.len(),
{
    if s.len() == 0 {
        Some(Seq::<u8>::empty())
    } else if s[0] == PERCENT {
        if s.len() >= 3 && hex_val(s[1]) is Some && hex_val(s[2]) is Some {
            match spec_percent_decode(s.skip(3)) {
                Some(rest) => Some(
                    seq![(16 * hex_val(s[1])->0 + hex_val(s[2])->0) as u8] + rest,
                ),
                None => None,
            }
        } else {
            None
        }
    } else {
        match spec_percent_decode(s.skip(1)) {
            Some(rest) => Some(seq![s[0]] + rest),
            None => None,
        }
    }
}

spec fn opt_prepend(p: Seq<u8>, o: Option<Seq<u8>>) -> Option<Seq<u8>> {
    match o {
        Some(r) => Some(p + r),
        None => None,
    }
}

/// Decodes every percent escape in `v`, once, over the whole string.
pub fn percent_decode(v: &Vec<u8>) -> (r: Result<Vec<u8>, HandlerError>)
    ensures
        match spec_percent_decode(v@) {
            Some(d) => r is Ok && r->Ok_0@ == d,
            None => r is Err && r->Err_0 == HandlerError::PathTraversal,
        },
{
    let mut out: Vec<u8> = Vec::new();
    let mut i: usize = 0;
    proof {
        assert(v@.skip(0) =~= v@);
        assert(opt_prepend(out@, spec_percent_decode(v@)) == spec_percent_decode(v@)) by {
            if spec_percent_decode(v@) is Some {
                assert(Seq::<u8>::empty() + spec_percent_decode(v@)->0 =~=
                    spec_percent_decode(v@)->0);
            }
        }
    }
    while i < v.len()
        invariant
            0 <= i <= v.len(),
            spec_percent_decode(v@) == opt_prepend(out@, spec_percent_decode(v@.skip(i as int))),
        decreases v.len() - i,
    {
        let ghost tail = v@.skip(i as int);
        assert(tail[0] == v@[i as int]);
        if v[i] == PERCENT {
            if v.len() - i > 2 {
                let h1 = hex_val_exec(v[i + 1]);
                let h2 = hex_val_exec(v[i + 2]);
                proof {
                    assert(tail.len() >= 3);
                    assert(tail[1] == v@[i + 1]);
                    assert(tail[2] == v@[i + 2]);
                }
                match (h1, h2) {
                    (Some(a), Some(b)) => {
                        let decoded: u8 = 16 * a + b;
                        let ghost old_out = out@;
                        out.push(decoded);
                        proof {
                            assert(tail.skip(3) =~= v@.skip(i + 3));
                            if spec_percent_decode(v@.skip(i + 3)) is Some {
                                let rest = spec_percent_decode(v@.skip(i + 3))->0;
                                assert(spec_percent_decode(tail) == Some(seq![decoded] + rest));
                                assert(old_out + (seq![decoded] + rest) =~= out@ + rest);
                            }
                        }
                        i = i + 3;
                    },
                    _ => {
                        proof {
                            assert(spec_percent_decode(tail) is None);
                        }
                        return Err(HandlerError::PathTraversal);
                    },
                }
            } else {
                proof {
                    assert(tail.len() < 3);
                    assert(spec_percent_decode(tail) is None);
                }
                return Err(HandlerError::PathTraversal);
            }
        } else {
            let c = v[i];
            let ghost old_out = out@;
            out.push(c);
            proof {
                assert(tail.skip(1) =~= v@.skip(i + 1));
                if spec_percent_decode(v@.skip(i + 1)) is Some {
                    let rest = spec_percent_decode(v@.skip(i + 1))->0;
                    assert(spec_percent_decode(tail) == Some(seq![c] + rest));
                    assert(old_out + (seq![c] + rest) =~= out@ + rest);
                }
            }
            i = i + 1;
        }
    }
    proof {
        assert(v@.skip(v.len() as int) =~= Seq::<u8>::empty());
        assert(spec_percent_decode(v@.skip(v.len() as int)) == Some(Seq::<u8>::empty()));
        assert(out@ + Seq::<u8>::empty() =~= out@);
    }
    Ok(out)
}

/// A UTF-8 continuation byte.
pub open spec fn is_cont(b: u8) -> bool {
    0x80 <= b && b <= 0xBF
}

/// Well-formed UTF-8 per the shortest-form encoding rules: overlong
/// encodings, surrogates, and code points above U+10FFFF are all invalid.
pub open spec fn spec_valid_utf8(s: Seq<u8>) -> bool
    decreases s.len(),
{
    if s.len() == 0 {
        true
    } else {
        let b0 = s[0];
        if b0 <= 0x7F {
            spec_valid_utf8(s.skip(1))
        } else if 0xC2 <= b0 && b0 <= 0xDF {
            s.len() >= 2 && is_cont(s[1]) && spec_valid_utf8(s.skip(2))
        } else if b0 == 0xE0 {
            s.len() >= 3 && 0xA0 <= s[1] && s[1] <= 0xBF && is_cont(s[2])
                && spec_valid_utf8(s.skip(3))
        } else if b0 == 0xED {
            s.len() >= 3 && 0x80 <= s[1] && s[1] <= 0x9F && is_cont(s[2])
                && spec_valid_utf8(s.skip(3))
        } else if 0xE1 <= b0 && b0 <= 0xEF {
            s.len() >= 3 && is_cont(s[1]) && is_cont(s[2]) && spec_valid_utf8(s.skip(3))
        } else if b0 == 0xF0 {
            s.len() >= 4 && 0x90 <= s[1] && s[1] <= 0xBF && is_cont(s[2]) && is_cont(s[3])
                && spec_valid_utf8(s.skip(4))
        } else if 0xF1 <= b0 && b0 <= 0xF3 {
            s.len() >= 4 && is_cont(s[1]) && is_cont(s[2]) && is_cont(s[3])
                && spec_valid_utf8(s.skip(4))
        } else if b0 == 0xF4 {
            s.len() >= 4 && 0x80 <= s[1] && s[1] <= 0x8F && is_cont(s[2]) && is_cont(s[3])
                && spec_valid_utf8(s.skip(4))
        } else {
            false
        }
    }
}

fn is_cont_exec(b: u8) -> (r: bool)
    ensures
        r == is_cont(b),
{
    0x80 <= b && b <= 0xBF
}

/// Checks that `v` is well-formed UTF-8.
pub fn valid_utf8(v: &Vec<u8>) -> (r: bool)
    ensures
        r == spec_valid_utf8(v@),
{
    let mut i: usize = 0;
    proof {
        assert(v@.skip(0) =~= v@);
    }
    while i < v.len()
        invariant
            0 <= i <= v.len(),
            spec_valid_utf8(v@) == spec_valid_utf8(v@.skip(i as int)),
        decreases v.len() - i,
    {
        let ghost tail = v@.skip(i as int);
        assert(tail[0] == v@[i as int]);
        let b0 = v[i];
        let step: usize;
        if b0 <= 0x7F {
            step = 1;
        } else if 0xC2 <= b0 && b0 <= 0xDF {
            if !(i + 1 < v.len() && is_cont_exec(v[i + 1])) {
                proof {
                    if tail.len() >= 2 {
                        assert(tail[1] == v@[i + 1]);
                    }
                }
                return false;
            }
            assert(tail[1] == v@[i + 1]);
            step = 2;
        } else if 0xE0 <= b0 && b0 <= 0xEF {
            if !(v.len() - i > 2) {
                proof {
                    if tail.len() >= 3 {
                        assert(i + 2 < v.len());
                    }
                }
                return false;
            }
            let b1 = v[i + 1];
            let b2 = v[i + 2];
            proof {
                assert(tail[1] == v@[i + 1]);
                assert(tail[2] == v@[i + 2]);
            }
            let ok1: bool = if b0 == 0xE0 {
                0xA0 <= b1 && b1 <= 0xBF
            } else if b0 == 0xED {
                0x80 <= b1 && b1 <= 0x9F
            } else {
                is_cont_exec(b1)
            };
            if !(ok1 && is_cont_exec(b2)) {
                return false;
            }
            step = 3;
        } else if 0xF0 <= b0 && b0 <= 0xF4 {
            if !(v.len() - i > 3) {
                proof {
                    if tail.len() >= 4 {
                        assert(i + 3 < v.len());
                    }
                }
                return false;
            }
            let b1 = v[i + 1];
            let b2 = v[i + 2];
            let b3 = v[i + 3];
            proof {
                assert(tail[1] == v@[i + 1]);
                assert(tail[2] == v@[i + 2]);
                assert(tail[3] == v@[i + 3]);
            }
            let ok1: bool = if b0 == 0xF0 {
                0x90 <= b1 && b1 <= 0xBF
            } else if b0 == 0xF4 {
                0x80 <= b1 && b1 <= 0x8F
            } else {
                is_cont_exec(b1)
            };
            if !(ok1 && is_cont_exec(b2) && is_cont_exec(b3)) {
                return false;
            }
            step = 4;
        } else {
            return false;
        }
        proof {
            assert(tail.skip(step as int) =~= v@.skip(i + step));
        }
        i = i + step;
    }
    proof {
        assert(v@.skip(v.len() as int) =~= Seq::<u8>::empty());
    }
    true
}

/// Folds raw path components left to right: empty and `.` components
/// vanish, `..` pops the previous component, and popping past the start
/// rejects the path. `None` is a traversal rejection.
pub open spec fn fold_from(parts: Seq<Seq<u8>>, acc: Seq<Seq<u8>>) -> Option<Seq<Seq<u8>>>
    decreases parts.len(),
{
    if parts.len() == 0 {
        Some(acc)
    } else {
        let p = parts[0];
        if p.len() == 0 || p == seq![DOT] {
            fold_from(parts.skip(1), acc)
        } else if p == seq![DOT, DOT] {
            if acc.len() == 0 {
                None
            } else {
                fold_from(parts.skip(1), acc.drop_last())
            }
        } else {
            fold_from(parts.skip(1), acc.push(p))
        }
    }
}

pub open spec fn fold_segments(parts: Seq<Seq<u8>>) -> Option<Seq<Seq<u8>>> {
    fold_from(parts, Seq::<Seq<u8>>::empty())
}

/// Normalizes raw path components by the left-to-right fold above.
/// Rejects a path whose `..` components would pop past the start.
pub fn normalize_path(parts: &Vec<Vec<u8>>) -> (r: Result<Vec<Vec<u8>>, HandlerError>)
    ensures
        match fold_segments(parts.deep_view()) {
            Some(segs) => r is Ok && r->Ok_0.deep_view() == segs,
            None => r is Err && r->Err_0 == HandlerError::PathTraversal,
        },
{
    let mut acc: Vec<Vec<u8>> = Vec::new();
    let mut i: usize = 0;
    proof {
        assert(parts.deep_view().skip(0) =~= parts.deep_view());
        assert(acc.deep_view() =~= Seq::<Seq<u8>>::empty());
    }
    while i < parts.len()
        invariant
            0 <= i <= parts.len(),
            fold_segments(parts.deep_view()) == fold_from(
                parts.deep_view().skip(i as int),
                acc.deep_view(),
            ),
        decreases parts.len() - i,
    {
        let ghost ptail = parts.deep_view().skip(i as int);
        proof {
            assert(ptail[0] == parts.deep_view()[i as int]);
            assert(ptail.skip(1) =~= parts.deep_view().skip(i + 1));
        }
        let part = &parts[i];
        let is_empty = part.len() == 0;
        let is_cur = part.len() == 1 && part[0] == DOT;
        let is_parent = part.len() == 2 && part[0] == DOT && part[1] == DOT;
        proof {
            let p = parts.deep_view()[i as int];
            assert(p == part@);
            if is_cur {
                assert(p =~= seq![DOT]);
            } else if p.len() == 1 && p[0] == DOT {
                assert(is_cur);
            }
            if is_parent {
                assert(p =~= seq![DOT, DOT]);
            } else if p.len() == 2 && p[0] == DOT && p[1] == DOT {
                assert(is_parent);
            }
        }
        if is_empty || is_cur {
            // skipped entirely
        } else if is_parent {
            if acc.len() == 0 {
                proof {
                    assert(acc.deep_view().len() == 0);
                    assert(fold_from(ptail, acc.deep_view()) is None);
                }
                return Err(HandlerError::PathTraversal);
            }
            let ghost old_deep = acc.deep_view();
            acc.pop();
            proof {
                assert(acc.deep_view() =~= old_deep.drop_last());
            }
        } else {
            let ghost old_deep = acc.deep_view();
            let seg = subrange_vec(part, 0, part.len());
            proof {
                assert(seg@ =~= part@);
            }
            acc.push(seg);
            proof {
                assert(acc.deep_view() =~= old_deep.push(part@));
            }
        }
        i = i + 1;
    }
    proof {
        assert(parts.deep_view().skip(parts.len() as int) =~= Seq::<Seq<u8>>::empty());
    }
    Ok(acc)
}

/// The root joined with each segment in turn, `/`-separated.
pub open spec fn spec_join(root: Seq<u8>, segs: Seq<Seq<u8>>) -> Seq<u8>
    decreases segs.len(),
{
    if segs.len() == 0 {
        root
    } else {
        spec_join(root + seq![SLASH] + segs[0], segs.skip(1))
    }
}

/// Joins the resolved segments under the trusted root.
pub fn join_under_root(root: &Vec<u8>, segs: &Vec<Vec<u8>>) -> (r: Vec<u8>)
    ensures
        r@ == spec_join(root@, segs.deep_view()),
{
    let mut cur: Vec<u8> = crate::bytes::copy_bytes(root);
    let mut i: usize = 0;
    proof {
        assert(segs.deep_view().skip(0) =~= segs.deep_view());
    }
    while i < segs.len()
        invariant
            0 <= i <= segs.len(),
            spec_join(root@, segs.deep_view()) == spec_join(
                cur@,
                segs.deep_view().skip(i as int),
            ),
        decreases segs.len() - i,
    {
        let ghost stail = segs.deep_view().skip(i as int);
        let ghost base = cur@;
        proof {
            assert(stail[0] == segs.deep_view()[i as int]);
            assert(stail.skip(1) =~= segs.deep_view().skip(i + 1));
        }
        cur.push(SLASH);
        crate::bytes::append_bytes(&mut cur, &segs[i]);
        proof {
            assert(segs@[i as int]@ == segs.deep_view()[i as int]);
            assert(cur@ =~= base + seq![SLASH] + stail[0]);
        }
        i = i + 1;
    }
    proof {
        assert(segs.deep_view().skip(segs.len() as int) =~= Seq::<Seq<u8>>::empty());
    }
    cur
}

/// The whole resolution pipeline on the untrusted tail: decode once,
/// reject null bytes and malformed UTF-8, split on `/`, fold, and reject
/// an empty result (the root itself is not a servable file).
pub open spec fn spec_resolve(tail: Seq<u8>) -> Result<Seq<Seq<u8>>, HandlerError> {
    match spec_percent_decode(tail) {
        Some(d) => if contains_byte(d, NUL) || !spec_valid_utf8(d) {
            Err(HandlerError::PathTraversal)
        } else {
            match fold_segments(split_on(d, SLASH)) {
                Some(segs) => if segs.len() == 0 {
                    Err(HandlerError::ResourceNotFound)
                } else {
                    Ok(segs)
                },
                None => Err(HandlerError::PathTraversal),
            }
        },
        None => Err(HandlerError::PathTraversal),
    }
}

/// Resolves the untrusted URL tail into safe path segments.
pub fn resolve_request_path(tail: &Vec<u8>) -> (r: Result<Vec<Vec<u8>>, HandlerError>)
    ensures
        match spec_resolve(tail@) {
            Ok(segs) => r is Ok && r->Ok_0.deep_view() == segs,
            Err(e) => r is Err && r->Err_0 == e,
        },
{
    let decoded = match percent_decode(tail) {
        Ok(d) => d,
        Err(e) => {
            return Err(e);
        },
    };
    if has_byte(&decoded, NUL) {
        return Err(HandlerError::PathTraversal);
    }
    if !valid_utf8(&decoded) {
        return Err(HandlerError::PathTraversal);
    }
    let parts = split_vec(&decoded, SLASH);
    let segs = match normalize_path(&parts) {
        Ok(s) => s,
        Err(e) => {
            return Err(e);
        },
    };
    if segs.len() == 0 {
        return Err(HandlerError::ResourceNotFound);
    }
    Ok(segs)
}

/// A resolved segment: non-empty, not a dot or dot-dot token, and free of
/// separators and null bytes.
pub open spec fn is_safe_segment(seg: Seq<u8>) -> bool {
    seg.len() > 0 && seg != seq![DOT] && seg != seq![DOT, DOT] && !contains_byte(seg, SLASH)
        && !contains_byte(seg, NUL)
}

/// `p` is a strict lexical descendant of `root`: it extends `root` by a
/// separator and at least one further byte.
pub open spec fn strictly_under(root: Seq<u8>, p: Seq<u8>) -> bool {
    p.len() > root.len() + 1 && p.take(root.len() as int) == root && p[root.len() as int] == SLASH
}

proof fn lemma_split_on_parts_no_sep(s: Seq<u8>, sep: u8)
    ensures
        forall|i: int|
            0 <= i < split_on(s, sep).len() ==> !contains_byte(#[trigger] split_on(s, sep)[i], sep),
    decreases s.len(),
{
    if s.len() == 0 {
        assert(!contains_byte(split_on(s, sep)[0], sep));
    } else if s[0] == sep {
        lemma_split_on_parts_no_sep(s.skip(1), sep);
        let rest = split_on(s.skip(1), sep);
        assert forall|i: int| 0 <= i < split_on(s, sep).len() implies !contains_byte(
            #[trigger] split_on(s, sep)[i],
            sep,
        ) by {
            if i == 0 {
                assert(!contains_byte(Seq::<u8>::empty(), sep));
            } else {
                assert(split_on(s, sep)[i] == rest[i - 1]);
            }
        }
    } else {
        lemma_split_on_parts_no_sep(s.skip(1), sep);
        crate::bytes::lemma_split_on_nonempty(s.skip(1), sep);
        let rest = split_on(s.skip(1), sep);
        assert forall|i: int| 0 <= i < split_on(s, sep).len() implies !contains_byte(
            #[trigger] split_on(s, sep)[i],
            sep,
        ) by {
            if i == 0 {
                let p = seq![s[0]] + rest[0];
                assert(!contains_byte(rest[0], sep));
                assert(!contains_byte(p, sep)) by {
                    assert(forall|k: int|
                        0 <= k < p.len() ==> p[k] == (if k == 0 {
                            s[0]
                        } else {
                            rest[0][k - 1]
                        }));
                }
            } else {
                assert(split_on(s, sep)[i] == rest.skip(1)[i - 1]);
                assert(rest.skip(1)[i - 1] == rest[i]);
            }
        }
    }
}

proof fn lemma_split_on_parts_no_byte(s: Seq<u8>, sep: u8, x: u8)
    requires
        !contains_byte(s, x),
    ensures
        forall|i: int|
            0 <= i < split_on(s, sep).len() ==> !contains_byte(#[trigger] split_on(s, sep)[i], x),
    decreases s.len(),
{
    if s.len() == 0 {
        assert(!contains_byte(split_on(s, sep)[0], x));
    } else {
        assert(!contains_byte(s.skip(1), x)) by {
            assert(forall|i: int|
                0 <= i < s.skip(1).len() ==> s.skip(1)[i] == s[i + 1] && s[i + 1] != x);
        }
        lemma_split_on_parts_no_byte(s.skip(1), sep, x);
        crate::bytes::lemma_split_on_nonempty(s.skip(1), sep);
        let rest = split_on(s.skip(1), sep);
        if s[0] == sep {
            assert forall|i: int| 0 <= i < split_on(s, sep).len() implies !contains_byte(
                #[trigger] split_on(s, sep)[i],
                x,
            ) by {
                if i == 0 {
                    assert(!contains_byte(Seq::<u8>::empty(), x));
                } else {
                    assert(split_on(s, sep)[i] == rest[i - 1]);
                }
            }
        } else {
            assert forall|i: int| 0 <= i < split_on(s, sep).len() implies !contains_byte(
                #[trigger] split_on(s, sep)[i],
                x,
            ) by {
                if i == 0 {
                    let p = seq![s[0]] + rest[0];
                    assert(s[0] != x);
                    assert(!contains_byte(rest[0], x));
                    assert(!contains_byte(p, x)) by {
                        assert(forall|k: int|
                            0 <= k < p.len() ==> p[k] == (if k == 0 {
                                s[0]
                            } else {
                                rest[0][k - 1]
                            }));
                    }
                } else {
                    assert(split_on(s, sep)[i] == rest.skip(1)[i - 1]);
                    assert(rest.skip(1)[i - 1] == rest[i]);
                }
            }
        }
    }
}

proof fn lemma_fold_from_safe(parts: Seq<Seq<u8>>, acc: Seq<Seq<u8>>)
    requires
        forall|i: int| 0 <= i < acc.len() ==> is_safe_segment(#[trigger] acc[i]),
        forall|i: int|
            0 <= i < parts.len() ==> !contains_byte(#[trigger] parts[i], SLASH) && !contains_byte(
                parts[i],
                NUL,
            ),
    ensures
        fold_from(parts, acc) matches Some(r) ==> forall|i: int|
            0 <= i < r.len() ==> is_safe_segment(#[trigger] r[i]),
    decreases parts.len(),
{
    if parts.len() > 0 {
        let p = parts[0];
        assert(forall|i: int|
            0 <= i < parts.skip(1).len() ==> parts.skip(1)[i] == parts[i + 1]
                && !contains_byte(#[trigger] parts.skip(1)[i], SLASH)
                && !contains_byte(parts.skip(1)[i], NUL));
        if p.len() == 0 || p == seq![DOT] {
            lemma_fold_from_safe(parts.skip(1), acc);
        } else if p == seq![DOT, DOT] {
            if acc.len() > 0 {
                assert(forall|i: int|
                    0 <= i < acc.drop_last().len() ==> acc.drop_last()[i] == acc[i]
                        && is_safe_segment(#[trigger] acc.drop_last()[i]));
                lemma_fold_from_safe(parts.skip(1), acc.drop_last());
            }
        } else {
            assert(is_safe_segment(p));
            assert(forall|i: int|
                0 <= i < acc.push(p).len() ==> is_safe_segment(#[trigger] acc.push(p)[i]));
            lemma_fold_from_safe(parts.skip(1), acc.push(p));
        }
    }
}

proof fn lemma_join_prefix(root: Seq<u8>, segs: Seq<Seq<u8>>)
    ensures
        spec_join(root, segs).len() >= root.len(),
        spec_join(root, segs).take(root.len() as int) == root,
        segs.len() > 0 ==> spec_join(root, segs).len() >= root.len() + 1 + segs[0].len()
            && spec_join(root, segs)[root.len() as int] == SLASH,
    decreases segs.len(),
{
    let p = spec_join(root, segs);
    if segs.len() > 0 {
        let r2 = root + seq![SLASH] + segs[0];
        lemma_join_prefix(r2, segs.skip(1));
        assert(p == spec_join(r2, segs.skip(1)));
        assert(p.take(r2.len() as int) == r2);
        assert(forall|k: int| 0 <= k < r2.len() ==> p[k] == r2[k]) by {
            assert(forall|k: int|
                0 <= k < r2.len() ==> r2[k] == #[trigger] p.take(r2.len() as int)[k]);
        }
        assert(p.take(root.len() as int) =~= root);
        assert(p[root.len() as int] == r2[root.len() as int]);
        assert(r2[root.len() as int] == SLASH);
    } else {
        assert(p.take(root.len() as int) =~= root);
    }
}

/// Resolution is safe for every untrusted tail: either the request is
/// rejected, or the resolved segments joined under any root form a strict
/// lexical descendant of that root, and no segment is a parent or current
/// directory token or holds a separator or null byte.
pub proof fn lemma_resolved_path_safe(root: Seq<u8>, tail: Seq<u8>)
    ensures
        spec_resolve(tail) matches Ok(segs) ==> strictly_under(root, spec_join(root, segs)) && (
        forall|i: int| 0 <= i < segs.len() ==> is_safe_segment(#[trigger] segs[i])),
{
    match spec_resolve(tail) {
        Ok(segs) => {
            let d = spec_percent_decode(tail)->0;
            let parts = split_on(d, SLASH);
            lemma_split_on_parts_no_sep(d, SLASH);
            lemma_split_on_parts_no_byte(d, SLASH, NUL);
            assert(forall|i: int| 0 <= i < Seq::<Seq<u8>>::empty().len() ==> is_safe_segment(
                #[trigger] Seq::<Seq<u8>>::empty()[i],
            ));
            lemma_fold_from_safe(parts, Seq::<Seq<u8>>::empty());
            assert(segs == fold_from(parts, Seq::<Seq<u8>>::empty())->0);
            assert(forall|i: int| 0 <= i < segs.len() ==> is_safe_segment(#[trigger] segs[i]));
            lemma_join_prefix(root, segs);
            assert(segs[0].len() > 0);
            assert(strictly_under(root, spec_join(root, segs)));
        },
        Err(_) => {},
    }
}

} // verus!
