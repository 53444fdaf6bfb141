//! Small executable helpers over byte vectors, each proved against a
//! sequence-level specification: containment, equality, copying,
//! splitting on a separator, and trimming optional whitespace.

use vstd::prelude::*;

verus! {

pub const SLASH: u8 = 0x2f;
pub const DOT: u8 = 0x2e;
pub const PERCENT: u8 = 0x25;
pub const NUL: u8 = 0x00;
pub const SPACE: u8 = 0x20;
pub const HTAB: u8 = 0x09;
pub const COMMA: u8 = 0x2c;
pub const SEMICOLON: u8 = 0x3b;
pub const HYPHEN: u8 = 0x2d;
pub const QUOTE: u8 = 0x22;
pub const UPPER_W: u8 = 0x57;
pub const STAR: u8 = 0x2a;

pub open spec fn contains_byte(s: Seq<u8>, b: u8) -> bool {
    exists|i: int| 0 <= i < s.len() && s[i] == b
}

/// For byte vectors the deep view and the plain view coincide.
pub broadcast proof fn lemma_vec_u8_deep_view(v: Vec<u8>)
    ensures
        #[trigger] v.deep_view() == v@,
{
    assert(v.deep_view() =~= v@);
}

/// Whether the byte `b` occurs anywhere in `v`.
pub fn has_byte(v: &Vec<u8>, b: u8) -> (r: bool)
    ensures
        r == contains_byte(v@, b),
{
    let mut i: usize = 0;
    while i < v.len()
        invariant
            0 <= i <= v.len(),
            forall|j: int| 0 <= j < i ==> v@[j] != b,
        decreases v.len() - i,
    {
        if v[i] == b {
            return true;
        }
        i = i + 1;
    }
    false
}

/// Byte-for-byte equality of two vectors.
pub fn bytes_eq(a: &Vec<u8>, b: &Vec<u8>) -> (r: bool)
    ensures
        r == (a@ == b@),
{
    if a.len() != b.len() {
        assert(a@ != b@) by {
            assert(a@.len() != b@.len());
        }
        return false;
    }
    let mut i: usize = 0;
    while i < a.len()
        invariant
            a.len() == b.len(),
            0 <= i <= a.len(),
            forall|j: int| 0 <= j < i ==> a@[j] == b@[j],
        decreases a.len() - i,
    {
        if a[i] != b[i] {
            assert(a@ != b@);
            return false;
        }
        i = i + 1;
    }
    assert(a@ =~= b@);
    true
}

/// A fresh copy of `v`.
pub fn copy_bytes(v: &Vec<u8>) -> (r: Vec<u8>)
    ensures
        r@ == v@,
{
    let mut r: Vec<u8> = Vec::new();
    let mut i: usize = 0;
    while i < v.len()
        invariant
            0 <= i <= v.len(),
            r@ == v@.take(i as int),
        decreases v.len() - i,
    {
        r.push(v[i]);
        assert(r@ =~= v@.take(i + 1 as int));
        i = i + 1;
    }
    assert(v@.take(v.len() as int) =~= v@);
    r
}

/// Appends a copy of `src` to `dst`.
pub fn append_bytes(dst: &mut Vec<u8>, src: &Vec<u8>)
    ensures
        final(dst)@ == old(dst)@ + src@,
{
    let mut i: usize = 0;
    while i < src.len()
        invariant
            0 <= i <= src.len(),
            dst@ == old(dst)@ + src@.take(i as int),
        decreases src.len() - i,
    {
        dst.push(src[i]);
        assert(dst@ =~= old(dst)@ + src@.take(i + 1 as int));
        i = i + 1;
    }
    assert(old(dst)@ + src@.take(src.len() as int) =~= old(dst)@ + src@);
}

/// The bytes of `v` from `a` (inclusive) to `b` (exclusive).
pub fn subrange_vec(v: &Vec<u8>, a: usize, b: usize) -> (r: Vec<u8>)
    requires
        a <= b <= v.len(),
    ensures
        r@ == v@.subrange(a as int, b as int),
{
    let mut r: Vec<u8> = Vec::new();
    let mut i: usize = a;
    while i < b
        invariant
            a <= i <= b <= v.len(),
            r@ == v@.subrange(a as int, i as int),
        decreases b - i,
    {
        r.push(v[i]);
        assert(r@ =~= v@.subrange(a as int, i + 1 as int));
        i = i + 1;
    }
    r
}

/// The parts of `s` between occurrences of the separator `sep`.
/// There is always at least one part; empty parts are kept.
pub open spec fn split_on(s: Seq<u8>, sep: u8) -> Seq<Seq<u8>>
    decreases s.len(),
{
    if s.len() == 0 {
        seq![Seq::<u8>::empty()]
    } else if s[0] == sep {
        seq![Seq::<u8>::empty()] + split_on(s.skip(1), sep)
    } else {
        let rest = split_on(s.skip(1), sep);
        seq![seq![s[0]] + rest[0]] + rest.skip(1)
    }
}

pub proof fn lemma_split_on_nonempty(s: Seq<u8>, sep: u8)
    ensures
        split_on(s, sep).len() >= 1,
    decreases s.len(),
{
    if s.len() > 0 {
        lemma_split_on_nonempty(s.skip(1), sep);
    }
}

/// A part with no separator in it splits into just itself.
pub proof fn lemma_split_on_no_sep(s: Seq<u8>, sep: u8)
    requires
        !contains_byte(s, sep),
    ensures
        split_on(s, sep) =~= seq![s],
    decreases s.len(),
{
    if s.len() > 0 {
        assert(s[0] != sep);
        assert(!contains_byte(s.skip(1), sep)) by {
            assert(forall|i: int|
                0 <= i < s.skip(1).len() ==> s.skip(1)[i] == s[i + 1] && s[i + 1] != sep);
        }
        lemma_split_on_no_sep(s.skip(1), sep);
        let rest = split_on(s.skip(1), sep);
        assert(rest == seq![s.skip(1)]);
        assert(rest[0] == s.skip(1));
        assert(rest.skip(1) =~= Seq::<Seq<u8>>::empty());
        assert(seq![s[0]] + rest[0] =~= s);
        assert(split_on(s, sep) == seq![seq![s[0]] + rest[0]] + rest.skip(1));
        assert(seq![seq![s[0]] + rest[0]] + rest.skip(1) =~= seq![s]);
    } else {
        assert(s =~= Seq::<u8>::empty());
    }
}

/// Splitting a string that starts with a separator-free part `a`, then the
/// separator, then `b`, gives `a` followed by the parts of `b`.
pub proof fn lemma_split_on_first(a: Seq<u8>, b: Seq<u8>, sep: u8)
    requires
        !contains_byte(a, sep),
    ensures
        split_on(a + seq![sep] + b, sep) =~= seq![a] + split_on(b, sep),
    decreases a.len(),
{
    let s = a + seq![sep] + b;
    if a.len() == 0 {
        assert(s[0] == sep);
        assert(s.skip(1) =~= b);
        assert(a =~= Seq::<u8>::empty());
        assert(split_on(s, sep) == seq![Seq::<u8>::empty()] + split_on(b, sep));
        assert(seq![Seq::<u8>::empty()] + split_on(b, sep) =~= seq![a] + split_on(b, sep));
    } else {
        assert(s[0] == a[0]);
        assert(s[0] != sep);
        assert(!contains_byte(a.skip(1), sep)) by {
            assert(forall|i: int|
                0 <= i < a.skip(1).len() ==> a.skip(1)[i] == a[i + 1] && a[i + 1] != sep);
        }
        lemma_split_on_first(a.skip(1), b, sep);
        assert(s.skip(1) =~= a.skip(1) + seq![sep] + b);
        let rest = split_on(s.skip(1), sep);
        assert(rest == seq![a.skip(1)] + split_on(b, sep));
        assert(rest[0] == a.skip(1));
        assert(seq![s[0]] + rest[0] =~= a);
        assert(rest.skip(1) =~= split_on(b, sep));
        assert(split_on(s, sep) == seq![seq![s[0]] + rest[0]] + rest.skip(1));
        assert(seq![seq![s[0]] + rest[0]] + rest.skip(1) =~= seq![a] + split_on(b, sep));
    }
}

/// Splits `v` at each occurrence of `sep`, keeping empty parts.
pub fn split_vec(v: &Vec<u8>, sep: u8) -> (r: Vec<Vec<u8>>)
    ensures
        r.deep_view() == split_on(v@, sep),
{
    let mut out: Vec<Vec<u8>> = Vec::new();
    let mut start: usize = 0;
    let mut j: usize = 0;
    proof {
        assert(out.deep_view() =~= Seq::<Seq<u8>>::empty());
        assert(v@.skip(0) =~= v@);
        assert(Seq::<Seq<u8>>::empty() + split_on(v@, sep) =~= split_on(v@, sep));
    }
    loop
        invariant
            0 <= start <= j <= v.len(),
            forall|k: int| start <= k < j ==> v@[k] != sep,
            split_on(v@, sep) =~= out.deep_view() + split_on(v@.skip(start as int), sep),
        decreases v.len() - j,
    {
        if j < v.len() && v[j] != sep {
            j = j + 1;
        } else {
            let part = subrange_vec(v, start, j);
            proof {
                assert(!contains_byte(part@, sep)) by {
                    assert(forall|k: int|
                        0 <= k < part@.len() ==> part@[k] == v@[start + k] && v@[start + k] != sep);
                }
            }
            if j < v.len() {
                // v[j] is the separator: one more part is complete.
                proof {
                    assert(v@.skip(start as int) =~= part@ + seq![sep] + v@.skip(j + 1 as int));
                    lemma_split_on_first(part@, v@.skip(j + 1 as int), sep);
                }
                let ghost old_out = out.deep_view();
                proof {
                    lemma_vec_u8_deep_view(part);
                }
                out.push(part);
                proof {
                    assert(out.deep_view() =~= old_out + seq![part@]);
                    assert(split_on(v@, sep) =~=
                        out.deep_view() + split_on(v@.skip(j + 1 as int), sep));
                }
                start = j + 1;
                j = start;
            } else {
                // End of input: the final part.
                proof {
                    assert(v@.skip(start as int) =~= part@);
                    lemma_split_on_no_sep(part@, sep);
                }
                let ghost old_out = out.deep_view();
                proof {
                    lemma_vec_u8_deep_view(part);
                }
                out.push(part);
                proof {
                    assert(out.deep_view() =~= old_out + seq![part@]);
                    assert(split_on(v@, sep) =~= out.deep_view());
                }
                return out;
            }
        }
    }
}

pub open spec fn is_ows(b: u8) -> bool {
    b == SPACE || b == HTAB
}

pub open spec fn trim_front(s: Seq<u8>) -> Seq<u8>
    decreases s.len(),
{
    if s.len() > 0 && is_ows(s[0]) {
        trim_front(s.skip(1))
    } else {
        s
    }
}

pub open spec fn trim_back(s: Seq<u8>) -> Seq<u8>
    decreases s.len(),
{
    if s.len() > 0 && is_ows(s.last()) {
        trim_back(s.drop_last())
    } else {
        s
    }
}

/// `s` with leading and trailing spaces and horizontal tabs removed.
pub open spec fn trim_ows(s: Seq<u8>) -> Seq<u8> {
    trim_back(trim_front(s))
}

/// Removes leading and trailing spaces and horizontal tabs.
pub fn trim(v: &Vec<u8>) -> (r: Vec<u8>)
    ensures
        r@ == trim_ows(v@),
{
    let mut lo: usize = 0;
    proof {
        assert(v@.skip(0) =~= v@);
    }
    while lo < v.len() && (v[lo] == SPACE || v[lo] == HTAB)
        invariant
            0 <= lo <= v.len(),
            trim_front(v@) == trim_front(v@.skip(lo as int)),
        decreases v.len() - lo,
    {
        proof {
            assert(v@.skip(lo as int).skip(1) =~= v@.skip(lo + 1 as int));
        }
        lo = lo + 1;
    }
    proof {
        assert(trim_front(v@) == v@.skip(lo as int));
    }
    let mut hi: usize = v.len();
    proof {
        assert(v@.skip(lo as int) =~= v@.subrange(lo as int, v@.len() as int));
    }
    while hi > lo && (v[hi - 1] == SPACE || v[hi - 1] == HTAB)
        invariant
            0 <= lo <= hi <= v.len(),
            trim_front(v@) == v@.skip(lo as int),
            trim_back(v@.skip(lo as int)) == trim_back(v@.subrange(lo as int, hi as int)),
        decreases hi,
    {
        proof {
            let cur = v@.subrange(lo as int, hi as int);
            assert(cur.last() == v@[hi - 1]);
            assert(cur.drop_last() =~= v@.subrange(lo as int, hi - 1 as int));
        }
        hi = hi - 1;
    }
    proof {
        let cur = v@.subrange(lo as int, hi as int);
        assert(trim_back(cur) == cur);
        assert(v@.skip(lo as int) =~= v@.subrange(lo as int, v@.len() as int));
    }
    subrange_vec(v, lo, hi)
}

} // verus!
