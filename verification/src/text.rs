//! Character-level string utilities shared by the tracker and the resolver.
//!
//! Identity strings arrive from the compositor and from document metadata in
//! arbitrary case and with stray whitespace; everything in this crate compares
//! them after normalization (trim, then lowercase). The comparison, substring
//! and replacement routines below work on `Vec<char>` so that their behaviour
//! is fully specified over `Seq<char>`.

use vstd::prelude::*;
use vstd::string::StrSliceExecFns;

verus! {

broadcast use vstd::utf8::char_u32_cast;

/// Collects the characters of a string slice into a vector.
pub fn str_chars(s: &str) -> (v: Vec<char>)
    ensures
        v@ == s@,
{
    let n = s.unicode_len();
    let mut v: Vec<char> = Vec::new();
    let mut i: usize = 0;
    while i < n
        invariant
            n == s@.len(),
            i <= n,
            v@ == s@.subrange(0, i as int),
        decreases n - i,
    {
        let c = s.get_char(i);
        v.push(c);
        i = i + 1;
        proof {
            assert(v@ =~= s@.subrange(0, i as int));
        }
    }
    proof {
        assert(v@ =~= s@);
    }
    v
}

/// Relies on `FromIterator<char> for String`: collecting a sequence of
/// characters yields the string with exactly those characters.
#[verifier::external_body]
pub fn chars_string(v: &Vec<char>) -> (s: String)
    ensures
        s@ == v@,
{
    v.iter().collect()
}

/// What `str::trim` returns: the characters with leading and trailing
/// whitespace removed. A function of the characters alone.
pub uninterp spec fn trim_of(s: Seq<char>) -> Seq<char>;

/// What `str::to_lowercase` returns: the Unicode lowercase equivalent.
/// A function of the characters alone.
pub uninterp spec fn lower_of(s: Seq<char>) -> Seq<char>;

/// Relies on `str::trim`: removes leading and trailing whitespace; the result
/// depends on the characters alone.
#[verifier::external_body]
pub fn trim_str(s: &str) -> (r: String)
    ensures
        r@ == trim_of(s@),
{
    s.trim().to_owned()
}

/// Relies on `str::to_lowercase`: the result depends on the characters alone.
#[verifier::external_body]
pub fn lower_str(s: &str) -> (r: String)
    ensures
        r@ == lower_of(s@),
{
    s.to_lowercase()
}

/// The identity normalization used throughout: trim, then lowercase.
pub open spec fn norm_of(s: Seq<char>) -> Seq<char> {
    lower_of(trim_of(s))
}

/// Normalizes an identity string: surrounding whitespace removed, lowercased.
pub fn normalize(s: &str) -> (r: String)
    ensures
        r@ == norm_of(s@),
{
    let t = trim_str(s);
    lower_str(t.as_str())
}

/// Lexicographic order on character sequences, by code point: the order the
/// resolver sorts index keys in.
pub open spec fn seq_lt(a: Seq<char>, b: Seq<char>) -> bool
    decreases a.len(),
{
    if b.len() == 0 {
        false
    } else if a.len() == 0 {
        true
    } else if (a[0] as u32) < (b[0] as u32) {
        true
    } else if (a[0] as u32) > (b[0] as u32) {
        false
    } else {
        seq_lt(a.drop_first(), b.drop_first())
    }
}

/// Non-strict lexicographic order on character sequences.
pub open spec fn seq_le(a: Seq<char>, b: Seq<char>) -> bool {
    seq_lt(a, b) || a == b
}

/// Two characters with the same code point are the same character.
proof fn lemma_char_cast_inj(x: char, y: char)
    requires
        (x as u32) == (y as u32),
    ensures
        x == y,
{
    let u = x as u32;
    assert((u as char) == x);
    assert((u as char) == y);
}

/// The lexicographic order is total: any two sequences are comparable.
pub proof fn lemma_seq_lt_total(a: Seq<char>, b: Seq<char>)
    ensures
        seq_lt(a, b) || seq_lt(b, a) || a == b,
    decreases a.len(),
{
    if a.len() == 0 && b.len() == 0 {
        assert(a =~= b);
    } else if a.len() > 0 && b.len() > 0 && (a[0] as u32) == (b[0] as u32) {
        lemma_char_cast_inj(a[0], b[0]);
        lemma_seq_lt_total(a.drop_first(), b.drop_first());
        if a.drop_first() == b.drop_first() {
            assert(a.drop_first().len() == a.len() - 1);
            assert(b.drop_first().len() == b.len() - 1);
            assert forall|i: int| 0 <= i < a.len() implies a[i] == b[i] by {
                if i > 0 {
                    assert(a[i] == a.drop_first()[i - 1]);
                    assert(b[i] == b.drop_first()[i - 1]);
                }
            }
            assert(a =~= b);
        }
    }
}

/// The lexicographic order is strict: no two sequences are each less than
/// the other.
pub proof fn lemma_seq_lt_asym(a: Seq<char>, b: Seq<char>)
    requires
        seq_lt(a, b),
    ensures
        !seq_lt(b, a),
    decreases a.len(),
{
    if a.len() > 0 && b.len() > 0 && (a[0] as u32) == (b[0] as u32) {
        lemma_seq_lt_asym(a.drop_first(), b.drop_first());
    }
}

/// The strict lexicographic order is transitive.
pub proof fn lemma_seq_lt_trans(a: Seq<char>, b: Seq<char>, c: Seq<char>)
    requires
        seq_lt(a, b),
        seq_lt(b, c),
    ensures
        seq_lt(a, c),
{
    lemma_seq_le_trans(a, b, c);
    if a == c {
        lemma_seq_lt_asym(b, c);
    }
}

/// The lexicographic order is transitive.
pub proof fn lemma_seq_le_trans(a: Seq<char>, b: Seq<char>, c: Seq<char>)
    requires
        seq_le(a, b),
        seq_le(b, c),
    ensures
        seq_le(a, c),
    decreases a.len(),
{
    if a == b || b == c {
    } else {
        if a.len() == 0 {
        } else {
            assert(b.len() > 0 && c.len() > 0);
            if (a[0] as u32) == (b[0] as u32) && (b[0] as u32) == (c[0] as u32) {
                lemma_char_cast_inj(a[0], b[0]);
                lemma_char_cast_inj(b[0], c[0]);
                lemma_seq_le_trans(a.drop_first(), b.drop_first(), c.drop_first());
                if a.drop_first() == c.drop_first() {
                    assert(a.drop_first().len() == a.len() - 1);
                    assert(c.drop_first().len() == c.len() - 1);
                    assert forall|i: int| 0 <= i < a.len() implies a[i] == c[i] by {
                        if i > 0 {
                            assert(a[i] == a.drop_first()[i - 1]);
                            assert(c[i] == c.drop_first()[i - 1]);
                        }
                    }
                    assert(a =~= c);
                }
            }
        }
    }
}

/// If the first `i` characters agree, the order is decided by the rest.
proof fn lemma_seq_lt_skip(a: Seq<char>, b: Seq<char>, i: int)
    requires
        0 <= i <= a.len(),
        i <= b.len(),
        forall|j: int| 0 <= j < i ==> a[j] == b[j],
    ensures
        seq_lt(a, b) == seq_lt(a.skip(i), b.skip(i)),
    decreases i,
{
    if i > 0 {
        assert(a.len() > 0 && b.len() > 0);
        assert(a[0] == b[0]);
        lemma_seq_lt_skip(a.drop_first(), b.drop_first(), i - 1);
        assert(a.drop_first().skip(i - 1) =~= a.skip(i));
        assert(b.drop_first().skip(i - 1) =~= b.skip(i));
    } else {
        assert(a.skip(0) =~= a);
        assert(b.skip(0) =~= b);
    }
}

/// Compares two character vectors in lexicographic code-point order.
pub fn chars_lt(a: &Vec<char>, b: &Vec<char>) -> (r: bool)
    ensures
        r == seq_lt(a@, b@),
{
    let alen = a.len();
    let blen = b.len();
    let mut i: usize = 0;
    while i < alen && i < blen
        invariant
            alen == a@.len(),
            blen == b@.len(),
            i <= alen,
            i <= blen,
            forall|j: int| 0 <= j < i ==> a@[j] == b@[j],
        decreases alen - i,
    {
        let ca = a[i] as u32;
        let cb = b[i] as u32;
        if ca < cb {
            proof {
                lemma_seq_lt_skip(a@, b@, i as int);
            }
            return true;
        }
        if ca > cb {
            proof {
                lemma_seq_lt_skip(a@, b@, i as int);
            }
            return false;
        }
        proof {
            lemma_char_cast_inj(a@[i as int], b@[i as int]);
        }
        i = i + 1;
    }
    proof {
        lemma_seq_lt_skip(a@, b@, i as int);
    }
    i < blen
}

/// Compares two character vectors for equality.
pub fn chars_eq(a: &Vec<char>, b: &Vec<char>) -> (r: bool)
    ensures
        r == (a@ == b@),
{
    if a.len() != b.len() {
        return false;
    }
    let n = a.len();
    let mut i: usize = 0;
    while i < n
        invariant
            n == a@.len(),
            n == b@.len(),
            i <= n,
            forall|j: int| 0 <= j < i ==> a@[j] == b@[j],
        decreases n - i,
    {
        if a[i] != b[i] {
            return false;
        }
        i = i + 1;
    }
    proof {
        assert(a@ =~= b@);
    }
    true
}

/// One sequence occurs inside another as a contiguous run.
pub open spec fn contains_seq(h: Seq<char>, n: Seq<char>) -> bool {
    exists|i: int| 0 <= i <= h.len() - n.len() && #[trigger] h.subrange(i, i + n.len() as int)
        == n
}

fn match_at(h: &Vec<char>, n: &Vec<char>, i: usize) -> (r: bool)
    requires
        i + n@.len() <= h@.len(),
    ensures
        r == (h@.subrange(i as int, i as int + n@.len() as int) == n@),
{
    let nlen = n.len();
    let hlen = h.len();
    let mut j: usize = 0;
    while j < nlen
        invariant
            nlen == n@.len(),
            hlen == h@.len(),
            i + nlen <= hlen,
            j <= nlen,
            forall|k: int| 0 <= k < j ==> h@[i + k] == n@[k],
        decreases nlen - j,
    {
        if h[i + j] != n[j] {
            proof {
                assert(h@.subrange(i as int, i as int + n@.len() as int)[j as int] != n@[
                    j as int
                ]);
            }
            return false;
        }
        j = j + 1;
    }
    proof {
        assert(h@.subrange(i as int, i as int + n@.len() as int) =~= n@);
    }
    true
}

/// Whether `n` occurs inside `h` as a contiguous run of characters.
pub fn chars_contains(h: &Vec<char>, n: &Vec<char>) -> (r: bool)
    ensures
        r == contains_seq(h@, n@),
{
    let hlen = h.len();
    let nlen = n.len();
    if nlen > hlen {
        return false;
    }
    let last = hlen - nlen;
    let mut i: usize = 0;
    while i < last
        invariant
            hlen == h@.len(),
            nlen == n@.len(),
            last == hlen - nlen,
            i <= last,
            forall|k: int|
                0 <= k < i ==> #[trigger] h@.subrange(k, k + n@.len() as int) != n@,
        decreases last - i,
    {
        if match_at(h, n, i) {
            return true;
        }
        i = i + 1;
    }
    if match_at(h, n, last) {
        return true;
    }
    false
}

/// Replacement of every occurrence of `pat` by `rep`, scanning left to
/// right without overlap.
pub open spec fn replace_seq(s: Seq<char>, pat: Seq<char>, rep: Seq<char>) -> Seq<char>
    decreases s.len(),
{
    if s.len() == 0 {
        Seq::empty()
    } else if 0 < pat.len() <= s.len() && s.subrange(0, pat.len() as int) == pat {
        rep + replace_seq(s.skip(pat.len() as int), pat, rep)
    } else {
        seq![s[0]] + replace_seq(s.drop_first(), pat, rep)
    }
}

/// Replaces every occurrence of `pat` in `h` by `rep`, scanning left to
/// right without overlap.
pub fn replace_chars(h: &Vec<char>, pat: &Vec<char>, rep: &Vec<char>) -> (r: Vec<char>)
    requires
        pat@.len() > 0,
    ensures
        r@ == replace_seq(h@, pat@, rep@),
{
    let hlen = h.len();
    let plen = pat.len();
    let rlen = rep.len();
    let mut out: Vec<char> = Vec::new();
    let mut i: usize = 0;
    proof {
        assert(h@.skip(0) =~= h@);
    }
    while i < hlen
        invariant
            hlen == h@.len(),
            plen == pat@.len(),
            rlen == rep@.len(),
            plen > 0,
            i <= hlen,
            replace_seq(h@, pat@, rep@) == out@ + replace_seq(h@.skip(i as int), pat@, rep@),
        decreases hlen - i,
    {
        let ghost i0 = i as int;
        let ghost out0 = out@;
        let rest_matches = plen <= hlen - i && match_at(h, pat, i);
        if rest_matches {
            proof {
                assert(h@.skip(i0).subrange(0, plen as int) =~= h@.subrange(i0, i0 + plen as int));
            }
            let mut j: usize = 0;
            while j < rlen
                invariant
                    rlen == rep@.len(),
                    j <= rlen,
                    out@ == out0 + rep@.subrange(0, j as int),
                decreases rlen - j,
            {
                out.push(rep[j]);
                j = j + 1;
                proof {
                    assert(out@ =~= out0 + rep@.subrange(0, j as int));
                }
            }
            i = i + plen;
            proof {
                assert(rep@.subrange(0, rlen as int) =~= rep@);
                assert(h@.skip(i0).skip(plen as int) =~= h@.skip(i as int));
                assert(replace_seq(h@.skip(i0), pat@, rep@) == rep@ + replace_seq(
                    h@.skip(i as int),
                    pat@,
                    rep@,
                ));
                assert(out0 + (rep@ + replace_seq(h@.skip(i as int), pat@, rep@)) =~= (out0
                    + rep@) + replace_seq(h@.skip(i as int), pat@, rep@));
                assert(out@ =~= out0 + rep@);
            }
        } else {
            out.push(h[i]);
            i = i + 1;
            proof {
                if plen <= hlen - i0 {
                    assert(h@.skip(i0).subrange(0, plen as int) =~= h@.subrange(
                        i0,
                        i0 + plen as int,
                    ));
                }
                assert(h@.skip(i0).drop_first() =~= h@.skip(i as int));
                assert(h@.skip(i0)[0] == h@[i0]);
                assert(replace_seq(h@.skip(i0), pat@, rep@) == seq![h@[i0]] + replace_seq(
                    h@.skip(i as int),
                    pat@,
                    rep@,
                ));
                assert(out0 + (seq![h@[i0]] + replace_seq(h@.skip(i as int), pat@, rep@)) =~= (
                out0 + seq![h@[i0]]) + replace_seq(h@.skip(i as int), pat@, rep@));
                assert(out@ =~= out0 + seq![h@[i0]]);
            }
        }
    }
    proof {
        assert(h@.skip(hlen as int) =~= Seq::<char>::empty());
        assert(out@ + Seq::<char>::empty() =~= out@);
    }
    out
}

} // verus!
