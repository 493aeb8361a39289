//! Content fingerprinting and edit distance.
//!
//! `fingerprint` gives a whitespace-insensitive identity for a file body;
//! `levenshtein` and the similarity test built on it catch near-reverts.
use std::collections::hash_map::DefaultHasher;
use std::hash::{BuildHasher, BuildHasherDefault};
use vstd::prelude::*;
use crate::text::{normalized, normalize_chars, to_chars, normalize};

verus! {

/// The 64-bit digest that std's `DefaultHasher` (SipHash-1-3 with the fixed
/// keys of `DefaultHasher::new`) produces for a string slice.
pub uninterp spec fn std_default_hash(s: Seq<char>) -> u64;

/// Hashes `s` with a fresh `DefaultHasher` (std's
/// `BuildHasher::hash_one` on `BuildHasherDefault<DefaultHasher>`). Claimed:
/// the digest is a function of the characters of `s` alone. The hash
/// algorithm itself is not stated.
#[verifier::external_body]
fn default_hash_of(s: &str) -> (h: u64)
    ensures
        h == std_default_hash(s@),
{
    BuildHasherDefault::<DefaultHasher>::default().hash_one(s)
}

/// The fingerprint of a file body: the default hash of its
/// whitespace-normalised form.
pub open spec fn spec_fingerprint(content: Seq<char>) -> u64 {
    std_default_hash(normalized(content))
}

/// Stable 64-bit content fingerprint over the whitespace-normalised body.
/// Reformatting alone (re-indentation, blank-line churn) does not change it.
pub fn fingerprint(content: &str) -> (h: u64)
    ensures
        h == spec_fingerprint(content@),
{
    let n = normalize(content);
    default_hash_of(n.as_str())
}

pub open spec fn min_nat(x: nat, y: nat) -> nat {
    if x <= y { x } else { y }
}

pub open spec fn max_nat(x: nat, y: nat) -> nat {
    if x >= y { x } else { y }
}

/// Levenshtein distance: the least number of single-character insertions,
/// deletions and substitutions that turn `a` into `b`.
pub open spec fn lev(a: Seq<char>, b: Seq<char>) -> nat
    decreases a.len() + b.len(),
{
    if a.len() == 0 {
        b.len()
    } else if b.len() == 0 {
        a.len()
    } else {
        let del = lev(a.drop_last(), b) + 1;
        let ins = lev(a, b.drop_last()) + 1;
        let sub = lev(a.drop_last(), b.drop_last()) + if a.last() == b.last() {
            0nat
        } else {
            1nat
        };
        min_nat(min_nat(del, ins), sub)
    }
}

/// The distance never exceeds the longer length.
pub proof fn lemma_lev_le_max(a: Seq<char>, b: Seq<char>)
    ensures
        lev(a, b) <= max_nat(a.len(), b.len()),
    decreases a.len() + b.len(),
{
    if a.len() > 0 && b.len() > 0 {
        lemma_lev_le_max(a.drop_last(), b.drop_last());
    }
}

/// Levenshtein distance over character vectors, by the two-row dynamic
/// programme.
pub fn levenshtein_chars(a: &Vec<char>, b: &Vec<char>) -> (d: usize)
    ensures
        d == lev(a@, b@),
{
    let alen = a.len();
    let blen = b.len();
    if alen == 0 {
        return blen;
    }
    if blen == 0 {
        return alen;
    }
    // prev[j] == lev(a[..i], b[..j]) for the row i that is done.
    let mut prev: Vec<usize> = Vec::new();
    let mut j: usize = 0;
    loop
        invariant_except_break
            j <= blen,
            prev@.len() == j,
            forall|k: int| 0 <= k < j ==> prev@[k] == k,
        ensures
            prev@.len() == blen + 1,
            forall|k: int| 0 <= k <= blen ==> prev@[k] == k,
        decreases blen - j,
    {
        prev.push(j);
        if j == blen {
            break;
        }
        j = j + 1;
    }
    assert(prev@.len() == blen + 1);
    let mut curr: Vec<usize> = Vec::new();
    let plen = prev.len();
    for k in 0..plen
        invariant
            curr@.len() == k,
    {
        curr.push(0);
    }
    proof {
        assert forall|k: int| 0 <= k <= blen implies prev@[k] == lev(a@.take(0), b@.take(k)) by {
            assert(a@.take(0).len() == 0);
        }
    }
    for i in 0..alen
        invariant
            alen == a@.len(),
            blen == b@.len(),
            blen < usize::MAX,
            prev@.len() == blen + 1,
            curr@.len() == blen + 1,
            forall|k: int| 0 <= k <= blen ==> prev@[k] == lev(a@.take(i as int), b@.take(k)),
    {
        let ghost ai = a@.take(i as int);
        let ghost ai1 = a@.take(i + 1);
        assert(ai1.drop_last() =~= ai);
        assert(ai1.last() == a@[i as int]);
        assert(b@.take(0).len() == 0);
        curr.set(0, i + 1);
        let ca = a[i];
        for jj in 0..blen
            invariant
                alen == a@.len(),
                blen == b@.len(),
                blen < usize::MAX,
                i < alen,
                ai == a@.take(i as int),
                ai1 == a@.take(i + 1),
                ai1.drop_last() == ai,
                ai1.last() == ca,
                ai1.len() == i + 1,
                prev@.len() == blen + 1,
                curr@.len() == blen + 1,
                forall|k: int| 0 <= k <= blen ==> prev@[k] == lev(ai, b@.take(k)),
                forall|k: int| 0 <= k <= jj ==> curr@[k] == lev(ai1, b@.take(k)),
        {
            let ghost bj = b@.take(jj as int);
            let ghost bj1 = b@.take(jj + 1);
            assert(bj1.drop_last() =~= bj);
            assert(bj1.last() == b@[jj as int]);
            proof {
                lemma_lev_le_max(ai, bj1);
                lemma_lev_le_max(ai, bj);
            }
            let cost: usize = if ca == b[jj] { 0 } else { 1 };
            let del = prev[jj + 1] + 1;
            let sub = prev[jj] + cost;
            let m = if del <= sub { del } else { sub };
            let v = if curr[jj] < m { curr[jj] + 1 } else { m };
            curr.set(jj + 1, v);
        }
        std::mem::swap(&mut prev, &mut curr);
    }
    assert(a@.take(alen as int) =~= a@);
    assert(b@.take(blen as int) =~= b@);
    prev[blen]
}

/// Levenshtein edit distance between two strings, counted in characters.
pub fn levenshtein(a: &str, b: &str) -> (d: usize)
    ensures
        d == lev(a@, b@),
{
    let ac = to_chars(a);
    let bc = to_chars(b);
    levenshtein_chars(&ac, &bc)
}

/// The two integers behind a similarity ratio: the edit distance between two
/// whitespace-normalised bodies and the length of the longer one. The
/// similarity is `1 - distance / length`, and `1` when `length` is 0.
#[derive(Clone, Copy, Debug, PartialEq, Eq, Structural)]
pub struct EditRatio {
    pub distance: usize,
    pub length: usize,
}

pub open spec fn spec_edit_ratio(a: Seq<char>, b: Seq<char>) -> (nat, nat) {
    let na = normalized(a);
    let nb = normalized(b);
    (lev(na, nb), max_nat(na.len(), nb.len()))
}

/// Similarity of two normalised bodies is at least `threshold / 10000`.
pub open spec fn similar_at_least(a: Seq<char>, b: Seq<char>, threshold: nat) -> bool {
    let (d, m) = spec_edit_ratio(a, b);
    m == 0 || (m - d) * 10000 >= threshold * m
}

/// Edit distance and longer length of the whitespace-normalised forms of `a`
/// and `b`; the distance never exceeds the length.
pub fn similarity_parts(a: &str, b: &str) -> (r: EditRatio)
    ensures
        r.distance == spec_edit_ratio(a@, b@).0,
        r.length == spec_edit_ratio(a@, b@).1,
        r.distance <= r.length,
{
    let na = normalize_chars(&to_chars(a));
    let nb = normalize_chars(&to_chars(b));
    let d = levenshtein_chars(&na, &nb);
    proof {
        lemma_lev_le_max(na@, nb@);
    }
    let m = if na.len() >= nb.len() { na.len() } else { nb.len() };
    EditRatio { distance: d, length: m }
}

/// Whether `a` and `b` are at least `threshold / 10000` similar.
pub fn is_similar(a: &str, b: &str, threshold: u32) -> (r: bool)
    ensures
        r == similar_at_least(a@, b@, threshold as nat),
{
    let p = similarity_parts(a, b);
    if p.length == 0 {
        return true;
    }
    let same = (p.length - p.distance) as u128;
    let len = p.length as u128;
    assert(same * 10000 <= 18446744073709551615u128 * 10000) by (nonlinear_arith)
        requires same <= 18446744073709551615u128;
    assert(threshold * len <= 4294967295u128 * 18446744073709551615u128) by (nonlinear_arith)
        requires threshold <= 4294967295u128, len <= 18446744073709551615u128;
    same * 10000 >= (threshold as u128) * len
}

} // verus!
