//! The order of names: lower-cased, then byte by byte.

use vstd::prelude::*;
use vstd::utf8::encode_utf8;

verus! {

/// The lower-case form of a text: what `str::to_lowercase` of the standard
/// library returns for it.
pub uninterp spec fn lowercase(text: Seq<char>) -> Seq<char>;

/// Calls `str::to_lowercase` of the standard library. Nothing is proved of
/// how the result is made: it is taken to depend on the text alone, and
/// goes by the name `lowercase`.
#[verifier::external_body]
pub(crate) fn to_lowercase(text: &str) -> (lower: String)
    ensures
        lower@ == lowercase(text@),
{
    text.to_lowercase()
}

/// The key by which a name is ordered: the bytes of its lower-case form.
pub open spec fn sort_key(name: Seq<char>) -> Seq<u8> {
    encode_utf8(lowercase(name))
}

/// The first `k` bytes of `a` and of `b` are the same.
pub open spec fn agree_upto(a: Seq<u8>, b: Seq<u8>, k: int) -> bool {
    &&& 0 <= k <= a.len()
    &&& k <= b.len()
    &&& forall|j: int| 0 <= j < k ==> a[j] == b[j]
}

/// `a` comes before `b` byte by byte: where they first differ `a` has the
/// smaller byte, or `a` ends there and `b` goes on.
pub open spec fn lex_lt(a: Seq<u8>, b: Seq<u8>) -> bool {
    exists|k: int| #[trigger] agree_upto(a, b, k) && k < b.len() && (k == a.len() || a[k] < b[k])
}

/// The length of the longest common prefix of `a` and `b`.
pub proof fn lemma_first_difference(a: Seq<u8>, b: Seq<u8>) -> (k: int)
    ensures
        agree_upto(a, b, k),
        k == a.len() || k == b.len() || a[k] != b[k],
{
    lemma_first_difference_from(a, b, 0)
}

proof fn lemma_first_difference_from(a: Seq<u8>, b: Seq<u8>, from: int) -> (k: int)
    requires
        agree_upto(a, b, from),
    ensures
        agree_upto(a, b, k),
        k == a.len() || k == b.len() || a[k] != b[k],
    decreases a.len() - from,
{
    if from == a.len() || from == b.len() || a[from] != b[from] {
        from
    } else {
        lemma_first_difference_from(a, b, from + 1)
    }
}

/// Where `a` and `b` first differ decides their order.
pub proof fn lemma_lex_lt_at(a: Seq<u8>, b: Seq<u8>, k: int)
    requires
        agree_upto(a, b, k),
        k == a.len() || k == b.len() || a[k] != b[k],
    ensures
        lex_lt(a, b) == (k < b.len() && (k == a.len() || a[k] < b[k])),
        lex_lt(b, a) == (k < a.len() && (k == b.len() || b[k] < a[k])),
        (a == b) == (k == a.len() && k == b.len()),
{
    assert(agree_upto(b, a, k));
    if lex_lt(a, b) {
        let m = choose|m: int| #[trigger]
            agree_upto(a, b, m) && m < b.len() && (m == a.len() || a[m] < b[m]);
        if m < k {
            assert(a[m] == b[m]);
        } else if k < m {
            assert(a[k] == b[k]);
        }
    }
    if lex_lt(b, a) {
        let m = choose|m: int| #[trigger]
            agree_upto(b, a, m) && m < a.len() && (m == b.len() || b[m] < a[m]);
        if m < k {
            assert(a[m] == b[m]);
        } else if k < m {
            assert(a[k] == b[k]);
        }
    }
    if k == a.len() && k == b.len() {
        assert(a =~= b);
    }
}

/// Of two byte strings exactly one holds: the first comes before the
/// second, the second before the first, or they are the same.
pub proof fn lemma_lex_trichotomy(a: Seq<u8>, b: Seq<u8>)
    ensures
        lex_lt(a, b) || lex_lt(b, a) || a == b,
        !(lex_lt(a, b) && lex_lt(b, a)),
        !(lex_lt(a, b) && a == b),
        !(lex_lt(b, a) && a == b),
{
    let k = lemma_first_difference(a, b);
    lemma_lex_lt_at(a, b, k);
}

/// Coming before is transitive.
pub proof fn lemma_lex_transitive(a: Seq<u8>, b: Seq<u8>, c: Seq<u8>)
    requires
        lex_lt(a, b),
        lex_lt(b, c),
    ensures
        lex_lt(a, c),
{
    let m = choose|m: int| #[trigger]
        agree_upto(a, b, m) && m < b.len() && (m == a.len() || a[m] < b[m]);
    let n = choose|n: int| #[trigger]
        agree_upto(b, c, n) && n < c.len() && (n == b.len() || b[n] < c[n]);
    let k = if m <= n {
        m
    } else {
        n
    };
    assert(agree_upto(a, c, k));
    if k < a.len() {
        if m < n {
            assert(b[m] == c[m]);
        } else if n < m {
            assert(a[n] == b[n]);
        }
    }
}

/// The length of the longest common prefix of `a` and `b`.
pub fn common_prefix_len(a: &[u8], b: &[u8]) -> (k: usize)
    ensures
        agree_upto(a@, b@, k as int),
        k == a@.len() || k == b@.len() || a@[k as int] != b@[k as int],
{
    let mut k: usize = 0;
    while k < a.len() && k < b.len() && a[k] == b[k]
        invariant
            agree_upto(a@, b@, k as int),
        decreases a@.len() - k,
    {
        k += 1;
    }
    k
}

/// Whether the text `a` comes before the text `b` byte by byte, and whether
/// `b` comes before `a`.
pub fn precedence(a: &str, b: &str) -> (found: (bool, bool))
    ensures
        found.0 == lex_lt(encode_utf8(a@), encode_utf8(b@)),
        found.1 == lex_lt(encode_utf8(b@), encode_utf8(a@)),
{
    let a_bytes = a.as_bytes();
    let b_bytes = b.as_bytes();
    let k = common_prefix_len(a_bytes, b_bytes);
    proof {
        lemma_lex_lt_at(a_bytes@, b_bytes@, k as int);
    }
    if k == a_bytes.len() {
        (k < b_bytes.len(), false)
    } else if k == b_bytes.len() {
        (false, true)
    } else {
        (a_bytes[k] < b_bytes[k], b_bytes[k] < a_bytes[k])
    }
}

} // verus!
