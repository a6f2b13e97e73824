use vstd::prelude::*;

verus! {

/// Length of the longest common prefix of two byte strings.
pub open spec fn lcp(a: Seq<u8>, b: Seq<u8>) -> nat
    decreases a.len(),
{
    if a.len() == 0 || b.len() == 0 || a[0] != b[0] {
        0
    } else {
        1 + lcp(a.drop_first(), b.drop_first())
    }
}

/// The usual lexicographic order on byte strings, the one of `<` on `[u8]`:
/// at the first differing position the smaller byte decides, and a proper
/// prefix comes before every extension of it.
pub open spec fn seq_lt(a: Seq<u8>, b: Seq<u8>) -> bool {
    let l = lcp(a, b) as int;
    if l < a.len() && l < b.len() {
        a[l] < b[l]
    } else {
        a.len() < b.len()
    }
}

/// `a <= b` in the lexicographic order on byte strings.
pub open spec fn seq_le(a: Seq<u8>, b: Seq<u8>) -> bool {
    !seq_lt(b, a)
}

/// What `lcp` is: the length of the agreeing prefix, stopped by the end of
/// either string or by a differing byte.
pub proof fn lemma_lcp(a: Seq<u8>, b: Seq<u8>)
    ensures
        lcp(a, b) <= a.len(),
        lcp(a, b) <= b.len(),
        forall|j: int| 0 <= j < lcp(a, b) ==> a[j] == b[j],
        lcp(a, b) < a.len() && lcp(a, b) < b.len() ==> a[lcp(a, b) as int] != b[lcp(a, b) as int],
    decreases a.len(),
{
    if a.len() == 0 || b.len() == 0 || a[0] != b[0] {
    } else {
        lemma_lcp(a.drop_first(), b.drop_first());
        assert forall|j: int| 0 <= j < lcp(a, b) implies a[j] == b[j] by {
            if j > 0 {
                assert(a.drop_first()[j - 1] == a[j]);
                assert(b.drop_first()[j - 1] == b[j]);
            }
        }
        let l = lcp(a, b) as int;
        if l < a.len() && l < b.len() {
            assert(a.drop_first()[l - 1] == a[l]);
            assert(b.drop_first()[l - 1] == b[l]);
        }
    }
}

/// Any length with the three properties of `lemma_lcp` is `lcp`.
pub proof fn lemma_lcp_unique(a: Seq<u8>, b: Seq<u8>, n: nat)
    requires
        n <= a.len(),
        n <= b.len(),
        forall|j: int| 0 <= j < n ==> a[j] == b[j],
        n < a.len() && n < b.len() ==> a[n as int] != b[n as int],
    ensures
        lcp(a, b) == n,
    decreases a.len(),
{
    if n == 0 {
    } else {
        assert(a[0] == b[0]);
        let a1 = a.drop_first();
        let b1 = b.drop_first();
        assert forall|j: int| 0 <= j < n - 1 implies a1[j] == b1[j] by {
            assert(a[j + 1] == b[j + 1]);
        }
        if n - 1 < a1.len() && n - 1 < b1.len() {
            assert(a1[n - 1] == a[n as int]);
            assert(b1[n - 1] == b[n as int]);
        }
        lemma_lcp_unique(a1, b1, (n - 1) as nat);
    }
}

/// Length of the common prefix of `a` and `b`; 0 when either is empty.
pub fn common_prefix(a: &[u8], b: &[u8]) -> (r: usize)
    ensures
        r == lcp(a@, b@),
{
    if a.len() == 0 || b.len() == 0 {
        return 0;
    }
    let mut it: usize = 0;
    while it < a.len() && it < b.len() && a[it] == b[it]
        invariant
            it <= a@.len(),
            it <= b@.len(),
            forall|j: int| 0 <= j < it ==> a@[j] == b@[j],
        decreases a@.len() - it,
    {
        it += 1;
    }
    proof {
        lemma_lcp_unique(a@, b@, it as nat);
    }
    it
}

/// `a < b` on byte strings, as `<` on `[u8]` computes it.
pub fn bytes_lt(a: &[u8], b: &[u8]) -> (r: bool)
    ensures
        r == seq_lt(a@, b@),
{
    let l = common_prefix(a, b);
    proof {
        lemma_lcp(a@, b@);
    }
    if l < a.len() && l < b.len() {
        a[l] < b[l]
    } else {
        a.len() < b.len()
    }
}

/// Byte-wise equality of two byte strings.
pub fn bytes_eq(a: &[u8], b: &[u8]) -> (r: bool)
    ensures
        r == (a@ == b@),
{
    if a.len() != b.len() {
        return false;
    }
    let mut i: usize = 0;
    while i < a.len()
        invariant
            a@.len() == b@.len(),
            i <= a@.len(),
            forall|j: int| 0 <= j < i ==> a@[j] == b@[j],
        decreases a@.len() - i,
    {
        if a[i] != b[i] {
            return false;
        }
        i += 1;
    }
    assert(a@ =~= b@);
    true
}

} // verus!
