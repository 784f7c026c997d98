//! The message-schedule extension: for `i` in `16..64`, the word `w[i]` is
//! recomputed from `w[i - 15]`.
use vstd::prelude::*;

verus! {

/// One step of the extension on the word `x = w[i - 15]`:
/// `x ^ (x >> 1) ^ (x >> 2) ^ (x >> 3)`.
pub open spec fn extend_word(x: u32) -> u32 {
    x ^ (x >> 1u32) ^ (x >> 2u32) ^ (x >> 3u32)
}

/// The words after the first `n` steps of the extension, that is after
/// `w[16]`, ..., `w[16 + n - 1]` have been recomputed in this order.
pub open spec fn extend_steps(w: Seq<u32>, n: nat) -> Seq<u32>
    decreases n,
{
    if n == 0 {
        w
    } else {
        let prev = extend_steps(w, (n - 1) as nat);
        let i = 16 + n - 1;
        prev.update(i, extend_word(prev[i - 15]))
    }
}

/// The result of the whole extension (all 48 steps) on `w`.
pub open spec fn sha_extend_spec(w: Seq<u32>) -> Seq<u32> {
    extend_steps(w, 48)
}

/// `out` is an extension of `w`: same length, the words outside `16..64`
/// are those of `w`, and each word in `16..64` is the step applied to the
/// word of `out` fifteen places before it.
pub open spec fn is_extension_of(out: Seq<u32>, w: Seq<u32>) -> bool {
    &&& out.len() == w.len()
    &&& forall|i: int| 0 <= i < w.len() && !(16 <= i < 64) ==> #[trigger] out[i] == w[i]
    &&& forall|i: int| 16 <= i < 64 ==> #[trigger] out[i] == extend_word(out[i - 15])
}

/// After `n <= 48` steps: the length is kept, the words not yet recomputed
/// are those of `w`, and the recomputed ones satisfy the recurrence.
pub proof fn lemma_extend_steps_shape(w: Seq<u32>, n: nat)
    requires
        w.len() >= 64,
        n <= 48,
    ensures
        extend_steps(w, n).len() == w.len(),
        forall|i: int|
            0 <= i < w.len() && !(16 <= i < 16 + n) ==> #[trigger] extend_steps(w, n)[i] == w[i],
        forall|i: int|
            16 <= i < 16 + n ==> #[trigger] extend_steps(w, n)[i] == extend_word(
                extend_steps(w, n)[i - 15],
            ),
    decreases n,
{
    if n > 0 {
        lemma_extend_steps_shape(w, (n - 1) as nat);
    }
}

/// A word that is already final after `n` steps stays so after `m >= n` steps.
pub proof fn lemma_extend_steps_stable(w: Seq<u32>, n: nat, m: nat, k: int)
    requires
        w.len() >= 64,
        n <= m <= 48,
        0 <= k < 16 + n,
    ensures
        extend_steps(w, m)[k] == extend_steps(w, n)[k],
    decreases m - n,
{
    if m > n {
        lemma_extend_steps_stable(w, n, (m - 1) as nat, k);
        lemma_extend_steps_shape(w, (m - 1) as nat);
    }
}

/// The extension of `w` is an extension of `w` in the sense of `is_extension_of`.
pub proof fn lemma_sha_extend_is_extension(w: Seq<u32>)
    requires
        w.len() >= 64,
    ensures
        is_extension_of(sha_extend_spec(w), w),
{
    lemma_extend_steps_shape(w, 48);
}

/// Two extensions of the same words agree on every index below `k`.
proof fn lemma_extensions_agree_below(a: Seq<u32>, b: Seq<u32>, w: Seq<u32>, k: nat)
    requires
        w.len() >= 64,
        is_extension_of(a, w),
        is_extension_of(b, w),
        k <= w.len(),
    ensures
        forall|i: int| 0 <= i < k ==> #[trigger] a[i] == b[i],
    decreases k,
{
    if k > 0 {
        lemma_extensions_agree_below(a, b, w, (k - 1) as nat);
        let i = k - 1;
        if 16 <= i < 64 {
            assert(a[i - 15] == b[i - 15]);
            assert(a[i] == extend_word(a[i - 15]));
            assert(b[i] == extend_word(b[i - 15]));
        } else {
            assert(a[i] == w[i]);
            assert(b[i] == w[i]);
        }
    }
}

/// There is exactly one extension of `w`, the result of `sha_extend_spec`.
pub proof fn lemma_extension_unique(out: Seq<u32>, w: Seq<u32>)
    requires
        w.len() >= 64,
        is_extension_of(out, w),
    ensures
        out == sha_extend_spec(w),
{
    lemma_sha_extend_is_extension(w);
    lemma_extensions_agree_below(out, sha_extend_spec(w), w, w.len());
    assert(out =~= sha_extend_spec(w));
}

/// Extending twice gives what extending once gives: the words that the
/// extension writes already satisfy the recurrence it computes.
pub proof fn lemma_sha_extend_idempotent(w: Seq<u32>)
    requires
        w.len() >= 64,
    ensures
        sha_extend_spec(sha_extend_spec(w)) == sha_extend_spec(w),
{
    let once = sha_extend_spec(w);
    lemma_sha_extend_is_extension(w);
    assert(is_extension_of(once, once));
    lemma_extension_unique(once, once);
}

/// The extension reads nothing of the words at `16..64`: two inputs that agree
/// everywhere else are extended to the same words.
pub proof fn lemma_sha_extend_ignores_overwritten_words(w1: Seq<u32>, w2: Seq<u32>)
    requires
        w1.len() >= 64,
        w1.len() == w2.len(),
        forall|i: int| 0 <= i < w1.len() && !(16 <= i < 64) ==> #[trigger] w1[i] == w2[i],
    ensures
        sha_extend_spec(w1) == sha_extend_spec(w2),
{
    lemma_sha_extend_is_extension(w1);
    assert(is_extension_of(sha_extend_spec(w1), w2));
    lemma_extension_unique(sha_extend_spec(w1), w2);
}

/// The word-wise exclusive-or of two sequences of the same length.
pub open spec fn xor_words(a: Seq<u32>, b: Seq<u32>) -> Seq<u32> {
    Seq::new(a.len(), |i: int| a[i] ^ b[i])
}

/// The extension is linear over exclusive-or: extending the word-wise
/// exclusive-or of two inputs gives the exclusive-or of their extensions.
pub proof fn lemma_sha_extend_linear(w1: Seq<u32>, w2: Seq<u32>)
    requires
        w1.len() >= 64,
        w1.len() == w2.len(),
    ensures
        sha_extend_spec(xor_words(w1, w2)) == xor_words(sha_extend_spec(w1), sha_extend_spec(w2)),
{
    let e1 = sha_extend_spec(w1);
    let e2 = sha_extend_spec(w2);
    let out = xor_words(e1, e2);
    let w = xor_words(w1, w2);
    lemma_sha_extend_is_extension(w1);
    lemma_sha_extend_is_extension(w2);
    assert forall|i: int| 16 <= i < 64 implies #[trigger] out[i] == extend_word(out[i - 15]) by {
        let a = e1[i - 15];
        let b = e2[i - 15];
        assert(extend_word(a ^ b) == extend_word(a) ^ extend_word(b)) by (bit_vector);
    }
    assert(is_extension_of(out, w));
    lemma_extension_unique(out, w);
}

/// Extends the first 64 words of `w` in place: for `i` in `16..64`,
/// `w[i] := w[i - 15] ^ (w[i - 15] >> 1) ^ (w[i - 15] >> 2) ^ (w[i - 15] >> 3)`,
/// where `w[i - 15]` is read after the steps before `i` have written it.
pub fn sha_extend(w: &mut [u32])
    requires
        old(w)@.len() >= 64,
    ensures
        final(w)@ == sha_extend_spec(old(w)@),
        is_extension_of(final(w)@, old(w)@),
{
    let ghost w0 = w@;
    for i in 16..64usize
        invariant
            w0.len() >= 64,
            w@ == extend_steps(w0, (i - 16) as nat),
    {
        proof {
            lemma_extend_steps_shape(w0, (i - 16) as nat);
        }
        let x = w[i - 15];
        let s0 = x >> 1;
        let s1 = x >> 2;
        let s = x >> 3;
        w[i] = x ^ s0 ^ s1 ^ s;
        assert(w@ =~= extend_steps(w0, (i - 15) as nat));
    }
    proof {
        lemma_sha_extend_is_extension(w0);
    }
}

} // verus!
