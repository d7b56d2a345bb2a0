use vstd::prelude::*;
use vstd::arithmetic::power2::{lemma_pow2_pos, lemma_pow2_strictly_increases, lemma_pow2_unfold, pow2};
use vstd::string::StrSliceExecFns;

verus! {

/// The subset string of `w` picked out by the bit mask `m`: the characters
/// standing at the positions whose bit is set, in increasing position order.
/// Bit 0 of the mask selects the first character.
pub open spec fn mask_string(w: Seq<char>, m: nat) -> Seq<char>
    decreases w.len(),
{
    if w.len() == 0 {
        Seq::empty()
    } else {
        (if m % 2 == 1 {
            seq![w[0]]
        } else {
            Seq::empty()
        }) + mask_string(w.drop_first(), m / 2)
    }
}

/// `a` can be picked out of `w` by positions that strictly increase from
/// left to right.
pub open spec fn is_subselection(a: Seq<char>, w: Seq<char>) -> bool
    decreases w.len(),
{
    if a.len() == 0 {
        true
    } else if w.len() == 0 {
        false
    } else if a[0] == w[0] && is_subselection(a.drop_first(), w.drop_first()) {
        true
    } else {
        is_subselection(a, w.drop_first())
    }
}

/// Every masked subset string is a strictly increasing-position selection
/// out of the word it was taken from.
pub proof fn lemma_mask_string_subselection(w: Seq<char>, m: nat)
    ensures
        is_subselection(mask_string(w, m), w),
    decreases w.len(),
{
    if w.len() > 0 {
        lemma_mask_string_subselection(w.drop_first(), m / 2);
        let rest = mask_string(w.drop_first(), m / 2);
        if m % 2 == 1 {
            let a = mask_string(w, m);
            assert(a == seq![w[0]] + rest);
            assert(a[0] == w[0]);
            assert(a.drop_first() =~= rest);
        } else {
            assert(mask_string(w, m) =~= rest);
        }
    }
}

/// Appends one character at the end of a string.
/// Relies on String::push: the new character follows the old contents.
#[verifier::external_body]
fn push_char(s: &mut String, c: char)
    ensures
        final(s)@ == old(s)@.push(c),
{
    s.push(c);
}

/// Enumerate the candidate subset strings of `word`: one string for each
/// non-empty subset of its character positions, ordered by ascending bit
/// mask, mask `k + 1` at position `k`. A word of `n` characters yields
/// exactly `2^n - 1` candidates. The bound on `2^n` is what a vector on
/// this machine can hold at all.
pub fn generate_combinations(word: &str) -> (res: Vec<String>)
    requires
        pow2(word@.len()) <= usize::MAX as nat,
    ensures
        res@.len() == pow2(word@.len()) - 1,
        forall|k: int| 0 <= k < res@.len() ==> #[trigger] res@[k]@ == mask_string(
            word@,
            (k + 1) as nat,
        ),
{
    let ghost w = word@;
    let n = word.unicode_len();
    let mut total: usize = 1;
    let mut q: usize = 0;
    proof {
        assert(pow2(0) == 1) by {
            vstd::arithmetic::power2::lemma2_to64();
        }
    }
    while q < n
        invariant
            q <= n,
            n == w.len(),
            pow2(w.len()) <= usize::MAX as nat,
            total == pow2(q as nat),
        decreases n - q,
    {
        proof {
            lemma_pow2_unfold(q as nat + 1);
            if q + 1 < n {
                lemma_pow2_strictly_increases(q as nat + 1, w.len());
            }
        }
        total = total * 2;
        q += 1;
    }
    proof {
        lemma_pow2_pos(w.len());
    }
    let mut res: Vec<String> = Vec::new();
    let mut i: usize = 1;
    while i < total
        invariant
            n == w.len(),
            w == word@,
            total == pow2(w.len()),
            1 <= i <= total,
            res@.len() == i - 1,
            forall|k: int| 0 <= k < res@.len() ==> #[trigger] res@[k]@ == mask_string(
                w,
                (k + 1) as nat,
            ),
        decreases total - i,
    {
        let mut combination = String::new();
        let mut m: usize = i;
        let mut j: usize = 0;
        proof {
            assert(w.skip(0) =~= w);
            assert(Seq::<char>::empty() + mask_string(w, i as nat) =~= mask_string(w, i as nat));
        }
        while j < n
            invariant
                j <= n,
                n == w.len(),
                w == word@,
                mask_string(w, i as nat) == combination@ + mask_string(
                    w.skip(j as int),
                    m as nat,
                ),
            decreases n - j,
        {
            let ghost tail = w.skip(j as int);
            proof {
                assert(tail.drop_first() =~= w.skip(j as int + 1));
                assert(tail[0] == w[j as int]);
            }
            if m % 2 == 1 {
                push_char(&mut combination, word.get_char(j));
                proof {
                    assert(combination@ + mask_string(w.skip(j as int + 1), (m / 2) as nat)
                        =~= (combination@.drop_last() + seq![w[j as int]]) + mask_string(
                        w.skip(j as int + 1),
                        (m / 2) as nat,
                    ));
                    assert(combination@.drop_last() + (seq![w[j as int]] + mask_string(
                        w.skip(j as int + 1),
                        (m / 2) as nat,
                    )) =~= (combination@.drop_last() + seq![w[j as int]]) + mask_string(
                        w.skip(j as int + 1),
                        (m / 2) as nat,
                    ));
                }
            }
            m = m / 2;
            j += 1;
        }
        proof {
            assert(w.skip(n as int).len() == 0);
            assert(combination@ + mask_string(w.skip(n as int), m as nat) =~= combination@);
        }
        res.push(combination);
        i += 1;
    }
    res
}

} // verus!
