use vstd::prelude::*;
use vstd::arithmetic::power2::pow2;
use vstd::string::StrSliceExecFns;
use crate::subsets::{generate_combinations, mask_string};
use crate::trie::Trie;

verus! {

/// The candidates retained by the membership filter, in the order they are
/// first accepted: a candidate stays when the index holds it and no equal
/// string was accepted before it.
pub open spec fn filter_dedup(cands: Seq<Seq<char>>, t: Trie) -> Seq<Seq<char>>
    decreases cands.len(),
{
    if cands.len() == 0 {
        Seq::empty()
    } else {
        let rest = filter_dedup(cands.drop_last(), t);
        if t.contains_word(cands.last()) && !rest.contains(cands.last()) {
            rest.push(cands.last())
        } else {
            rest
        }
    }
}

/// Place `x` behind every element at least as long as `x`, and in front of
/// the first strictly shorter one: insertion by non-increasing length that
/// keeps elements of equal length in their old order.
pub open spec fn insert_desc(s: Seq<Seq<char>>, x: Seq<char>) -> Seq<Seq<char>>
    decreases s.len(),
{
    if s.len() == 0 {
        seq![x]
    } else if s[0].len() >= x.len() {
        seq![s[0]] + insert_desc(s.drop_first(), x)
    } else {
        seq![x] + s
    }
}

/// Stable insertion sort by non-increasing length: elements of equal length
/// keep the order in which they arrived.
pub open spec fn sort_desc(s: Seq<Seq<char>>) -> Seq<Seq<char>>
    decreases s.len(),
{
    if s.len() == 0 {
        Seq::empty()
    } else {
        insert_desc(sort_desc(s.drop_last()), s.last())
    }
}

/// Sorted by non-increasing length: no element is longer than one before it.
pub open spec fn sorted_desc(s: Seq<Seq<char>>) -> bool {
    forall|i: int, j: int| 0 <= i <= j < s.len() ==> (#[trigger] s[i]).len() >= (#[trigger] s[j]).len()
}

/// Whether one of the strings in `v` reads exactly as `s`.
fn contains_string(v: &Vec<String>, s: &String) -> (r: bool)
    ensures
        r == v.deep_view().contains(s@),
{
    let ghost dv = v.deep_view();
    let mut k: usize = 0;
    while k < v.len()
        invariant
            k <= v.len(),
            dv == v.deep_view(),
            dv.len() == v.len(),
            forall|k2: int| 0 <= k2 < k ==> dv[k2] != s@,
        decreases v.len() - k,
    {
        proof {
            assert(dv[k as int] == v@[k as int]@);
        }
        if v[k] == *s {
            proof {
                assert(dv.contains(s@));
            }
            return true;
        }
        k += 1;
    }
    proof {
        if dv.contains(s@) {
            let k2 = choose|k2: int| 0 <= k2 < dv.len() && dv[k2] == s@;
            assert(false);
        }
    }
    false
}

/// Keep, in first-seen order, each candidate that the dictionary index holds
/// and that did not already appear among the retained ones: exact membership
/// plus deduplication, as `filter_dedup` states.
fn filter_candidates(tree: &Trie, combinations: Vec<String>) -> (res: Vec<String>)
    requires
        tree.wf(),
    ensures
        res.deep_view() == filter_dedup(combinations.deep_view(), *tree),
{
    let ghost dv = combinations.deep_view();
    let mut valid_words: Vec<String> = Vec::new();
    let mut idx: usize = 0;
    proof {
        assert(valid_words.deep_view() =~= filter_dedup(dv.take(0), *tree));
    }
    while idx < combinations.len()
        invariant
            tree.wf(),
            idx <= combinations.len(),
            dv == combinations.deep_view(),
            dv.len() == combinations.len(),
            valid_words.deep_view() == filter_dedup(dv.take(idx as int), *tree),
        decreases combinations.len() - idx,
    {
        let ghost before = valid_words.deep_view();
        let combination = &combinations[idx];
        proof {
            assert(dv[idx as int] == combinations@[idx as int]@);
            assert(dv.take(idx as int + 1).drop_last() =~= dv.take(idx as int));
            assert(dv.take(idx as int + 1).last() == dv[idx as int]);
        }
        let keep = tree.contains(combination.as_str());
        if keep && !contains_string(&valid_words, combination) {
            valid_words.push(combination.clone());
            proof {
                assert(valid_words.deep_view() =~= before.push(dv[idx as int]));
            }
        }
        idx += 1;
    }
    proof {
        assert(dv.take(combinations.len() as int) =~= dv);
    }
    valid_words
}

/// Where `x` belongs among the already sorted strings: past every one that
/// is at least as long, in front of the first strictly shorter one.
fn position_for_length(v: &Vec<String>, xlen: usize) -> (j: usize)
    ensures
        j <= v@.len(),
        forall|k: int| 0 <= k < j ==> (#[trigger] v.deep_view()[k]).len() >= xlen,
        j < v@.len() ==> v.deep_view()[j as int].len() < xlen,
{
    let ghost dv = v.deep_view();
    let mut j: usize = 0;
    while j < v.len()
        invariant
            j <= v.len(),
            dv == v.deep_view(),
            dv.len() == v.len(),
            forall|k: int| 0 <= k < j ==> (#[trigger] dv[k]).len() >= xlen,
        decreases v.len() - j,
    {
        proof {
            assert(dv[j as int] == v@[j as int]@);
        }
        if v[j].as_str().unicode_len() < xlen {
            return j;
        }
        j += 1;
    }
    j
}

/// Inserting at the first position whose element is strictly shorter is
/// exactly what `insert_desc` does.
proof fn lemma_insert_desc_split(s: Seq<Seq<char>>, x: Seq<char>, j: int)
    requires
        0 <= j <= s.len(),
        forall|k: int| 0 <= k < j ==> (#[trigger] s[k]).len() >= x.len(),
        j < s.len() ==> s[j].len() < x.len(),
    ensures
        insert_desc(s, x) == s.insert(j, x),
    decreases j,
{
    if j == 0 {
        if s.len() == 0 {
            assert(insert_desc(s, x) =~= s.insert(0, x));
        } else {
            assert(s[0].len() < x.len());
            assert(insert_desc(s, x) =~= s.insert(0, x));
        }
    } else {
        assert(s[0].len() >= x.len());
        lemma_insert_desc_split(s.drop_first(), x, j - 1);
        assert(seq![s[0]] + s.drop_first().insert(j - 1, x) =~= s.insert(j, x));
    }
}

/// Sort the retained words by non-increasing length. The sort is stable:
/// words of equal length keep their first-seen order, as `sort_desc` states.
pub fn sort_by_length_desc(words: Vec<String>) -> (res: Vec<String>)
    ensures
        res.deep_view() == sort_desc(words.deep_view()),
{
    let ghost dv = words.deep_view();
    let mut res: Vec<String> = Vec::new();
    let mut idx: usize = 0;
    proof {
        assert(res.deep_view() =~= sort_desc(dv.take(0)));
    }
    while idx < words.len()
        invariant
            idx <= words.len(),
            dv == words.deep_view(),
            dv.len() == words.len(),
            res.deep_view() == sort_desc(dv.take(idx as int)),
        decreases words.len() - idx,
    {
        let ghost before = res.deep_view();
        let x = words[idx].clone();
        proof {
            assert(x@ == dv[idx as int]);
        }
        let xlen = x.as_str().unicode_len();
        let j = position_for_length(&res, xlen);
        res.insert(j, x);
        proof {
            lemma_insert_desc_split(before, dv[idx as int], j as int);
            assert(res.deep_view() =~= before.insert(j as int, dv[idx as int]));
            assert(dv.take(idx as int + 1).drop_last() =~= dv.take(idx as int));
            assert(dv.take(idx as int + 1).last() == dv[idx as int]);
        }
        idx += 1;
    }
    proof {
        assert(dv.take(words.len() as int) =~= dv);
    }
    res
}

/// The valid words among the candidates: every candidate the dictionary
/// index holds, deduplicated in first-seen order, then sorted by
/// non-increasing length — words of equal length keep the order in which
/// they were first accepted. The result is free of duplicates.
pub fn get_valid_words(tree: &Trie, combinations: Vec<String>) -> (res: Vec<String>)
    requires
        tree.wf(),
    ensures
        res.deep_view() == sort_desc(filter_dedup(combinations.deep_view(), *tree)),
        sorted_desc(res.deep_view()),
        res.deep_view().no_duplicates(),
{
    let ghost dv = combinations.deep_view();
    let retained = filter_candidates(tree, combinations);
    let res = sort_by_length_desc(retained);
    proof {
        lemma_filter_dedup_no_duplicates(dv, *tree);
        lemma_sort_desc_properties(filter_dedup(dv, *tree));
    }
    res
}

/// The filter never retains two equal strings, however many equal
/// candidates it is offered: its output has no duplicates.
pub proof fn lemma_filter_dedup_no_duplicates(cands: Seq<Seq<char>>, t: Trie)
    ensures
        filter_dedup(cands, t).no_duplicates(),
    decreases cands.len(),
{
    if cands.len() > 0 {
        lemma_filter_dedup_no_duplicates(cands.drop_last(), t);
        let rest = filter_dedup(cands.drop_last(), t);
        let x = cands.last();
        if t.contains_word(x) && !rest.contains(x) {
            let r = rest.push(x);
            assert forall|i: int, j: int| 0 <= i < j < r.len() implies r[i] != r[j] by {
                if j == r.len() - 1 {
                    if r[i] == x {
                        assert(rest[i] == x);
                        assert(rest.contains(x));
                    }
                }
            }
        }
    }
}

/// Insertion by length keeps exactly the old strings plus the new one, and
/// keeps them free of duplicates when the new one is no repeat.
proof fn lemma_insert_desc_elems(s: Seq<Seq<char>>, x: Seq<char>)
    ensures
        insert_desc(s, x).len() == s.len() + 1,
        forall|y: Seq<char>| #![trigger insert_desc(s, x).contains(y)]
            insert_desc(s, x).contains(y) <==> (s.contains(y) || y == x),
        s.no_duplicates() && !s.contains(x) ==> insert_desc(s, x).no_duplicates(),
    decreases s.len(),
{
    let r = insert_desc(s, x);
    if s.len() == 0 {
        assert forall|y: Seq<char>| r.contains(y) implies (s.contains(y) || y == x) by {
            let n = choose|n: int| 0 <= n < r.len() && r[n] == y;
        }
        assert(r.contains(x)) by {
            assert(r[0] == x);
        }
    } else if s[0].len() >= x.len() {
        lemma_insert_desc_elems(s.drop_first(), x);
        let ri = insert_desc(s.drop_first(), x);
        assert(r =~= seq![s[0]] + ri);
        assert forall|y: Seq<char>| r.contains(y) implies (s.contains(y) || y == x) by {
            let n = choose|n: int| 0 <= n < r.len() && r[n] == y;
            if n == 0 {
                assert(s[0] == y);
            } else {
                assert(ri[n - 1] == y);
                assert(ri.contains(y));
                if s.drop_first().contains(y) {
                    let k = choose|k: int|
                        0 <= k < s.drop_first().len() && s.drop_first()[k] == y;
                    assert(s[k + 1] == y);
                }
            }
        }
        assert forall|y: Seq<char>| (s.contains(y) || y == x) implies r.contains(y) by {
            if s.contains(y) {
                let k = choose|k: int| 0 <= k < s.len() && s[k] == y;
                if k == 0 {
                    assert(r[0] == y);
                } else {
                    assert(s.drop_first()[k - 1] == y);
                    assert(s.drop_first().contains(y));
                    assert(insert_desc(s.drop_first(), x).contains(y) <==> (
                    s.drop_first().contains(y) || y == x));
                    assert(ri.contains(y));
                    let n = choose|n: int| 0 <= n < ri.len() && ri[n] == y;
                    assert(r[n + 1] == y);
                }
            } else {
                assert(insert_desc(s.drop_first(), x).contains(x) <==> (s.drop_first().contains(x) || x == x));
                assert(ri.contains(x));
                let n = choose|n: int| 0 <= n < ri.len() && ri[n] == x;
                assert(r[n + 1] == x);
            }
        }
        if s.no_duplicates() && !s.contains(x) {
            assert(s.drop_first().no_duplicates()) by {
                assert forall|i: int, j: int|
                    0 <= i < j < s.drop_first().len() implies s.drop_first()[i]
                    != s.drop_first()[j] by {
                    assert(s.drop_first()[i] == s[i + 1]);
                    assert(s.drop_first()[j] == s[j + 1]);
                }
            }
            assert(!s.drop_first().contains(x)) by {
                if s.drop_first().contains(x) {
                    let k = choose|k: int|
                        0 <= k < s.drop_first().len() && s.drop_first()[k] == x;
                    assert(s[k + 1] == x);
                    assert(s.contains(x));
                }
            }
            assert forall|i: int, j: int| 0 <= i < j < r.len() implies r[i] != r[j] by {
                if i == 0 {
                    assert(r[j] == ri[j - 1]);
                    assert(ri.contains(ri[j - 1]));
                    if r[0] == ri[j - 1] {
                        assert(s.drop_first().contains(s[0]) || s[0] == x);
                        if s.drop_first().contains(s[0]) {
                            let k = choose|k: int|
                                0 <= k < s.drop_first().len() && s.drop_first()[k] == s[0];
                            assert(s[k + 1] == s[0]);
                        } else {
                            assert(s.contains(x)) by {
                                assert(s[0] == x);
                            }
                        }
                    }
                } else {
                    assert(r[i] == ri[i - 1]);
                    assert(r[j] == ri[j - 1]);
                }
            }
        }
    } else {
        assert(r =~= seq![x] + s);
        assert forall|y: Seq<char>| r.contains(y) implies (s.contains(y) || y == x) by {
            let n = choose|n: int| 0 <= n < r.len() && r[n] == y;
            if n > 0 {
                assert(s[n - 1] == y);
            }
        }
        assert forall|y: Seq<char>| (s.contains(y) || y == x) implies r.contains(y) by {
            if s.contains(y) {
                let k = choose|k: int| 0 <= k < s.len() && s[k] == y;
                assert(r[k + 1] == y);
            } else {
                assert(r[0] == x);
            }
        }
        if s.no_duplicates() && !s.contains(x) {
            assert forall|i: int, j: int| 0 <= i < j < r.len() implies r[i] != r[j] by {
                if i == 0 {
                    if r[0] == r[j] {
                        assert(s[j - 1] == x);
                        assert(s.contains(x));
                    }
                } else {
                    assert(r[i] == s[i - 1]);
                    assert(r[j] == s[j - 1]);
                }
            }
        }
    }
}

/// Insertion by length keeps the sequence sorted by non-increasing length.
proof fn lemma_insert_desc_sorted(s: Seq<Seq<char>>, x: Seq<char>)
    requires
        sorted_desc(s),
    ensures
        sorted_desc(insert_desc(s, x)),
    decreases s.len(),
{
    let r = insert_desc(s, x);
    lemma_insert_desc_elems(s, x);
    if s.len() == 0 {
        assert(sorted_desc(r)) by {
            assert(r.len() == 1);
        }
    } else if s[0].len() >= x.len() {
        assert(sorted_desc(s.drop_first())) by {
            assert forall|i: int, j: int|
                0 <= i <= j < s.drop_first().len() implies (#[trigger] s.drop_first()[i]).len()
                >= (#[trigger] s.drop_first()[j]).len() by {
                assert(s.drop_first()[i] == s[i + 1]);
                assert(s.drop_first()[j] == s[j + 1]);
            }
        }
        lemma_insert_desc_sorted(s.drop_first(), x);
        lemma_insert_desc_elems(s.drop_first(), x);
        let ri = insert_desc(s.drop_first(), x);
        assert(r =~= seq![s[0]] + ri);
        assert forall|i: int, j: int| 0 <= i <= j < r.len() implies (#[trigger] r[i]).len()
            >= (#[trigger] r[j]).len() by {
            if i == 0 && j > 0 {
                assert(r[j] == ri[j - 1]);
                assert(ri.contains(ri[j - 1]));
                assert(insert_desc(s.drop_first(), x).contains(ri[j - 1]) <==> (
                s.drop_first().contains(ri[j - 1]) || ri[j - 1] == x));
                if s.drop_first().contains(ri[j - 1]) {
                    let k = choose|k: int|
                        0 <= k < s.drop_first().len() && s.drop_first()[k] == ri[j - 1];
                    assert(s.drop_first()[k] == s[k + 1]);
                    assert(s[0].len() >= s[k + 1].len());
                } else {
                    assert(ri[j - 1] == x);
                }
            } else if i > 0 {
                assert(r[i] == ri[i - 1]);
                assert(r[j] == ri[j - 1]);
            }
        }
    } else {
        assert(r =~= seq![x] + s);
        assert forall|i: int, j: int| 0 <= i <= j < r.len() implies (#[trigger] r[i]).len()
            >= (#[trigger] r[j]).len() by {
            if i == 0 && j > 0 {
                assert(r[j] == s[j - 1]);
                assert(s[0].len() >= s[j - 1].len());
            } else if i > 0 {
                assert(r[i] == s[i - 1]);
                assert(r[j] == s[j - 1]);
            }
        }
    }
}

/// The sorted output is ordered by non-increasing length: every string is at
/// least as long as any string after it. It holds the same strings as its
/// input, and stays free of duplicates whenever the input is.
pub proof fn lemma_sort_desc_properties(s: Seq<Seq<char>>)
    ensures
        sorted_desc(sort_desc(s)),
        sort_desc(s).len() == s.len(),
        forall|y: Seq<char>| #![trigger sort_desc(s).contains(y)]
            sort_desc(s).contains(y) <==> s.contains(y),
        s.no_duplicates() ==> sort_desc(s).no_duplicates(),
    decreases s.len(),
{
    if s.len() == 0 {
        assert forall|y: Seq<char>| !sort_desc(s).contains(y) by {}
        assert forall|y: Seq<char>| !s.contains(y) by {}
    } else {
        let dl = s.drop_last();
        let x = s.last();
        lemma_sort_desc_properties(dl);
        let sd = sort_desc(dl);
        lemma_insert_desc_sorted(sd, x);
        lemma_insert_desc_elems(sd, x);
        assert forall|y: Seq<char>| sort_desc(s).contains(y) <==> s.contains(y) by {
            assert(sort_desc(s) == insert_desc(sd, x));
            if sort_desc(s).contains(y) {
                assert(insert_desc(sd, x).contains(y) <==> (sd.contains(y) || y == x));
                if sd.contains(y) {
                    assert(sort_desc(dl).contains(y) <==> dl.contains(y));
                    let k = choose|k: int| 0 <= k < dl.len() && dl[k] == y;
                    assert(s[k] == y);
                } else {
                    assert(y == x);
                    assert(s[s.len() - 1] == x);
                }
                assert(s.contains(y));
            }
            if s.contains(y) {
                let k = choose|k: int| 0 <= k < s.len() && s[k] == y;
                if k < s.len() - 1 {
                    assert(dl[k] == y);
                    assert(dl.contains(y));
                    assert(sort_desc(dl).contains(y) <==> dl.contains(y));
                } else {
                    assert(y == x);
                }
                assert(insert_desc(sd, x).contains(y) <==> (sd.contains(y) || y == x));
                assert(sort_desc(s).contains(y));
            }
        }
        if s.no_duplicates() {
            assert(dl.no_duplicates()) by {
                assert forall|i: int, j: int| 0 <= i < j < dl.len() implies dl[i] != dl[j] by {
                    assert(dl[i] == s[i]);
                    assert(dl[j] == s[j]);
                }
            }
            assert(!sd.contains(x)) by {
                if sd.contains(x) {
                    assert(dl.contains(x));
                    let k = choose|k: int| 0 <= k < dl.len() && dl[k] == x;
                    assert(s[k] == s[s.len() - 1]);
                }
            }
        }
    }
}

/// The candidate sequence for a target word: the subset string of every
/// non-empty position mask, in ascending mask order.
pub open spec fn candidate_strings(w: Seq<char>) -> Seq<Seq<char>> {
    Seq::new((pow2(w.len()) - 1) as nat, |k: int| mask_string(w, (k + 1) as nat))
}

/// The valid subset words of `target` under the dictionary index: every
/// candidate subset string the index holds, deduplicated in first-seen
/// order, then sorted by non-increasing length. The result is free of
/// duplicates and ordered by non-increasing length.
pub fn find_valid_subset_words(target: &str, index: &Trie) -> (res: Vec<String>)
    requires
        index.wf(),
        pow2(target@.len()) <= usize::MAX as nat,
    ensures
        res.deep_view() == sort_desc(filter_dedup(candidate_strings(target@), *index)),
        sorted_desc(res.deep_view()),
        res.deep_view().no_duplicates(),
{
    let combinations = generate_combinations(target);
    proof {
        assert(combinations.deep_view() =~= candidate_strings(target@));
    }
    get_valid_words(index, combinations)
}

} // verus!
