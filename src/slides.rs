use vstd::prelude::*;
use vstd::arithmetic::power2::{pow2, lemma_pow2_unfold};
use vstd::arithmetic::power::lemma_pow0;

verus! {

/// Total number of stones in a sequence of drop counts.
pub open spec fn drop_sum(s: Seq<u8>) -> int
    decreases s.len(),
{
    if s.len() == 0 {
        0
    } else {
        s[0] as int + drop_sum(s.drop_first())
    }
}

/// A way to carry at most `h` stones: at least one square, at least one stone
/// left on each, and no more than `h` stones in all.
pub open spec fn is_drop_pattern(s: Seq<u8>, h: int) -> bool {
    &&& s.len() >= 1
    &&& forall|k: int| 0 <= k < s.len() ==> s[k] > 0
    &&& drop_sum(s) <= h
}

/// The entry for stack height `h`: every drop pattern for `h`, each exactly once;
/// there are 2^h - 1 of them (the sum over g = 1..h of 2^(g-1)).
pub open spec fn is_slide_entry(e: Seq<Vec<u8>>, h: int) -> bool {
    &&& forall|k: int| 0 <= k < e.len() ==> is_drop_pattern(#[trigger] e[k]@, h)
    &&& forall|s: Seq<u8>| #[trigger] is_drop_pattern(s, h) ==> exists|k: int| 0 <= k < e.len() && e[k]@ == s
    &&& forall|k1: int, k2: int| 0 <= k1 < k2 < e.len() ==> #[trigger] e[k1]@ != #[trigger] e[k2]@
    &&& e.len() == pow2(h as nat) - 1
}

/// A table with one entry for each stack height from 0 to `size`.
pub open spec fn is_slide_table(t: Seq<Vec<Vec<u8>>>, size: int) -> bool {
    &&& t.len() == size + 1
    &&& forall|h: int| 0 <= h <= size ==> is_slide_entry(#[trigger] t[h]@, h)
}

proof fn lemma_drop_sum_prepend(i: u8, t: Seq<u8>)
    ensures
        drop_sum(seq![i] + t) == i + drop_sum(t),
        (seq![i] + t).drop_first() == t,
{
    assert((seq![i] + t).drop_first() =~= t);
}

proof fn lemma_drop_sum_at_least_len(s: Seq<u8>)
    requires
        forall|k: int| 0 <= k < s.len() ==> s[k] > 0,
    ensures
        drop_sum(s) >= s.len(),
    decreases s.len(),
{
    if s.len() > 0 {
        let t = s.drop_first();
        assert forall|k: int| 0 <= k < t.len() implies t[k] > 0 by {
            assert(t[k] == s[k + 1]);
        }
        lemma_drop_sum_at_least_len(t);
    }
}

fn prepend(i: u8, sub: &Vec<u8>) -> (t: Vec<u8>)
    ensures
        t@ == seq![i] + sub@,
{
    let mut t: Vec<u8> = Vec::new();
    t.push(i);
    let mut j: usize = 0;
    while j < sub.len()
        invariant
            j <= sub.len(),
            t@ == seq![i] + sub@.subrange(0, j as int),
        decreases sub.len() - j,
    {
        t.push(sub[j]);
        j += 1;
        assert(t@ =~= seq![i] + sub@.subrange(0, j as int));
    }
    assert(sub@.subrange(0, sub@.len() as int) =~= sub@);
    t
}

fn build_entry(result: &Vec<Vec<Vec<u8>>>, h: u8) -> (out: Vec<Vec<u8>>)
    requires
        1 <= h <= 8,
        is_slide_table(result@, h - 1),
    ensures
        is_slide_entry(out@, h as int),
{
    let mut out: Vec<Vec<u8>> = Vec::new();
    let mut i: u8 = 1;
    while i <= h
        invariant
            1 <= i <= h + 1,
            h <= 8,
            is_slide_table(result@, h - 1),
            forall|k: int| 0 <= k < out@.len() ==> is_drop_pattern(#[trigger] out@[k]@, h as int) && out@[k]@[0] < i,
            forall|s: Seq<u8>| #[trigger] is_drop_pattern(s, h as int) && s[0] < i ==> exists|k: int| 0 <= k < out@.len() && out@[k]@ == s,
            forall|k1: int, k2: int| 0 <= k1 < k2 < out@.len() ==> #[trigger] out@[k1]@ != #[trigger] out@[k2]@,
            out@.len() == pow2(h as nat) - pow2((h - i + 1) as nat),
        decreases h + 1 - i,
    {
        let ghost before = out@;
        let ghost n = before.len();
        out.push(vec![i]);
        let sub_entry = &result[(h - i) as usize];
        let ghost subs = sub_entry@;
        assert(is_slide_entry(subs, h - i));
        let mut j: usize = 0;
        while j < sub_entry.len()
            invariant
                j <= sub_entry.len(),
                subs == sub_entry@,
                out@.len() == n + 1 + j,
                forall|k: int| 0 <= k < n ==> #[trigger] out@[k] == before[k],
                out@[n as int]@ == seq![i],
                forall|k: int| 0 <= k < j ==> #[trigger] out@[n + 1 + k]@ == seq![i] + subs[k]@,
            decreases sub_entry.len() - j,
        {
            let t = prepend(i, &sub_entry[j]);
            out.push(t);
            j += 1;
        }
        proof {
            let ghost m = subs.len();
            assert forall|k: int| 0 <= k < out@.len() implies is_drop_pattern(#[trigger] out@[k]@, h as int) && out@[k]@[0] < i + 1 by {
                if k < n {
                    assert(out@[k] == before[k]);
                } else if k == n {
                    assert(drop_sum(seq![i]) == i) by {
                        lemma_drop_sum_prepend(i, Seq::<u8>::empty());
                        assert(seq![i] + Seq::<u8>::empty() =~= seq![i]);
                    }
                } else {
                    let q = k - n - 1;
                    assert(out@[n + 1 + q]@ == seq![i] + subs[q]@);
                    assert(is_drop_pattern(subs[q]@, h - i));
                    lemma_drop_sum_prepend(i, subs[q]@);
                    let s = out@[k]@;
                    assert forall|p: int| 0 <= p < s.len() implies s[p] > 0 by {
                        if p > 0 {
                            assert(s[p] == subs[q]@[p - 1]);
                        }
                    }
                }
            }
            assert forall|s: Seq<u8>| #[trigger] is_drop_pattern(s, h as int) && s[0] < i + 1 implies exists|k: int| 0 <= k < out@.len() && out@[k]@ == s by {
                if s[0] < i {
                    let k = choose|k: int| 0 <= k < before.len() && before[k]@ == s;
                    assert(out@[k] == before[k]);
                } else if s.len() == 1 {
                    assert(s =~= seq![i]);
                    assert(out@[n as int]@ == s);
                } else {
                    let tail = s.drop_first();
                    assert(s =~= seq![i] + tail);
                    lemma_drop_sum_prepend(i, tail);
                    assert forall|p: int| 0 <= p < tail.len() implies tail[p] > 0 by {
                        assert(tail[p] == s[p + 1]);
                    }
                    assert(is_drop_pattern(tail, h - i));
                    let q = choose|q: int| 0 <= q < subs.len() && subs[q]@ == tail;
                    assert(out@[n + 1 + q]@ == seq![i] + subs[q]@);
                }
            }
            assert forall|k1: int, k2: int| 0 <= k1 < k2 < out@.len() implies #[trigger] out@[k1]@ != #[trigger] out@[k2]@ by {
                if k2 < n {
                    assert(out@[k1] == before[k1]);
                    assert(out@[k2] == before[k2]);
                } else if k1 < n {
                    assert(out@[k1] == before[k1]);
                    assert(before[k1]@[0] < i);
                    if k2 > n {
                        let q = k2 - n - 1;
                        assert(out@[n + 1 + q]@ == seq![i] + subs[q]@);
                    }
                } else {
                    let q2 = k2 - n - 1;
                    assert(out@[n + 1 + q2]@ == seq![i] + subs[q2]@);
                    assert(is_drop_pattern(subs[q2]@, h - i));
                    if k1 == n {
                        assert(out@[k1]@.len() != out@[k2]@.len());
                    } else {
                        let q1 = k1 - n - 1;
                        assert(out@[n + 1 + q1]@ == seq![i] + subs[q1]@);
                        lemma_drop_sum_prepend(i, subs[q1]@);
                        lemma_drop_sum_prepend(i, subs[q2]@);
                        assert(subs[q1]@ != subs[q2]@);
                    }
                }
            }
            lemma_pow2_unfold((h - i + 1) as nat);
            assert(out@.len() == n + 1 + m);
        }
        i += 1;
    }
    proof {
        lemma_pow0(2);
        assert forall|s: Seq<u8>| #[trigger] is_drop_pattern(s, h as int) implies exists|k: int| 0 <= k < out@.len() && out@[k]@ == s by {
            lemma_drop_sum_at_least_len(s);
            lemma_drop_sum_prepend(s[0], s.drop_first());
            assert(s =~= seq![s[0]] + s.drop_first());
            assert forall|p: int| 0 <= p < s.drop_first().len() implies s.drop_first()[p] > 0 by {
                assert(s.drop_first()[p] == s[p + 1]);
            }
            lemma_drop_sum_at_least_len(s.drop_first());
        }
    }
    out
}

/// Builds the table of drop patterns for every stack height from 0 to `size`.
pub fn generate_slide_table(size: u8) -> (r: Vec<Vec<Vec<u8>>>)
    requires
        size <= 8,
    ensures
        is_slide_table(r@, size as int),
{
    let mut result: Vec<Vec<Vec<u8>>> = Vec::new();
    result.push(Vec::new());
    proof {
        lemma_pow0(2);
        assert forall|s: Seq<u8>| #[trigger] is_drop_pattern(s, 0) implies false by {
            lemma_drop_sum_at_least_len(s);
        }
        assert(is_slide_entry(result@[0]@, 0));
    }
    let mut stack: u8 = 1;
    while stack <= size
        invariant
            1 <= stack <= size + 1,
            size <= 8,
            is_slide_table(result@, stack - 1),
        decreases size + 1 - stack,
    {
        let out = build_entry(&result, stack);
        let ghost prev = result@;
        result.push(out);
        assert forall|h: int| 0 <= h <= stack implies is_slide_entry(#[trigger] result@[h]@, h) by {
            if h < stack {
                assert(result@[h] == prev[h]);
            }
        }
        stack += 1;
    }
    result
}

} // verus!
