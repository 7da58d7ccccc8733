//! Knuth-Morris-Pratt search: a failure table computed once per pattern lets
//! the scan of a text move on without comparing a symbol twice.

use vstd::prelude::*;
use vstd::string::StringSliceAdditionalSpecFns;

verus! {

/// The prefix of `p` of length `b` is also its suffix of length `b` within
/// the prefix of length `len`, and is shorter than it.
pub open spec fn is_border(p: Seq<u8>, len: int, b: int) -> bool {
    &&& 0 <= b < len <= p.len()
    &&& forall|t: int| 0 <= t < b ==> #[trigger] p[t] == p[len - b + t]
}

/// `v` is the length of the longest border of the prefix of `p` of length
/// `len`.
pub open spec fn is_longest_border(p: Seq<u8>, len: int, v: int) -> bool {
    &&& is_border(p, len, v)
    &&& forall|b: int| v < b < len ==> !#[trigger] is_border(p, len, b)
}

/// Entry `q` of `tab` is the length of the longest border of the prefix of
/// `p` of length `q + 1`.
pub open spec fn is_failure_table(p: Seq<u8>, tab: Seq<usize>) -> bool {
    &&& tab.len() == p.len()
    &&& forall|q: int| 0 <= q < p.len() ==> is_longest_border(p, q + 1, #[trigger] tab[q] as int)
}

/// `p` occurs in `h` at offset `s`.
pub open spec fn matches_at(h: Seq<u8>, p: Seq<u8>, s: int) -> bool {
    &&& 0 <= s
    &&& s + p.len() <= h.len()
    &&& forall|t: int| 0 <= t < p.len() ==> h[s + t] == #[trigger] p[t]
}

/// `p` occurs somewhere in `h`.
pub open spec fn occurs(h: Seq<u8>, p: Seq<u8>) -> bool {
    exists|s: int| matches_at(h, p, s)
}

/// `r` is the first offset of `p` in `h`, or `None` when there is none.
pub open spec fn is_first_match(h: Seq<u8>, p: Seq<u8>, r: Option<usize>) -> bool {
    match r {
        Some(s) => matches_at(h, p, s as int) && forall|x: int| 0 <= x < s ==> !matches_at(h, p, x),
        None => forall|x: int| !matches_at(h, p, x),
    }
}

proof fn lemma_border_of_border(p: Seq<u8>, len: int, k: int, b: int)
    requires
        is_border(p, len, k),
        is_border(p, len, b),
        b < k,
    ensures
        is_border(p, k, b),
{
    assert forall|t: int| 0 <= t < b implies #[trigger] p[t] == p[k - b + t] by {
        assert(p[t] == p[len - b + t]);
        assert(p[k - b + t] == p[len - k + (k - b + t)]);
    }
}

proof fn lemma_border_trans(p: Seq<u8>, len: int, k: int, b: int)
    requires
        is_border(p, len, k),
        is_border(p, k, b),
    ensures
        is_border(p, len, b),
{
    assert forall|t: int| 0 <= t < b implies #[trigger] p[t] == p[len - b + t] by {
        assert(p[t] == p[k - b + t]);
        assert(p[k - b + t] == p[len - k + (k - b + t)]);
    }
}

proof fn lemma_border_shrink(p: Seq<u8>, len: int, b: int)
    requires
        is_border(p, len + 1, b),
        b >= 1,
    ensures
        is_border(p, len, b - 1),
        p[b - 1] == p[len],
{
    assert(p[b - 1] == p[len + 1 - b + (b - 1)]);
    assert forall|t: int| 0 <= t < b - 1 implies #[trigger] p[t] == p[len - (b - 1) + t] by {
        assert(p[t] == p[len + 1 - b + t]);
    }
}

proof fn lemma_border_extend(p: Seq<u8>, len: int, k: int)
    requires
        is_border(p, len, k),
        len < p.len(),
        p[len] == p[k],
    ensures
        is_border(p, len + 1, k + 1),
{
    assert forall|t: int| 0 <= t < k + 1 implies #[trigger] p[t] == p[len + 1 - (k + 1) + t] by {
        if t < k {
            assert(p[t] == p[len - k + t]);
        }
    }
}

/// The failure table of `needle`: entry `q` is the length of the longest
/// proper prefix of `needle[..=q]` that is also its suffix.
pub fn return_failure_function_table(needle: &str) -> (tab: Vec<usize>)
    ensures
        is_failure_table(needle.spec_bytes(), tab@),
{
    let p = needle.as_bytes();
    let n = p.len();
    let mut tab: Vec<usize> = Vec::new();
    if n == 0 {
        return tab;
    }
    tab.push(0);
    let mut i: usize = 1;
    while i < n
        invariant
            n == p@.len(),
            1 <= i <= n,
            tab@.len() == i,
            forall|q: int| 0 <= q < i ==> is_longest_border(p@, q + 1, #[trigger] tab@[q] as int),
        decreases n - i,
    {
        let mut k: usize = tab[i - 1];
        while k > 0 && p[i] != p[k]
            invariant
                n == p@.len(),
                1 <= i < n,
                tab@.len() == i,
                forall|q: int|
                    0 <= q < i ==> is_longest_border(p@, q + 1, #[trigger] tab@[q] as int),
                is_border(p@, i as int, k as int),
                forall|b: int|
                    k < b < i && is_border(p@, i as int, b) ==> p@[i as int] != #[trigger] p@[b],
            decreases k,
        {
            let k2 = tab[k - 1];
            proof {
                assert(is_longest_border(p@, (k - 1) + 1, tab@[k - 1] as int));
                assert(is_border(p@, k as int, k2 as int));
                lemma_border_trans(p@, i as int, k as int, k2 as int);
                assert forall|b: int|
                    k2 < b < i && is_border(p@, i as int, b) implies p@[i as int]
                        != #[trigger] p@[b] by {
                    if b < k {
                        lemma_border_of_border(p@, i as int, k as int, b);
                    }
                }
            }
            k = k2;
        }
        let v: usize = if p[i] == p[k] { k + 1 } else { 0 };
        proof {
            if p@[i as int] == p@[k as int] {
                lemma_border_extend(p@, i as int, k as int);
            }
            let len = i + 1;
            assert forall|b: int| v < b < len implies !#[trigger] is_border(p@, len, b) by {
                if is_border(p@, len, b) {
                    lemma_border_shrink(p@, i as int, b);
                }
            }
        }
        tab.push(v);
        i += 1;
    }
    tab
}

/// The first offset at which `needle` occurs in `haystack`, using its failure
/// table `jump_table` to skip comparisons; `None` when it does not occur.
pub fn kmp(needle: &str, haystack: &str, jump_table: &Vec<usize>) -> (r: Option<usize>)
    requires
        is_failure_table(needle.spec_bytes(), jump_table@),
    ensures
        is_first_match(haystack.spec_bytes(), needle.spec_bytes(), r),
{
    let h = haystack.as_bytes();
    let p = needle.as_bytes();
    let hl = h.len();
    let n = p.len();
    let mut i: usize = 0;
    let mut j: usize = 0;
    let mut i0: usize = 0;
    while hl - i0 >= n
        invariant
            h@ == haystack.spec_bytes(),
            p@ == needle.spec_bytes(),
            hl == h@.len(),
            n == p@.len(),
            is_failure_table(p@, jump_table@),
            i0 == i - j,
            j <= i <= hl,
            j <= n,
            forall|t: int| 0 <= t < j ==> h@[i0 + t] == #[trigger] p@[t],
            forall|s: int| 0 <= s < i0 ==> !matches_at(h@, p@, s),
        decreases (hl - i) + (hl - i0),
    {
        if j == n {
            assert(matches_at(h@, p@, i0 as int));
            return Some(i0);
        }
        if h[i] == p[j] {
            j += 1;
            i += 1;
        } else if j == 0 {
            proof {
                if matches_at(h@, p@, i as int) {
                    assert(h@[i + 0] == p@[0]);
                }
            }
            i += 1;
            i0 = i;
        } else {
            let j2 = jump_table[j - 1];
            proof {
                let ghost jo = j as int;
                assert(is_longest_border(p@, (jo - 1) + 1, jump_table@[jo - 1] as int));
                assert(is_border(p@, jo, j2 as int));
                assert forall|s: int| 0 <= s < i - j2 implies !matches_at(h@, p@, s) by {
                    if s >= i0 && matches_at(h@, p@, s) {
                        if s == i0 {
                            assert(h@[s + jo] == p@[jo]);
                        } else {
                            let b = i - s;
                            assert forall|t: int| 0 <= t < b implies #[trigger] p@[t] == p@[jo - b + t] by {
                                assert(h@[s + t] == p@[t]);
                                assert(h@[i - jo + (jo - b + t)] == p@[jo - b + t]);
                            }
                            assert(is_border(p@, jo, b));
                        }
                    }
                }
            }
            proof {
                let ghost jo = j as int;
                assert forall|t: int| 0 <= t < j2 implies h@[i - j2 + t] == #[trigger] p@[t] by {
                    assert(p@[t] == p@[jo - j2 + t]);
                    assert(h@[i0 + (jo - j2 + t)] == p@[jo - j2 + t]);
                }
            }
            j = j2;
            i0 = i - j;
        }
    }
    None
}

/// Builds the failure table of `needle` and returns the first offset of
/// `needle` in `haystack`, if any.
pub fn kmp_wrapper(needle: &str, haystack: &str) -> (r: Option<usize>)
    ensures
        is_first_match(haystack.spec_bytes(), needle.spec_bytes(), r),
{
    let jump_table = return_failure_function_table(needle);
    kmp(needle, haystack, &jump_table)
}

} // verus!
