//! A stable sort of positions by integer keys: merge sort, proved to return
//! the positions ordered by key, ties in their original order.
use vstd::prelude::*;
use vstd::seq_lib::lemma_multiset_commutative;

verus! {

broadcast use vstd::seq_lib::group_to_multiset_ensures;

/// Whether position `a` comes before position `b`: by key, then by position.
pub open spec fn precedes(keys: Seq<i64>, a: usize, b: usize) -> bool {
    keys[a as int] < keys[b as int] || (keys[a as int] == keys[b as int] && a <= b)
}

/// Whether the positions are in order.
pub open spec fn in_key_order(keys: Seq<i64>, s: Seq<usize>) -> bool {
    forall|i: int, j: int| 0 <= i < j < s.len() ==> precedes(keys, #[trigger] s[i], #[trigger] s[j])
}

/// Whether every position names a key.
pub open spec fn valid_positions(keys: Seq<i64>, s: Seq<usize>) -> bool {
    forall|i: int| 0 <= i < s.len() ==> (#[trigger] s[i]) < keys.len()
}

/// Merges two ordered runs of positions.
fn merge(keys: &Vec<i64>, a: &Vec<usize>, b: &Vec<usize>) -> (res: Vec<usize>)
    requires
        valid_positions(keys@, a@),
        valid_positions(keys@, b@),
        in_key_order(keys@, a@),
        in_key_order(keys@, b@),
    ensures
        valid_positions(keys@, res@),
        in_key_order(keys@, res@),
        res@.to_multiset() == a@.to_multiset().add(b@.to_multiset()),
{
    let mut out: Vec<usize> = Vec::new();
    let mut i: usize = 0;
    let mut j: usize = 0;
    while i < a.len() || j < b.len()
        invariant
            i <= a@.len(),
            j <= b@.len(),
            valid_positions(keys@, a@),
            valid_positions(keys@, b@),
            in_key_order(keys@, a@),
            in_key_order(keys@, b@),
            valid_positions(keys@, out@),
            in_key_order(keys@, out@),
            out@.to_multiset() == a@.take(i as int).to_multiset().add(b@.take(j as int).to_multiset()),
            out@.len() > 0 && i < a@.len() ==> precedes(keys@, out@.last(), a@[i as int]),
            out@.len() > 0 && j < b@.len() ==> precedes(keys@, out@.last(), b@[j as int]),
        decreases a@.len() + b@.len() - i - j,
    {
        let take_a = if i < a.len() && j < b.len() {
            let x = a[i];
            let y = b[j];
            keys[x] < keys[y] || (keys[x] == keys[y] && x <= y)
        } else {
            i < a.len()
        };
        let ghost before = out@;
        if take_a {
            let x = a[i];
            out.push(x);
            proof {
                assert(a@.take(i + 1) =~= a@.take(i as int).push(x));
                assert forall|p: int, q: int| 0 <= p < q < out@.len() implies precedes(keys@, #[trigger] out@[p], #[trigger] out@[q]) by {
                    if q == out@.len() - 1 && p < q {
                        assert(out@[p] == before[p]);
                        assert(precedes(keys@, before.last(), x));
                        if p < before.len() - 1 {
                            assert(precedes(keys@, before[p], before.last()));
                        }
                    } else {
                        assert(out@[p] == before[p] && out@[q] == before[q]);
                    }
                }
                if i + 1 < a@.len() {
                    assert(precedes(keys@, a@[i as int], a@[i + 1]));
                }
            }
            i = i + 1;
        } else {
            let y = b[j];
            out.push(y);
            proof {
                assert(b@.take(j + 1) =~= b@.take(j as int).push(y));
                assert forall|p: int, q: int| 0 <= p < q < out@.len() implies precedes(keys@, #[trigger] out@[p], #[trigger] out@[q]) by {
                    if q == out@.len() - 1 && p < q {
                        assert(out@[p] == before[p]);
                        assert(precedes(keys@, before.last(), y));
                        if p < before.len() - 1 {
                            assert(precedes(keys@, before[p], before.last()));
                        }
                    } else {
                        assert(out@[p] == before[p] && out@[q] == before[q]);
                    }
                }
                if j + 1 < b@.len() {
                    assert(precedes(keys@, b@[j as int], b@[j + 1]));
                }
            }
            j = j + 1;
        }
    }
    proof {
        assert(a@.take(i as int) =~= a@);
        assert(b@.take(j as int) =~= b@);
    }
    out
}

/// The positions `s[lo..hi]`.
fn slice_of(s: &Vec<usize>, lo: usize, hi: usize) -> (res: Vec<usize>)
    requires
        lo <= hi <= s@.len(),
    ensures
        res@ == s@.subrange(lo as int, hi as int),
{
    let mut out: Vec<usize> = Vec::new();
    let mut k: usize = lo;
    while k < hi
        invariant
            lo <= k <= hi <= s@.len(),
            out@ == s@.subrange(lo as int, k as int),
        decreases hi - k,
    {
        out.push(s[k]);
        proof {
            assert(out@ =~= s@.subrange(lo as int, k + 1));
        }
        k = k + 1;
    }
    out
}

/// Sorts positions by key, ties by position.
pub fn sort_positions(keys: &Vec<i64>, s: Vec<usize>) -> (res: Vec<usize>)
    requires
        valid_positions(keys@, s@),
    ensures
        valid_positions(keys@, res@),
        in_key_order(keys@, res@),
        res@.to_multiset() == s@.to_multiset(),
    decreases s@.len(),
{
    if s.len() <= 1 {
        return s;
    }
    let mid = s.len() / 2;
    let left = slice_of(&s, 0, mid);
    let right = slice_of(&s, mid, s.len());
    proof {
        assert(s@ =~= left@ + right@);
        lemma_multiset_commutative(left@, right@);
    }
    let a = sort_positions(keys, left);
    let b = sort_positions(keys, right);
    merge(keys, &a, &b)
}

/// The positions `0..n` in order of their keys, ties by position.
pub fn stable_order(keys: &Vec<i64>) -> (res: Vec<usize>)
    ensures
        res@.len() == keys@.len(),
        valid_positions(keys@, res@),
        in_key_order(keys@, res@),
        res@.to_multiset() == Seq::new(keys@.len(), |i: int| i as usize).to_multiset(),
{
    let mut s: Vec<usize> = Vec::new();
    let mut k: usize = 0;
    while k < keys.len()
        invariant
            k <= keys@.len(),
            s@ == Seq::new(k as nat, |i: int| i as usize),
        decreases keys@.len() - k,
    {
        s.push(k);
        proof {
            assert(s@ =~= Seq::new((k + 1) as nat, |i: int| i as usize));
        }
        k = k + 1;
    }
    let res = sort_positions(keys, s);
    proof {
        assert(res@.len() == res@.to_multiset().len());
    }
    res
}

} // verus!
