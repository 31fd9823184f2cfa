//! Ordering by a count, largest first, and keeping the first few.
use vstd::prelude::*;

verus! {

/// Something with a count to rank it by.
pub trait Ranked: Sized {
    spec fn rank(&self) -> nat;

    fn count_of(&self) -> (r: u32)
        ensures
            r == self.rank(),
    ;
}

/// The sequence goes from the largest count down.
pub open spec fn sorted_desc<T: Ranked>(s: Seq<T>) -> bool {
    forall|i: int, j: int| 0 <= i < j < s.len() ==> s[i].rank() >= s[j].rank()
}

/// `r` holds the elements of `v`, each as often (both without repeats).
pub open spec fn same_elements<T>(r: Seq<T>, v: Seq<T>) -> bool {
    &&& r.len() == v.len()
    &&& r.no_duplicates()
    &&& forall|x: T| r.contains(x) <==> v.contains(x)
}

/// `out` is a largest-first choice of `k` elements of `all` (or all of them
/// when there are fewer): no element left out has a larger count than one
/// taken.
pub open spec fn is_top<T: Ranked>(out: Seq<T>, all: Seq<T>, k: nat) -> bool {
    &&& out.len() == if all.len() < k { all.len() } else { k }
    &&& sorted_desc(out)
    &&& out.no_duplicates()
    &&& forall|x: T| out.contains(x) ==> all.contains(x)
    &&& forall|x: T, i: int| all.contains(x) && !out.contains(x) && 0 <= i < out.len() ==> x.rank() <= out[i].rank()
}

/// Orders `v` from the largest count down.
pub fn sort_desc<T: Ranked>(v: Vec<T>) -> (r: Vec<T>)
    requires
        v@.no_duplicates(),
    ensures
        sorted_desc(r@),
        same_elements(r@, v@),
{
    let ghost orig = v@;
    let mut input = v;
    let mut res: Vec<T> = Vec::new();
    let mut i: usize = 0;
    let n = input.len();
    assert(orig.skip(0) =~= orig);
    while input.len() > 0
        invariant
            n == orig.len(),
            i <= n,
            input@ == orig.skip(i as int),
            orig.no_duplicates(),
            res@.len() == i,
            sorted_desc(res@),
            res@.no_duplicates(),
            forall|x: T| res@.contains(x) <==> orig.take(i as int).contains(x),
        decreases input@.len(),
    {
        let x = input.remove(0);
        assert(x == orig[i as int]);
        let xr = x.count_of();
        let mut p: usize = 0;
        while p < res.len() && res[p].count_of() >= xr
            invariant
                p <= res@.len(),
                xr == x.rank(),
                forall|j: int| 0 <= j < p ==> res@[j].rank() >= x.rank(),
            decreases res@.len() - p,
        {
            p = p + 1;
        }
        let ghost before = res@;
        proof {
            assert(!before.contains(x)) by {
                if before.contains(x) {
                    let j = choose|j: int| 0 <= j < i && orig.take(i as int)[j] == x;
                    assert(orig[j] == orig[i as int]);
                }
            }
        }
        res.insert(p, x);
        proof {
            before.insert_ensures(p as int, x);
            assert forall|a: int, b: int| 0 <= a < b < res@.len() implies res@[a].rank() >= res@[b].rank() by {
                if b < p {
                } else if b == p {
                } else if a < p {
                    assert(res@[b] == before[b - 1]);
                } else if a == p {
                    assert(res@[b] == before[b - 1]);
                    assert(before[p as int].rank() < x.rank());
                    assert(before[p as int].rank() >= before[b - 1].rank());
                } else {
                    assert(res@[b] == before[b - 1]);
                    assert(res@[a] == before[a - 1]);
                }
            }
            assert forall|a: int, b: int| 0 <= a < res@.len() && 0 <= b < res@.len() && a != b implies res@[a] != res@[b] by {
                if a != p && b != p {
                    let a2 = if a < p { a } else { a - 1 };
                    let b2 = if b < p { b } else { b - 1 };
                    assert(res@[a] == before[a2] && res@[b] == before[b2]);
                } else if a == p {
                    let b2 = if b < p { b } else { b - 1 };
                    assert(res@[b] == before[b2]);
                    assert(before.contains(before[b2]));
                } else {
                    let a2 = if a < p { a } else { a - 1 };
                    assert(res@[a] == before[a2]);
                    assert(before.contains(before[a2]));
                }
            }
            let taken = orig.take(i as int);
            assert(orig.take(i + 1) =~= taken.push(x));
            assert forall|y: T| res@.contains(y) implies orig.take(i + 1).contains(y) by {
                let j = choose|j: int| 0 <= j < res@.len() && res@[j] == y;
                if j < p {
                    assert(res@[j] == before[j]);
                    assert(before.contains(y));
                    assert(taken.contains(y));
                    let k = choose|k: int| 0 <= k < taken.len() && taken[k] == y;
                    assert(taken.push(x)[k] == y);
                } else if j > p {
                    assert(res@[j] == before[j - 1]);
                    assert(before.contains(y));
                    assert(taken.contains(y));
                    let k = choose|k: int| 0 <= k < taken.len() && taken[k] == y;
                    assert(taken.push(x)[k] == y);
                } else {
                    assert(taken.push(x)[i as int] == y);
                }
            }
            assert forall|y: T| orig.take(i + 1).contains(y) implies res@.contains(y) by {
                let k = choose|k: int| 0 <= k < taken.len() + 1 && taken.push(x)[k] == y;
                if k < taken.len() {
                    assert(taken[k] == y);
                    assert(taken.contains(y));
                    assert(before.contains(y));
                    let j = choose|j: int| 0 <= j < before.len() && before[j] == y;
                    if j < p {
                        assert(res@[j] == y);
                    } else {
                        assert(res@[j + 1] == y);
                    }
                } else {
                    assert(res@[p as int] == y);
                }
            }
            assert(input@ =~= orig.skip(i + 1));
        }
        i = i + 1;
    }
    assert(orig.take(n as int) =~= orig);
    res
}

/// The first `k` elements of `v` taken largest first.
pub fn top<T: Ranked>(v: Vec<T>, k: usize) -> (r: Vec<T>)
    requires
        v@.no_duplicates(),
    ensures
        is_top(r@, v@, k as nat),
{
    let mut s = sort_desc(v);
    let ghost sorted = s@;
    s.truncate(k);
    proof {
        assert forall|x: T, i: int| v@.contains(x) && !s@.contains(x) && 0 <= i < s@.len() implies x.rank() <= s@[i].rank() by {
            assert(sorted.contains(x));
            let j = choose|j: int| 0 <= j < sorted.len() && sorted[j] == x;
            if j < s@.len() {
                assert(s@[j] == x);
            }
            assert(s@[i] == sorted[i]);
        }
        assert forall|x: T| s@.contains(x) implies v@.contains(x) by {
            let j = choose|j: int| 0 <= j < s@.len() && s@[j] == x;
            assert(sorted[j] == x);
            assert(sorted.contains(x));
        }
    }
    s
}

} // verus!
