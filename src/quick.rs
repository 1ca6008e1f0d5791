//! Iterative quicksort: sub-problems wait on a bounded work stack, the
//! smaller side of each partition is taken first.
use crate::order::{before, exchange, is_order, ordered_by, sorted_by};
use crate::work_stack::{pending, stack_len, stack_new, stack_pop, stack_try_push, STACK_CAPACITY};
use arrayvec_const::ArrayVec;
use vstd::arithmetic::power2::{lemma2_to64, lemma_pow2_unfold, pow2};
use vstd::prelude::*;

verus! {

/// The sort could not finish: more sub-problems would have waited at once
/// than the depth allowed.
#[derive(Debug, Clone, Copy, PartialEq, Eq)]
pub struct DepthExceeded;

/// The work-stack depth that always suffices for `n` elements when the
/// smaller side of each partition is taken first: one slot, plus one more each
/// time the size can halve while at least three elements remain.
pub open spec fn stack_need(n: nat) -> nat
    decreases n,
{
    if n < 3 {
        1
    } else {
        1 + stack_need(((n - 1) / 2) as nat)
    }
}

/// More elements never need less depth.
pub proof fn lemma_stack_need_monotone(a: nat, b: nat)
    requires
        a <= b,
    ensures
        stack_need(a) <= stack_need(b),
    decreases b,
{
    if a >= 3 {
        lemma_stack_need_monotone(((a - 1) / 2) as nat, ((b - 1) / 2) as nat);
    }
}

/// The depth is logarithmic: below `2^k` elements, `k` slots suffice.
pub proof fn lemma_depth_logarithmic(n: nat, k: nat)
    requires
        1 <= k,
        n < pow2(k),
    ensures
        stack_need(n) <= k,
    decreases k,
{
    if n >= 3 {
        lemma_pow2_unfold(k);
        if k == 1 {
            assert(pow2(0) == 1) by {
                lemma2_to64();
            }
        } else {
            lemma_depth_logarithmic(((n - 1) / 2) as nat, (k - 1) as nat);
        }
    }
}

/// Twice the length plus one, summed over the pending sub-problems: each
/// step makes it smaller.
pub open spec fn work(st: Seq<(usize, usize)>) -> nat
    decreases st.len(),
{
    if st.len() == 0 {
        0
    } else {
        work(st.drop_last()) + 2 * (st.last().1 as nat) + 1
    }
}

/// The elements of `[o, o + l)` sit between their neighbours: none is before
/// the element just left of the range, and the element just right of it is
/// before none of them.
pub open spec fn fenced<T, F: Fn(&T, &T) -> bool>(s: Seq<T>, o: int, l: int, less: F) -> bool {
    &&& o > 0 ==> forall|k: int| o <= k < o + l ==> !#[trigger] before(less, s[k], s[o - 1])
    &&& o + l < s.len() ==> forall|k: int| o <= k < o + l ==> !#[trigger] before(less, s[o + l], s[k])
}

/// No element of `[o, o + l)` is before one that precedes it there.
pub open spec fn ordered_range<T, F: Fn(&T, &T) -> bool>(s: Seq<T>, o: int, l: int, less: F) -> bool {
    forall|i: int, j: int| o <= i < j < o + l ==> !#[trigger] before(less, s[j], s[i])
}

/// How many sub-problems may wait at once when no depth is given.
pub const DEFAULT_MAX_DEPTH: usize = 1024;

/// Index `k` lies in the sub-problem `t`, given as (offset, length).
pub open spec fn in_task(t: (usize, usize), k: int) -> bool {
    t.0 <= k < t.0 + t.1
}

/// Some pending sub-problem holds index `k`.
pub open spec fn covered(st: Seq<(usize, usize)>, k: int) -> bool {
    exists|e: int| 0 <= e < st.len() && #[trigger] in_task(st[e], k)
}

/// Two sub-problems with at least one index between them.
pub open spec fn apart(t: (usize, usize), u: (usize, usize)) -> bool {
    t.0 + t.1 < u.0 || u.0 + u.1 < t.0
}

/// The sub-problem `c` lies within `t`.
pub open spec fn inside(c: (usize, usize), t: (usize, usize)) -> bool {
    t.0 <= c.0 && c.0 + c.1 <= t.0 + t.1
}

/// The pair ending at `i` is either still pending or already in order.
pub open spec fn settled<T, F: Fn(&T, &T) -> bool>(s: Seq<T>, st: Seq<(usize, usize)>, i: int, less: F) -> bool {
    covered(st, i - 1) || covered(st, i) || !before(less, s[i], s[i - 1])
}

/// What holds of the data and the pending sub-problems between two steps.
pub open spec fn stack_ok<T, F: Fn(&T, &T) -> bool>(s: Seq<T>, st: Seq<(usize, usize)>, less: F) -> bool {
    &&& forall|e: int| 0 <= e < st.len() ==> #[trigger] st[e].0 + st[e].1 <= s.len()
    &&& forall|e: int, f: int| 0 <= e < st.len() && 0 <= f < st.len() && e != f
        ==> #[trigger] apart(st[e], st[f])
    &&& forall|e: int| 0 <= e < st.len() ==> #[trigger] fenced(s, st[e].0 as int, st[e].1 as int, less)
    &&& forall|i: int| 0 < i < s.len() ==> #[trigger] settled(s, st, i, less)
}

/// One step replaces the top sub-problem by pieces of it, changing data only
/// inside it; the invariant carries over when the pieces are fenced and
/// apart, and the pairs that touch the old top are settled.
proof fn lemma_step<T, F: Fn(&T, &T) -> bool>(
    s: Seq<T>,
    s2: Seq<T>,
    st: Seq<(usize, usize)>,
    st2: Seq<(usize, usize)>,
    less: F,
)
    requires
        st.len() > 0,
        stack_ok(s, st, less),
        s2.len() == s.len(),
        forall|k: int| 0 <= k < s.len() && !in_task(st.last(), k) ==> s2[k] == s[k],
        st2.len() >= st.len() - 1,
        forall|e: int| 0 <= e < st.len() - 1 ==> st2[e] == st[e],
        forall|e: int| st.len() - 1 <= e < st2.len() ==> inside(#[trigger] st2[e], st.last()),
        forall|e: int, f: int| st.len() - 1 <= e < st2.len() && st.len() - 1 <= f < st2.len() && e != f
            ==> apart(#[trigger] st2[e], #[trigger] st2[f]),
        forall|e: int| st.len() - 1 <= e < st2.len()
            ==> fenced(s2, (#[trigger] st2[e]).0 as int, st2[e].1 as int, less),
        forall|i: int| 0 < i < s.len() && (in_task(st.last(), i - 1) || in_task(st.last(), i))
            ==> #[trigger] settled(s2, st2, i, less),
    ensures
        stack_ok(s2, st2, less),
{
    let top = st.len() - 1;
    let t = st.last();
    assert forall|e: int| 0 <= e < st2.len() implies #[trigger] st2[e].0 + st2[e].1 <= s2.len() by {
        if e < top {
            assert(st[e].0 + st[e].1 <= s.len());
        } else {
            assert(inside(st2[e], t));
            assert(st[top].0 + st[top].1 <= s.len());
        }
    }
    assert forall|e: int, f: int| 0 <= e < st2.len() && 0 <= f < st2.len() && e != f
        implies #[trigger] apart(st2[e], st2[f]) by {
        if e < top && f < top {
            assert(apart(st[e], st[f]));
        } else if e < top {
            assert(apart(st[e], st[top]));
            assert(inside(st2[f], t));
        } else if f < top {
            assert(apart(st[f], st[top]));
            assert(inside(st2[e], t));
        }
    }
    assert forall|e: int| 0 <= e < st2.len() implies #[trigger] fenced(s2, st2[e].0 as int, st2[e].1 as int, less) by {
        if e < top {
            assert(fenced(s, st[e].0 as int, st[e].1 as int, less));
            assert(apart(st[e], st[top]));
            assert(st[e].0 + st[e].1 <= s.len());
            let u = st[e];
            assert forall|k: int| u.0 - 1 <= k <= u.0 + u.1 && 0 <= k < s.len() implies s2[k] == s[k] by {
                assert(!in_task(t, k));
            }
            if u.0 > 0 {
                assert forall|k: int| u.0 <= k < u.0 + u.1 implies !#[trigger] before(less, s2[k], s2[u.0 - 1]) by {
                    assert(!before(less, s[k], s[u.0 - 1]));
                }
            }
            if u.0 + u.1 < s.len() {
                assert forall|k: int| u.0 <= k < u.0 + u.1 implies !#[trigger] before(less, s2[u.0 + u.1], s2[k]) by {
                    assert(!before(less, s[u.0 + u.1], s[k]));
                }
            }
        }
    }
    assert forall|i: int| 0 < i < s2.len() implies #[trigger] settled(s2, st2, i, less) by {
        if !(in_task(t, i - 1) || in_task(t, i)) {
            assert(settled(s, st, i, less));
            if covered(st, i - 1) {
                let e = choose|e: int| 0 <= e < st.len() && #[trigger] in_task(st[e], i - 1);
                assert(in_task(st2[e], i - 1));
            } else if covered(st, i) {
                let e = choose|e: int| 0 <= e < st.len() && #[trigger] in_task(st[e], i);
                assert(in_task(st2[e], i));
            } else {
                assert(s2[i] == s[i] && s2[i - 1] == s[i - 1]);
            }
        }
    }
}

/// After the top sub-problem `(o, l)` was partitioned around the pivot at
/// `o + p`, its two sides, pushed in either order (the right one left out
/// only when empty), meet what `lemma_step` asks of new pieces.
proof fn lemma_split<T, F: Fn(&T, &T) -> bool>(
    s2: Seq<T>,
    base: Seq<(usize, usize)>,
    kids: Seq<(usize, usize)>,
    o: usize,
    l: usize,
    p: usize,
    less: F,
)
    requires
        is_order(less),
        p < l,
        o + l <= s2.len(),
        o + l <= usize::MAX,
        fenced(s2, o as int, l as int, less),
        forall|k: int| o <= k < o + p ==> #[trigger] before(less, s2[k], s2[o + p]),
        forall|k: int| o + p < k < o + l ==> !#[trigger] before(less, s2[k], s2[o + p]),
        kids == seq![(o, p)] && l - p - 1 == 0
            || kids == seq![(o, p), ((o + p + 1) as usize, (l - p - 1) as usize)]
            || kids == seq![((o + p + 1) as usize, (l - p - 1) as usize), (o, p)],
    ensures
        forall|e: int| 0 <= e < kids.len() ==> inside(#[trigger] kids[e], (o, l)),
        forall|e: int, f: int| 0 <= e < kids.len() && 0 <= f < kids.len() && e != f
            ==> apart(#[trigger] kids[e], #[trigger] kids[f]),
        forall|e: int| 0 <= e < kids.len() ==> fenced(s2, (#[trigger] kids[e]).0 as int, kids[e].1 as int, less),
        forall|i: int| 0 < i < s2.len() && (in_task((o, l), i - 1) || in_task((o, l), i))
            ==> #[trigger] settled(s2, base + kids, i, less),
{
    let lt = (o, p);
    let rt = ((o + p + 1) as usize, (l - p - 1) as usize);
    let st2 = base + kids;
    let pv = s2[o + p];
    assert(fenced(s2, lt.0 as int, lt.1 as int, less)) by {
        if o + p < s2.len() {
            assert forall|k: int| o <= k < o + p implies !#[trigger] before(less, s2[o + p], s2[k]) by {
                assert(before(less, s2[k], pv));
            }
        }
    }
    assert(fenced(s2, rt.0 as int, rt.1 as int, less)) by {
        assert forall|k: int| rt.0 <= k < rt.0 + rt.1 implies !#[trigger] before(less, s2[k], s2[rt.0 - 1]) by {
            assert(!before(less, s2[k], pv));
        }
    }
    let jl: int = if kids[0] == lt { 0 } else { 1 };
    assert(kids[jl] == lt);
    assert(st2[base.len() + jl] == lt);
    assert forall|i: int| 0 < i < s2.len() && (in_task((o, l), i - 1) || in_task((o, l), i))
        implies #[trigger] settled(s2, st2, i, less) by {
        if in_task(lt, i - 1) {
            assert(in_task(st2[base.len() + jl], i - 1));
        } else if in_task(lt, i) {
            assert(in_task(st2[base.len() + jl], i));
        } else if rt.1 > 0 && (in_task(rt, i - 1) || in_task(rt, i)) {
            let jr: int = 1 - jl;
            assert(kids[jr] == rt);
            assert(st2[base.len() + jr] == rt);
            if in_task(rt, i - 1) {
                assert(in_task(st2[base.len() + jr], i - 1));
            } else {
                assert(in_task(st2[base.len() + jr], i));
            }
        } else if i == o + p {
            assert(!before(less, s2[o as int], s2[o - 1]));
        } else {
            assert(i == o + l);
            assert(!before(less, s2[o + l], s2[o + p]));
        }
    }
}

proof fn lemma_work_push(st: Seq<(usize, usize)>, t: (usize, usize))
    ensures
        work(st.push(t)) == work(st) + 2 * (t.1 as nat) + 1,
{
    assert(st.push(t).drop_last() =~= st);
}

proof fn lemma_work_pop(st: Seq<(usize, usize)>)
    requires
        st.len() > 0,
    ensures
        work(st) == work(st.drop_last()) + 2 * (st.last().1 as nat) + 1,
{
}

/// The top sub-problem holds two elements, now put in order; the invariant
/// carries over to the stack without it.
proof fn lemma_pair_step<T, F: Fn(&T, &T) -> bool>(
    s: Seq<T>,
    s2: Seq<T>,
    st: Seq<(usize, usize)>,
    less: F,
)
    requires
        st.len() > 0,
        st.last().1 == 2,
        stack_ok(s, st, less),
        s2.len() == s.len(),
        forall|k: int| 0 <= k < s.len() && !in_task(st.last(), k) ==> s2[k] == s[k],
        s2[st.last().0 as int] == s[st.last().0 as int] && s2[st.last().0 + 1] == s[st.last().0 + 1]
            || s2[st.last().0 as int] == s[st.last().0 + 1] && s2[st.last().0 + 1] == s[st.last().0 as int],
        !before(less, s2[st.last().0 + 1], s2[st.last().0 as int]),
    ensures
        stack_ok(s2, st.drop_last(), less),
{
    let o = st.last().0;
    let n = s.len();
    let base = st.drop_last();
    assert(st[st.len() - 1].0 + st[st.len() - 1].1 <= n);
    assert(fenced(s, o as int, 2, less));
    assert forall|i: int| 0 < i < n && (in_task(st.last(), i - 1) || in_task(st.last(), i))
        implies #[trigger] settled(s2, base, i, less) by {
        if i == o {
            assert(!before(less, s[o as int], s[o - 1]));
            assert(!before(less, s[o + 1], s[o - 1]));
        } else if i == o + 2 {
            assert(!before(less, s[o + 2], s[o as int]));
            assert(!before(less, s[o + 2], s[o + 1]));
        }
    }
    lemma_step(s, s2, st, base, less);
}

/// Pushes `task` unless `max_depth` sub-problems are already waiting or the
/// stack is full.
fn push_task(stack: &mut ArrayVec<(usize, usize), STACK_CAPACITY>, task: (usize, usize), max_depth: usize) -> (r: bool)
    ensures
        r == (pending(*old(stack)).len() < max_depth && pending(*old(stack)).len() < STACK_CAPACITY),
        r ==> pending(*final(stack)) == pending(*old(stack)).push(task),
        !r ==> pending(*final(stack)) == pending(*old(stack)),
{
    if stack_len(stack) >= max_depth {
        return false;
    }
    stack_try_push(stack, task)
}

/// Partitions `data[o .. o + len)` around its first element and returns the
/// pivot's final place, relative to `o`.
fn partition<T, F: Fn(&T, &T) -> bool>(data: &mut [T], o: usize, len: usize, less: &F) -> (p: usize)
    requires
        is_order(*less),
        len >= 3,
        o + len <= old(data)@.len(),
    ensures
        final(data)@.len() == old(data)@.len(),
        final(data)@.to_multiset() == old(data)@.to_multiset(),
        forall|k: int| 0 <= k < old(data)@.len() && !(o <= k < o + len)
            ==> final(data)@[k] == old(data)@[k],
        p < len,
        forall|k: int| o <= k < o + p ==> #[trigger] before(*less, final(data)@[k], final(data)@[o + p]),
        forall|k: int| o + p < k < o + len ==> !#[trigger] before(*less, final(data)@[k], final(data)@[o + p]),
        fenced(old(data)@, o as int, len as int, *less) ==> fenced(final(data)@, o as int, len as int, *less),
        ordered_range(old(data)@, o as int, len as int, *less) ==> final(data)@ == old(data)@ && p == 0,
{
    let n = data.len();
    let ghost s0 = data@;
    let ghost pivot = data@[o as int];
    let mut left: usize = 0;
    let mut right: usize = len - 2;
    while left <= right
        invariant
            is_order(*less),
            len >= 3,
            o + len <= s0.len(),
            data@.len() == s0.len(),
            data@.to_multiset() == s0.to_multiset(),
            forall|k: int| 0 <= k < s0.len() && !(o < k < o + len) ==> data@[k] == s0[k],
            left <= right + 1 <= len - 1,
            data@[o as int] == pivot,
            forall|k: int| o + 1 <= k < o + 1 + left ==> #[trigger] before(*less, data@[k], pivot),
            forall|k: int| o + 1 + right < k < o + len ==> !#[trigger] before(*less, data@[k], pivot),
            fenced(s0, o as int, len as int, *less) ==> fenced(data@, o as int, len as int, *less),
            ordered_range(s0, o as int, len as int, *less) ==> data@ == s0 && left == 0,
            n == s0.len(),
        ensures
            data@.len() == s0.len(),
            data@.to_multiset() == s0.to_multiset(),
            forall|k: int| 0 <= k < s0.len() && !(o < k < o + len) ==> data@[k] == s0[k],
            left <= len - 1,
            data@[o as int] == pivot,
            forall|k: int| o + 1 <= k < o + 1 + left ==> #[trigger] before(*less, data@[k], pivot),
            forall|k: int| o + 1 + left <= k < o + len ==> !#[trigger] before(*less, data@[k], pivot),
            fenced(s0, o as int, len as int, *less) ==> fenced(data@, o as int, len as int, *less),
            ordered_range(s0, o as int, len as int, *less) ==> data@ == s0 && left == 0,
        decreases right + 1 - left,
    {
        let i = o + 1 + left;
        let j = o + 1 + right;
        let lower = less(&data[i], &data[o]);
        assert(lower == before(*less, data@[i as int], pivot));
        if lower {
            left += 1;
            assert(forall|k: int| o + 1 <= k < o + 1 + left ==> #[trigger] before(*less, data@[k], pivot));
            assert(forall|k: int| o + 1 + right < k < o + len ==> !#[trigger] before(*less, data@[k], pivot));
        } else {
            let upper = less(&data[j], &data[o]);
            assert(upper == before(*less, data@[j as int], pivot));
            if !upper {
                if right == 0 {
                    break;
                }
                right -= 1;
                assert(forall|k: int| o + 1 <= k < o + 1 + left ==> #[trigger] before(*less, data@[k], pivot));
                assert(forall|k: int| o + 1 + right < k < o + len ==> !#[trigger] before(*less, data@[k], pivot));
            } else {
                let ghost s1 = data@;
                exchange(data, i, j);
                assert forall|k: int| o + 1 <= k < i + 1 implies #[trigger] before(*less, data@[k], pivot) by {
                    if k < i {
                        assert(data@[k] == s1[k]);
                    }
                }
                assert forall|k: int| j - 1 < k < o + len implies !#[trigger] before(*less, data@[k], pivot) by {
                    if k > j {
                        assert(data@[k] == s1[k]);
                    }
                }
                left += 1;
                if right == 0 {
                    break;
                }
                right -= 1;
            }
        }
    }
    let ghost s1 = data@;
    exchange(data, o, o + left);
    assert forall|k: int| o <= k < o + left implies #[trigger] before(*less, data@[k], data@[o + left]) by {
        if k == o && left > 0 {
            assert(before(*less, s1[o + left], pivot));
        }
    }
    left
}

} // verus!

verus! {

/// Sorts `data` in place by `less`, with at most `max_depth` sub-problems
/// waiting at once; fails with `DepthExceeded` when one more would be needed.
///
/// The sub-problems wait on a work stack; after each partition the larger side
/// is pushed first, so the smaller one is taken next, and `stack_need` of the
/// length always suffices.
pub fn quicksort_with_depth<T, F: Fn(&T, &T) -> bool>(data: &mut [T], less: F, max_depth: usize) -> (r: Result<(), DepthExceeded>)
    requires
        is_order(less),
    ensures
        final(data)@.to_multiset() == old(data)@.to_multiset(),
        r is Ok ==> sorted_by(final(data)@, less),
        stack_need(old(data)@.len() as nat) <= max_depth ==> r is Ok,
        ordered_by(old(data)@, less) ==> final(data)@ == old(data)@,
        old(data)@.len() <= 1 ==> r is Ok && final(data)@ == old(data)@,
        old(data)@.len() >= 2 && max_depth == 0 ==> r is Err,
{
    let n = data.len();
    if n <= 1 {
        return Ok(());
    }
    let ghost s0 = data@;
    let mut stack = stack_new();
    proof {
        lemma2_to64();
        lemma_depth_logarithmic(n as nat, 64);
    }
    if !push_task(&mut stack, (0, n), max_depth) {
        return Err(DepthExceeded);
    }
    proof {
        let st = pending(stack);
        assert forall|i: int| 0 < i < n implies #[trigger] settled(data@, st, i, less) by {
            assert(in_task(st[0], i));
        }
    }
    loop
        invariant
            is_order(less),
            n == data@.len(),
            n == s0.len(),
            s0 == old(data)@,
            data@.to_multiset() == s0.to_multiset(),
            stack_ok(data@, pending(stack), less),
            forall|e: int| 0 <= e < pending(stack).len()
                ==> stack_need(#[trigger] pending(stack)[e].1 as nat) + e <= stack_need(n as nat),
            stack_need(n as nat) <= 64,
            ordered_by(s0, less) ==> data@ == s0,
        ensures
            n == data@.len(),
            data@.to_multiset() == s0.to_multiset(),
            stack_ok(data@, pending(stack), less),
            pending(stack).len() == 0,
            ordered_by(s0, less) ==> data@ == s0,
        decreases work(pending(stack)),
    {
        let ghost s = data@;
        let ghost st = pending(stack);
        let popped = stack_pop(&mut stack);
        let (o, l) = match popped {
            None => {
                break;
            },
            Some(task) => task,
        };
        let ghost top = st.len() - 1;
        let ghost base = st.drop_last();
        assert(st[top] == (o, l));
        assert(st[top].0 + st[top].1 <= n);
        assert(fenced(s, o as int, l as int, less));
        if l <= 1 {
            proof {
                lemma_step(s, s, st, base, less);
                lemma_work_pop(st);
            }
        } else if l == 2 {
            if less(&data[o + 1], &data[o]) {
                exchange(data, o, o + 1);
            }
            proof {
                lemma_pair_step(s, data@, st, less);
                if ordered_by(s0, less) {
                    assert(!before(less, s[o + 1], s[o as int]));
                }
                lemma_work_pop(st);
            }
        } else {
            let p = partition(data, o, l, &less);
            let left = (o, p);
            let right = (o + p + 1, l - p - 1);
            let ghost s2 = data@;
            let ghost kids;
            if right.1 == 0 {
                proof {
                    kids = seq![left];
                    lemma_stack_need_monotone(p as nat, l as nat);
                    assert(stack_need(st[top].1 as nat) + top <= stack_need(n as nat));
                    assert(data@.to_multiset() == s0.to_multiset());
                }
                if !push_task(&mut stack, left, max_depth) {
                    return Err(DepthExceeded);
                }
            } else {
                let (first, second) = if p >= right.1 {
                    (left, right)
                } else {
                    (right, left)
                };
                proof {
                    kids = seq![first, second];
                    lemma_stack_need_monotone(first.1 as nat, l as nat);
                    lemma_stack_need_monotone(second.1 as nat, ((l - 1) / 2) as nat);
                }
                if !push_task(&mut stack, first, max_depth) {
                    return Err(DepthExceeded);
                }
                if !push_task(&mut stack, second, max_depth) {
                    return Err(DepthExceeded);
                }
            }
            proof {
                assert(pending(stack) =~= base + kids);
                assert(fenced(s2, o as int, l as int, less));
                lemma_split(s2, base, kids, o, l, p, less);
                lemma_step(s, s2, st, base + kids, less);
                lemma_work_pop(st);
                lemma_work_push(base, kids[0]);
                if kids.len() == 2 {
                    assert(base + kids =~= base.push(kids[0]).push(kids[1]));
                    lemma_work_push(base.push(kids[0]), kids[1]);
                } else {
                    assert(base + kids =~= base.push(kids[0]));
                }
            }
        }
    }
    proof {
        assert forall|i: int| 0 < i < n implies !#[trigger] before(less, data@[i], data@[i - 1]) by {
            assert(settled(data@, pending(stack), i, less));
        }
    }
    Ok(())
}

/// Sorts `data` in place by `less` with the default depth, which suffices for
/// every length.
pub fn quicksort<T, F: Fn(&T, &T) -> bool>(data: &mut [T], less: F)
    requires
        is_order(less),
    ensures
        final(data)@.to_multiset() == old(data)@.to_multiset(),
        sorted_by(final(data)@, less),
        ordered_by(old(data)@, less) ==> final(data)@ == old(data)@,
{
    let n = data.len();
    proof {
        lemma2_to64();
        lemma_depth_logarithmic(n as nat, 64);
    }
    let r = quicksort_with_depth(data, less, DEFAULT_MAX_DEPTH);
    assert(r is Ok);
}

} // verus!
