//! Shellsort over a table of gaps: gapped insertion passes from the largest
//! usable gap down to a gap of one.
use crate::order::{before, exchange, is_order, ordered_by, sorted_by};
use vstd::prelude::*;

verus! {

/// The default gap table: starts at one, each entry about 2.25 times the one
/// before.
pub const DEFAULT_GAPS: [u64; 32] = [
    1,
    4,
    9,
    20,
    45,
    102,
    230,
    516,
    1158,
    2599,
    5831,
    13082,
    29351,
    65853,
    147748,
    331490,
    743735,
    1668650,
    3743800,
    8399623,
    18845471,
    42281871,
    94863989,
    212837706,
    477524607,
    1071378536,
    2403754591,
    5393085583,
    12099975682,
    27147615084,
    60908635199,
    136655165852,
];

/// Why a gap table was refused.
#[derive(Debug, Clone, Copy, PartialEq, Eq)]
pub enum GapTableError {
    /// The table has no entry.
    Empty,
    /// The first entry is not one.
    FirstNotOne,
    /// Some entry is not larger than the one before it.
    NotAscending,
}

/// Each entry is larger than the one before it.
pub open spec fn ascending(g: Seq<u64>) -> bool {
    forall|i: int| 0 < i < g.len() ==> g[i - 1] < #[trigger] g[i]
}

/// A table that shellsort can run on.
pub open spec fn valid_gaps(g: Seq<u64>) -> bool {
    g.len() > 0 && g[0] == 1 && ascending(g)
}

/// Checks a gap table: not empty, first entry one, strictly ascending. The
/// first of these that fails is reported.
pub fn check_gaps(gaps: &[u64]) -> (r: Result<(), GapTableError>)
    ensures
        r is Ok <==> valid_gaps(gaps@),
        r == Err::<(), GapTableError>(GapTableError::Empty) <==> gaps@.len() == 0,
        r == Err::<(), GapTableError>(GapTableError::FirstNotOne) <==> gaps@.len() > 0 && gaps@[0] != 1,
        r == Err::<(), GapTableError>(GapTableError::NotAscending)
            <==> gaps@.len() > 0 && gaps@[0] == 1 && !ascending(gaps@),
{
    if gaps.len() == 0 {
        return Err(GapTableError::Empty);
    }
    if gaps[0] != 1 {
        return Err(GapTableError::FirstNotOne);
    }
    let mut i: usize = 1;
    while i < gaps.len()
        invariant
            1 <= i <= gaps@.len(),
            gaps@[0] == 1,
            forall|k: int| 0 < k < i ==> gaps@[k - 1] < #[trigger] gaps@[k],
        decreases gaps@.len() - i,
    {
        if gaps[i - 1] >= gaps[i] {
            return Err(GapTableError::NotAscending);
        }
        i += 1;
    }
    Ok(())
}

/// How many leading entries of the table are smaller than `n`: the gaps that
/// a sequence of `n` elements uses.
fn usable_gaps(gaps: &[u64], n: usize) -> (k: usize)
    ensures
        k <= gaps@.len(),
        forall|j: int| 0 <= j < k ==> gaps@[j] < n,
        k < gaps@.len() ==> gaps@[k as int] >= n,
{
    let mut k: usize = 0;
    while k < gaps.len() && gaps[k] < n as u64
        invariant
            k <= gaps@.len(),
            forall|j: int| 0 <= j < k ==> gaps@[j] < n,
        decreases gaps@.len() - k,
    {
        k += 1;
    }
    k
}

/// Runs the gapped passes for every usable gap of a valid table, largest
/// first.
fn shell_passes<T, F: Fn(&T, &T) -> bool>(data: &mut [T], less: &F, gaps: &[u64])
    requires
        is_order(*less),
        valid_gaps(gaps@),
    ensures
        final(data)@.to_multiset() == old(data)@.to_multiset(),
        sorted_by(final(data)@, *less),
        ordered_by(old(data)@, *less) ==> final(data)@ == old(data)@,
{
    let n = data.len();
    let ghost s0 = data@;
    let mut k = usable_gaps(gaps, n);
    if k == 0 {
        // no gap is below the length: at most one element
        return;
    }
    proof {
        assert forall|j: int| 0 <= j < gaps@.len() implies gaps@[j] >= 1 by {
            lemma_gaps_positive(gaps@, j);
        }
    }
    while k > 0
        invariant
            is_order(*less),
            valid_gaps(gaps@),
            forall|j: int| 0 <= j < gaps@.len() ==> gaps@[j] >= 1,
            k <= gaps@.len(),
            forall|j: int| 0 <= j < k ==> gaps@[j] < n,
            n == data@.len(),
            n >= 2,
            data@.to_multiset() == s0.to_multiset(),
            k == 0 ==> sorted_by(data@, *less),
            ordered_by(s0, *less) ==> data@ == s0,
        decreases k,
    {
        k -= 1;
        gapped_pass(data, less, gaps[k] as usize);
    }
}

/// Every entry of a valid table is at least one.
proof fn lemma_gaps_positive(g: Seq<u64>, j: int)
    requires
        valid_gaps(g),
        0 <= j < g.len(),
    ensures
        g[j] >= 1,
    decreases j,
{
    if j > 0 {
        lemma_gaps_positive(g, j - 1);
    }
}

/// Sorts `data` in place by `less`, taking the gaps from `gaps`; a malformed
/// table is refused and `data` left as it was.
pub fn shellsort_with_gaps<T, F: Fn(&T, &T) -> bool>(data: &mut [T], less: F, gaps: &[u64]) -> (r: Result<(), GapTableError>)
    requires
        is_order(less),
    ensures
        r is Ok <==> valid_gaps(gaps@),
        r == Err::<(), GapTableError>(GapTableError::Empty) <==> gaps@.len() == 0,
        r == Err::<(), GapTableError>(GapTableError::FirstNotOne) <==> gaps@.len() > 0 && gaps@[0] != 1,
        r == Err::<(), GapTableError>(GapTableError::NotAscending)
            <==> gaps@.len() > 0 && gaps@[0] == 1 && !ascending(gaps@),
        r is Err ==> final(data)@ == old(data)@,
        final(data)@.to_multiset() == old(data)@.to_multiset(),
        r is Ok ==> sorted_by(final(data)@, less),
        ordered_by(old(data)@, less) ==> final(data)@ == old(data)@,
{
    let checked = check_gaps(gaps);
    if checked.is_err() {
        return checked;
    }
    shell_passes(data, &less, gaps);
    Ok(())
}

/// The default table is valid.
pub proof fn lemma_default_gaps_valid()
    ensures
        valid_gaps(DEFAULT_GAPS@),
{
    assert(DEFAULT_GAPS@[0] == 1);
}

/// Sorts `data` in place by `less` with the default gap table.
pub fn shellsort<T, F: Fn(&T, &T) -> bool>(data: &mut [T], less: F)
    requires
        is_order(less),
    ensures
        final(data)@.to_multiset() == old(data)@.to_multiset(),
        sorted_by(final(data)@, less),
        ordered_by(old(data)@, less) ==> final(data)@ == old(data)@,
{
    proof {
        lemma_default_gaps_valid();
    }
    shell_passes(data, &less, &DEFAULT_GAPS);
}

/// One gapped insertion pass over `data`. With a gap of one it is a full
/// insertion sort.
fn gapped_pass<T, F: Fn(&T, &T) -> bool>(data: &mut [T], less: &F, gap: usize)
    requires
        is_order(*less),
        gap >= 1,
    ensures
        final(data)@.len() == old(data)@.len(),
        final(data)@.to_multiset() == old(data)@.to_multiset(),
        gap == 1 ==> sorted_by(final(data)@, *less),
        ordered_by(old(data)@, *less) ==> final(data)@ == old(data)@,
{
    let n = data.len();
    let ghost s0 = data@;
    let mut i: usize = gap;
    while i < n
        invariant
            is_order(*less),
            gap >= 1,
            n == data@.len(),
            s0.len() == n,
            data@.to_multiset() == s0.to_multiset(),
            gap == 1 ==> forall|q: int| 0 < q < i && q < n ==> !#[trigger] before(*less, data@[q], data@[q - 1]),
            ordered_by(s0, *less) ==> data@ == s0,
        decreases n - i,
    {
        let ghost x = data@[i as int];
        let ghost s1 = data@;
        let mut j: usize = i;
        loop
            invariant
                is_order(*less),
                gap >= 1,
                i < n,
                n == data@.len(),
                j <= i,
                data@[j as int] == x,
                data@.to_multiset() == s0.to_multiset(),
                gap == 1 ==> forall|q: int| 0 < q < j ==> !#[trigger] before(*less, data@[q], data@[q - 1]),
                gap == 1 ==> forall|q: int| j + 1 < q <= i ==> !#[trigger] before(*less, data@[q], data@[q - 1]),
                gap == 1 && j < i ==> before(*less, x, data@[j + 1]),
                gap == 1 && 0 < j < i ==> !before(*less, data@[j + 1], data@[j - 1]),
                ordered_by(s0, *less) ==> data@ == s0 && j == i,
            ensures
                n == data@.len(),
                data@.to_multiset() == s0.to_multiset(),
                gap == 1 ==> forall|q: int| 0 < q <= i ==> !#[trigger] before(*less, data@[q], data@[q - 1]),
                ordered_by(s0, *less) ==> data@ == s0,
            decreases j,
        {
            if j < gap {
                break;
            }
            let lower = less(&data[j], &data[j - gap]);
            assert(lower == before(*less, data@[j as int], data@[j - gap]));
            if !lower {
                proof {
                    if gap == 1 && j < i {
                        assert(!before(*less, data@[j + 1], x));
                    }
                }
                break;
            }
            let ghost d = data@;
            proof {
                if gap == 1 && j >= 2 {
                    let q = j - 1;
                    assert(0 < q < j);
                    assert(!before(*less, data@[q], data@[q - 1]));
                }
            }
            exchange(data, j, j - gap);
            proof {
                if gap == 1 {
                    assert forall|q: int| j - gap + 1 < q <= i implies !#[trigger] before(*less, data@[q], data@[q - 1]) by {
                        if q == j + 1 {
                            assert(!before(*less, d[j + 1], d[j - 1]));
                        } else {
                            assert(data@[q] == d[q] && data@[q - 1] == d[q - 1]);
                        }
                    }
                }
            }
            j -= gap;
        }
        i += 1;
    }
}

} // verus!
