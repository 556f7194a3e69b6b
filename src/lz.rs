//! Match measurement for LZ77-style encoders: how far a run at the cursor
//! repeats one found `distance` elements earlier, self-overlapping runs
//! included.
use vstd::prelude::*;
use vstd::std_specs::cmp::PartialEqSpec;

verus! {

/// The number of leading positions, up to `cap`, at which the elements from
/// `a` on equal those from `b` on.
pub open spec fn run_len<T: PartialEqSpec>(data: Seq<T>, a: int, b: int, cap: int) -> nat
    decreases cap,
{
    if cap <= 0 {
        0
    } else if !data[a].eq_spec(&data[b]) {
        0
    } else {
        1 + run_len(data, a + 1, b + 1, cap - 1)
    }
}

/// How many elements from `current` on repeat those `distance` back,
/// counting at most `max_len` and not past the end.
pub open spec fn match_len<T: PartialEqSpec>(data: Seq<T>, current: int, distance: int, max_len: int) -> nat {
    let cap = if data.len() - current < max_len { data.len() - current } else { max_len };
    run_len(data, current, current - distance, cap)
}

/// Counts the elements from `current` on that equal those `distance`
/// before them, up to `max_len` and the end of `data`. Each comparison reads
/// both elements afresh, so a run may overlap its own source.
pub fn matching_len<T: Copy + PartialEq + PartialEqSpec>(
    data: &[T],
    current: usize,
    distance: usize,
    max_len: usize,
) -> (r: usize)
    requires
        T::obeys_eq_spec(),
        current <= data@.len(),
        distance != 0,
        current >= distance,
    ensures
        r == match_len(data@, current as int, distance as int, max_len as int),
        r <= max_len,
        current + r <= data@.len(),
{
    let n = data.len();
    let rest = n - current;
    let cap = if rest < max_len { rest } else { max_len };
    let src = current - distance;
    let mut len: usize = 0;
    while len < cap
        invariant
            T::obeys_eq_spec(),
            n == data@.len(),
            rest == n - current,
            cap == if rest < max_len { rest } else { max_len },
            src == current - distance,
            distance != 0,
            len <= cap,
            run_len(data@, current as int, src as int, cap as int) == len + run_len(
                data@,
                current + len,
                src + len,
                cap - len,
            ),
        decreases cap - len,
    {
        let x = data[current + len];
        let y = data[src + len];
        if !(x == y) {
            proof {
                assert(!data@[current + len].eq_spec(&data@[src + len]));
                assert(run_len(data@, current + len, src + len, cap - len) == 0);
            }
            return len;
        }
        len = len + 1;
    }
    len
}

/// A match: `len` elements repeating those `distance` back.
#[derive(Debug, Clone, Copy, PartialEq, Eq, Structural)]
pub struct Matches {
    pub len: usize,
    pub distance: usize,
}

impl Matches {
    pub fn new(len: usize, distance: usize) -> (r: Matches)
        ensures
            r.len == len,
            r.distance == distance,
    {
        Matches { len, distance }
    }

    /// The sentinel for "no match".
    pub fn zero() -> (r: Matches)
        ensures
            r.len == 0,
            r.distance == 0,
    {
        Matches::new(0, 0)
    }

    pub fn is_zero(&self) -> (r: bool)
        ensures
            r == (self.len == 0),
    {
        self.len == 0
    }
}

impl Default for Matches {
    fn default() -> (r: Matches)
        ensures
            r.len == 0,
            r.distance == 0,
    {
        Matches::zero()
    }
}

/// `n - m`, or zero where `m` is larger.
pub open spec fn sat_sub(n: int, m: int) -> int {
    if n >= m { n - m } else { 0 }
}

/// The best (total length, distance) after scanning `ds` from the best so
/// far: a candidate replaces the best only when strictly longer, and the scan
/// stops once the extra length of the best reaches `enough`.
pub open spec fn best_match<T: PartialEqSpec>(
    input: Seq<T>,
    start: int,
    extra_max: int,
    guaranteed: int,
    enough: int,
    ds: Seq<usize>,
    best: (nat, nat),
) -> (nat, nat)
    decreases ds.len(),
{
    if ds.len() == 0 {
        best
    } else {
        let d = ds[0];
        let extra = match_len(input, start, d as int, extra_max);
        let total = (extra + guaranteed) as nat;
        if best.0 < total {
            if extra >= enough {
                (total, d as nat)
            } else {
                best_match(input, start, extra_max, guaranteed, enough, ds.skip(1), (total, d as nat))
            }
        } else {
            best_match(input, start, extra_max, guaranteed, enough, ds.skip(1), best)
        }
    }
}

proof fn lemma_best_below<T: PartialEqSpec>(
    input: Seq<T>,
    start: int,
    extra_max: int,
    guaranteed: int,
    enough: int,
    ds: Seq<usize>,
    best: (nat, nat),
    t: int,
)
    requires
        best.0 < t,
        0 <= guaranteed,
        forall|j: int|
            0 <= j < ds.len() ==> #[trigger] match_len(input, start, ds[j] as int, extra_max) + guaranteed < t,
    ensures
        best_match(input, start, extra_max, guaranteed, enough, ds, best).0 < t,
    decreases ds.len(),
{
    if ds.len() > 0 {
        let d = ds[0];
        let total = (match_len(input, start, d as int, extra_max) + guaranteed) as nat;
        assert(match_len(input, start, ds[0] as int, extra_max) + guaranteed < t);
        assert forall|j: int| 0 <= j < ds.skip(1).len() implies #[trigger] match_len(
            input,
            start,
            ds.skip(1)[j] as int,
            extra_max,
        ) + guaranteed < t by {
            assert(ds.skip(1)[j] == ds[j + 1]);
        }
        if best.0 < total {
            if match_len(input, start, d as int, extra_max) < enough {
                lemma_best_below(input, start, extra_max, guaranteed, enough, ds.skip(1), (total, d as nat), t);
            }
        } else {
            lemma_best_below(input, start, extra_max, guaranteed, enough, ds.skip(1), best, t);
        }
    }
}

/// Where no candidate distance reaches `threshold_min`, counting the
/// guaranteed prefix, the search finds no match.
pub proof fn lemma_no_match_below_threshold<T: PartialEqSpec>(
    input: Seq<T>,
    cursor: int,
    max_len: int,
    threshold_min: int,
    threshold_max: int,
    guaranteed_min_len: int,
    distances: Seq<usize>,
)
    requires
        0 < threshold_min,
        0 <= guaranteed_min_len,
        forall|j: int|
            0 <= j < distances.len() ==> #[trigger] match_len(
                input,
                cursor + guaranteed_min_len,
                distances[j] as int,
                sat_sub(max_len, guaranteed_min_len),
            ) + guaranteed_min_len < threshold_min,
    ensures
        distance_search(
            input,
            cursor,
            max_len,
            threshold_min,
            threshold_max,
            guaranteed_min_len,
            distances,
        ) is None,
{
    lemma_best_below(
        input,
        cursor + guaranteed_min_len,
        sat_sub(max_len, guaranteed_min_len),
        guaranteed_min_len,
        sat_sub(threshold_max, guaranteed_min_len),
        distances,
        (0, 0),
        threshold_min,
    );
}

/// What `find_distance_matches` returns for these arguments.
pub open spec fn distance_search<T: PartialEqSpec>(
    input: Seq<T>,
    cursor: int,
    max_len: int,
    threshold_min: int,
    threshold_max: int,
    guaranteed_min_len: int,
    distances: Seq<usize>,
) -> Option<(nat, nat)> {
    let best = best_match(
        input,
        cursor + guaranteed_min_len,
        sat_sub(max_len, guaranteed_min_len),
        guaranteed_min_len,
        sat_sub(threshold_max, guaranteed_min_len),
        distances,
        (0, 0),
    );
    if best.0 >= threshold_min {
        Some(best)
    } else {
        None
    }
}

/// Searches `distances`, in order, for the longest match at `cursor`, given
/// that the first `guaranteed_min_len` elements are known to match at every
/// one of them. Ties keep the earlier distance, and the search stops once a
/// match reaches `threshold_max`. The result is the best (length, distance)
/// if its length reaches `threshold_min`.
pub fn find_distance_matches<T: Copy + PartialEq + PartialEqSpec>(
    input: &[T],
    cursor: usize,
    max_len: usize,
    threshold_min: usize,
    threshold_max: usize,
    guaranteed_min_len: usize,
    distances: &[usize],
) -> (r: Option<Matches>)
    requires
        T::obeys_eq_spec(),
        cursor + guaranteed_min_len <= input@.len(),
        forall|i: int|
            0 <= i < distances@.len() ==> 0 < #[trigger] distances@[i] <= cursor + guaranteed_min_len,
    ensures
        r matches Some(m) ==> distance_search(
            input@,
            cursor as int,
            max_len as int,
            threshold_min as int,
            threshold_max as int,
            guaranteed_min_len as int,
            distances@,
        ) == Some((m.len as nat, m.distance as nat)),
        r is None ==> distance_search(
            input@,
            cursor as int,
            max_len as int,
            threshold_min as int,
            threshold_max as int,
            guaranteed_min_len as int,
            distances@,
        ) is None,
{
    let n = input.len();
    let threshold_max_len = threshold_max.saturating_sub(guaranteed_min_len);
    let start = cursor + guaranteed_min_len;
    let extra_max = max_len.saturating_sub(guaranteed_min_len);
    let mut best = Matches::zero();
    let ghost target = best_match(
        input@,
        start as int,
        extra_max as int,
        guaranteed_min_len as int,
        threshold_max_len as int,
        distances@,
        (0, 0),
    );
    let mut i: usize = 0;
    proof {
        assert(distances@.skip(0) =~= distances@);
    }
    while i < distances.len()
        invariant
            T::obeys_eq_spec(),
            start == cursor + guaranteed_min_len,
            start <= input@.len(),
            n == input@.len(),
            forall|k: int|
                0 <= k < distances@.len() ==> 0 < #[trigger] distances@[k] <= cursor + guaranteed_min_len,
            i <= distances@.len(),
            best.len <= input@.len() - cursor,
            target == best_match(
                input@,
                start as int,
                extra_max as int,
                guaranteed_min_len as int,
                threshold_max_len as int,
                distances@.skip(i as int),
                (best.len as nat, best.distance as nat),
            ),
        decreases distances@.len() - i,
    {
        let distance = distances[i];
        let extra = matching_len(input, start, distance, extra_max);
        let len = extra + guaranteed_min_len;
        proof {
            assert(distances@.skip(i as int)[0] == distance);
            assert(distances@.skip(i as int).skip(1) =~= distances@.skip(i as int + 1));
        }
        if best.len < len {
            best = Matches::new(len, distance);
            if extra >= threshold_max_len {
                proof {
                    assert(distances@.skip(distances@.len() as int) =~= Seq::<usize>::empty());
                }
                i = distances.len();
            } else {
                i = i + 1;
            }
        } else {
            i = i + 1;
        }
    }
    proof {
        if i == distances.len() {
            assert(distances@.skip(i as int) =~= Seq::<usize>::empty());
        }
    }
    if best.len >= threshold_min {
        Some(best)
    } else {
        None
    }
}

} // verus!
