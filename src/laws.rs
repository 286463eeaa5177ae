//! Properties that relate the mapper's results across inputs and calls.
use crate::chunking::{chunk_count, chunk_end, chunk_start, lemma_chunk_bounds};
use crate::mapper::{
    all_succeed, first_fault, map_result, may_succeed, reports_faults, worker_count, MapError,
    TransformFault,
};
use vstd::prelude::*;

verus! {

/// A transform that gives one result per input: pure with respect to what
/// the mapper can observe.
pub open spec fn deterministic<T, R, F: Fn(&T) -> Result<R, String>>(f: F) -> bool {
    forall|x: &T, a: Result<R, String>, b: Result<R, String>|
        #[trigger] f.ensures((x,), a) && #[trigger] f.ensures((x,), b) ==> a == b
}

/// A deterministic transform that may fault on `x` cannot also succeed on it.
proof fn lemma_fault_excludes_success<T, R, F: Fn(&T) -> Result<R, String>>(f: F, x: T, d: String)
    requires
        deterministic(f),
        f.ensures((&x,), Err(d)),
    ensures
        !may_succeed::<T, R, F>(f, x),
{
    if may_succeed::<T, R, F>(f, x) {
        let r = choose|r: R| f.ensures((&x,), Ok(r));
        assert(f.ensures((&x,), Ok(r)));
    }
}

/// Order is kept: for a deterministic transform, every element of a
/// successful result is the transform of the input element at the same index.
pub proof fn law_order_preserved<T, R, F: Fn(&T) -> Result<R, String>>(
    f: F,
    data: Seq<T>,
    t: int,
    r: Result<Vec<R>, MapError>,
    i: int,
)
    requires
        deterministic(f),
        map_result(f, data, t, r),
        r is Ok,
        0 <= i < data.len(),
    ensures
        r->Ok_0@.len() == data.len(),
        forall|y: Result<R, String>| #[trigger] f.ensures((&data[i],), y) ==> y == Ok::<R, String>(r->Ok_0@[i]),
{
    let v = r->Ok_0@;
    assert(f.ensures((&data[0 + i],), Ok(v[i])));
    assert(0 + i == i);
}

/// At the threshold itself no worker is spawned; one element more spawns at
/// least two.
pub proof fn law_threshold_boundary(t: int)
    requires
        t > 0,
    ensures
        worker_count(t, t) == 0,
        worker_count(t + 1, t) >= 2,
{
    lemma_chunk_bounds(t + 1, t, 1);
}

/// Faults stay in their chunk: when a deterministic transform faults in chunk
/// `c` and succeeds on every element of every other chunk, the result is an
/// aggregate failure that names chunk `c` and nothing else.
pub proof fn law_fault_isolation<T, R, F: Fn(&T) -> Result<R, String>>(
    f: F,
    data: Seq<T>,
    t: int,
    r: Result<Vec<R>, MapError>,
    c: int,
    i: int,
    d: String,
)
    requires
        t > 0,
        deterministic(f),
        map_result(f, data, t, r),
        0 <= c < chunk_count(data.len() as int, t),
        chunk_start(c, t) <= i < chunk_end(c, t, data.len() as int),
        f.ensures((&data[i],), Err(d)),
        forall|c2: int|
            0 <= c2 < chunk_count(data.len() as int, t) && c2 != c ==> #[trigger] all_succeed(
                f,
                data,
                chunk_start(c2, t),
                chunk_end(c2, t, data.len() as int),
            ),
    ensures
        r matches Err(MapError::AggregateFailure(fs)) && fs@.len() == 1 && fs@[0].chunk_index == c,
{
    let len = data.len() as int;
    lemma_chunk_bounds(len, t, c);
    lemma_fault_excludes_success::<T, R, F>(f, data[i], d);
    match r {
        Ok(v) => {
            assert(f.ensures((&data[0 + i],), Ok(v@[i])));
            assert(0 + i == i);
        },
        Err(MapError::AggregateFailure(fs)) => {
            let fs = fs@;
            if forall|k: int| 0 <= k < fs.len() ==> (#[trigger] fs[k]).chunk_index != c {
                assert(all_succeed(f, data, chunk_start(c, t), chunk_end(c, t, len)));
                assert(may_succeed::<T, R, F>(f, data[i]));
            }
            assert forall|k: int| 0 <= k < fs.len() implies (#[trigger] fs[k]).chunk_index == c by {
                let c2 = fs[k].chunk_index as int;
                if c2 != c {
                    assert(first_fault(f, data, chunk_start(c2, t), chunk_end(c2, t, len), fs[k].detail));
                    let j = choose|j: int|
                        chunk_start(c2, t) <= j < chunk_end(c2, t, len) && #[trigger] f.ensures(
                            (&data[j],),
                            Err(fs[k].detail),
                        ) && all_succeed(f, data, chunk_start(c2, t), j);
                    assert(all_succeed(f, data, chunk_start(c2, t), chunk_end(c2, t, len)));
                    assert(may_succeed::<T, R, F>(f, data[j]));
                    lemma_fault_excludes_success::<T, R, F>(f, data[j], fs[k].detail);
                }
            }
            if fs.len() > 1 {
                assert(fs[0].chunk_index < fs[1].chunk_index);
            }
        },
        Err(MapError::InvalidConfiguration) => {},
    }
}

/// Under a deterministic transform a range has at most one first fault.
proof fn lemma_first_fault_unique<T, R, F: Fn(&T) -> Result<R, String>>(
    f: F,
    data: Seq<T>,
    lo: int,
    hi: int,
    d1: String,
    d2: String,
)
    requires
        deterministic(f),
        first_fault(f, data, lo, hi, d1),
        first_fault(f, data, lo, hi, d2),
    ensures
        d1 == d2,
{
    let i1 = choose|i: int|
        lo <= i < hi && #[trigger] f.ensures((&data[i],), Err(d1)) && all_succeed(f, data, lo, i);
    let i2 = choose|i: int|
        lo <= i < hi && #[trigger] f.ensures((&data[i],), Err(d2)) && all_succeed(f, data, lo, i);
    if i1 < i2 {
        assert(may_succeed::<T, R, F>(f, data[i1]));
        lemma_fault_excludes_success::<T, R, F>(f, data[i1], d1);
    } else if i2 < i1 {
        assert(may_succeed::<T, R, F>(f, data[i2]));
        lemma_fault_excludes_success::<T, R, F>(f, data[i2], d2);
    } else {
        assert(Err::<R, String>(d1) == Err::<R, String>(d2));
    }
}

/// Under a deterministic transform, a chunk named in one fault report is
/// named in every other report of the same call.
proof fn lemma_reported_everywhere<T, R, F: Fn(&T) -> Result<R, String>>(
    f: F,
    data: Seq<T>,
    t: int,
    n: int,
    fs1: Seq<TransformFault>,
    fs2: Seq<TransformFault>,
    k: int,
)
    requires
        deterministic(f),
        reports_faults(f, data, t, n, fs1),
        reports_faults(f, data, t, n, fs2),
        0 <= k < fs1.len(),
    ensures
        names_chunk(fs2, fs1[k].chunk_index as int),
{
    let c = fs1[k].chunk_index as int;
    let len = data.len() as int;
    if forall|k2: int| 0 <= k2 < fs2.len() ==> (#[trigger] fs2[k2]).chunk_index != c {
        assert(all_succeed(f, data, chunk_start(c, t), chunk_end(c, t, len)));
        let j = choose|j: int|
            chunk_start(c, t) <= j < chunk_end(c, t, len) && #[trigger] f.ensures(
                (&data[j],),
                Err(fs1[k].detail),
            ) && all_succeed(f, data, chunk_start(c, t), j);
        assert(may_succeed::<T, R, F>(f, data[j]));
        lemma_fault_excludes_success::<T, R, F>(f, data[j], fs1[k].detail);
    }
}

/// The chunk indices of a fault report strictly increase.
pub open spec fn increasing(s: Seq<TransformFault>) -> bool {
    forall|i: int, j: int|
        0 <= i < j < s.len() ==> (#[trigger] s[i]).chunk_index < (#[trigger] s[j]).chunk_index
}

/// Some entry of the report `s` names chunk `c`.
pub open spec fn names_chunk(s: Seq<TransformFault>, c: int) -> bool {
    exists|k: int| 0 <= k < s.len() && (#[trigger] s[k]).chunk_index == c
}

/// Two reports in strictly increasing chunk order that name the same chunks
/// name them at the same positions.
proof fn lemma_increasing_same_chunks(s1: Seq<TransformFault>, s2: Seq<TransformFault>)
    requires
        increasing(s1),
        increasing(s2),
        forall|c: int|
            #![trigger names_chunk(s1, c)]
            #![trigger names_chunk(s2, c)]
            names_chunk(s1, c) <==> names_chunk(s2, c),
    ensures
        s1.len() == s2.len(),
        forall|k: int| 0 <= k < s1.len() ==> (#[trigger] s1[k]).chunk_index == s2[k].chunk_index,
    decreases s1.len(),
{
    if s1.len() == 0 {
        if s2.len() > 0 {
            assert(names_chunk(s2, s2[0].chunk_index as int));
        }
    } else {
        assert(names_chunk(s1, s1[0].chunk_index as int));
        assert(names_chunk(s2, s1[0].chunk_index as int));
        let p = choose|k: int| 0 <= k < s2.len() && (#[trigger] s2[k]).chunk_index == s1[0].chunk_index;
        assert(names_chunk(s2, s2[0].chunk_index as int));
        assert(names_chunk(s1, s2[0].chunk_index as int));
        let q = choose|k: int| 0 <= k < s1.len() && (#[trigger] s1[k]).chunk_index == s2[0].chunk_index;
        if p > 0 {
            assert(s2[0].chunk_index < s2[p].chunk_index);
        }
        if q > 0 {
            assert(s1[0].chunk_index < s1[q].chunk_index);
        }
        let t1 = s1.subrange(1, s1.len() as int);
        let t2 = s2.subrange(1, s2.len() as int);
        assert forall|c: int| names_chunk(t1, c) implies names_chunk(t2, c) by {
            let k = choose|k: int| 0 <= k < t1.len() && (#[trigger] t1[k]).chunk_index == c;
            assert(t1[k] == s1[k + 1]);
            assert(s1[0].chunk_index < s1[k + 1].chunk_index);
            assert(names_chunk(s1, c));
            let k2 = choose|k2: int| 0 <= k2 < s2.len() && (#[trigger] s2[k2]).chunk_index == c;
            assert(t2[k2 - 1] == s2[k2]);
        }
        assert forall|c: int| names_chunk(t2, c) implies names_chunk(t1, c) by {
            let k = choose|k: int| 0 <= k < t2.len() && (#[trigger] t2[k]).chunk_index == c;
            assert(t2[k] == s2[k + 1]);
            assert(s2[0].chunk_index < s2[k + 1].chunk_index);
            assert(names_chunk(s2, c));
            let k1 = choose|k1: int| 0 <= k1 < s1.len() && (#[trigger] s1[k1]).chunk_index == c;
            assert(t1[k1 - 1] == s1[k1]);
        }
        lemma_increasing_same_chunks(t1, t2);
        assert forall|k: int| 0 <= k < s1.len() implies (#[trigger] s1[k]).chunk_index == s2[k].chunk_index by {
            if k > 0 {
                assert(t1[k - 1] == s1[k]);
                assert(t2[k - 1] == s2[k]);
            }
        }
    }
}

/// A successful result and a fault report cannot both come from mapping the
/// same input with the same deterministic transform.
proof fn lemma_success_excludes_report<T, R, F: Fn(&T) -> Result<R, String>>(
    f: F,
    data: Seq<T>,
    t: int,
    v: Seq<R>,
    fs: Seq<TransformFault>,
)
    requires
        t > 0,
        deterministic(f),
        v.len() == data.len(),
        crate::mapper::mapped(f, data, 0, v),
    ensures
        fs.len() > 0 ==> !reports_faults(f, data, t, chunk_count(data.len() as int, t), fs),
{
    if fs.len() == 0 || !reports_faults(f, data, t, chunk_count(data.len() as int, t), fs) {
        return;
    }
    let len = data.len() as int;
    let c = fs[0].chunk_index as int;
    lemma_chunk_bounds(len, t, c);
    let j = choose|j: int|
        chunk_start(c, t) <= j < chunk_end(c, t, len) && #[trigger] f.ensures(
            (&data[j],),
            Err(fs[0].detail),
        ) && all_succeed(f, data, chunk_start(c, t), j);
    assert(f.ensures((&data[0 + j],), Ok(v[j])));
    assert(0 + j == j);
    assert(may_succeed::<T, R, F>(f, data[j]));
    lemma_fault_excludes_success::<T, R, F>(f, data[j], fs[0].detail);
}

/// Mapping is repeatable: two calls on the same input with the same
/// deterministic transform and threshold return the same outcome, the same
/// output on success and the same fault report on failure.
pub proof fn law_idempotent<T, R, F: Fn(&T) -> Result<R, String>>(
    f: F,
    data: Seq<T>,
    t: int,
    r1: Result<Vec<R>, MapError>,
    r2: Result<Vec<R>, MapError>,
)
    requires
        deterministic(f),
        map_result(f, data, t, r1),
        map_result(f, data, t, r2),
    ensures
        r1 is Ok <==> r2 is Ok,
        r1 matches Ok(v1) ==> (r2 matches Ok(v2) && v1@ == v2@),
        r1 matches Err(MapError::InvalidConfiguration) <==> r2 matches Err(
            MapError::InvalidConfiguration,
        ),
        r1 matches Err(MapError::AggregateFailure(fs1)) ==> (r2 matches Err(
            MapError::AggregateFailure(fs2),
        ) && fs1@ == fs2@),
{
    if t > 0 {
        let n = chunk_count(data.len() as int, t);
        match (r1, r2) {
            (Ok(v1), Ok(v2)) => {
                assert forall|i: int| 0 <= i < v1@.len() implies v1@[i] == v2@[i] by {
                    assert(f.ensures((&data[0 + i],), Ok(v1@[i])));
                    assert(f.ensures((&data[0 + i],), Ok(v2@[i])));
                    assert(Ok::<R, String>(v1@[i]) == Ok::<R, String>(v2@[i]));
                }
                assert(v1@ =~= v2@);
            },
            (Ok(v1), Err(MapError::AggregateFailure(fs2))) => {
                lemma_success_excludes_report(f, data, t, v1@, fs2@);
            },
            (Err(MapError::AggregateFailure(fs1)), Ok(v2)) => {
                lemma_success_excludes_report(f, data, t, v2@, fs1@);
            },
            (Err(MapError::AggregateFailure(fs1)), Err(MapError::AggregateFailure(fs2))) => {
                let a = fs1@;
                let b = fs2@;
                assert forall|c: int| names_chunk(a, c) implies names_chunk(b, c) by {
                    let k = choose|k: int| 0 <= k < a.len() && (#[trigger] a[k]).chunk_index == c;
                    lemma_reported_everywhere(f, data, t, n, a, b, k);
                }
                assert forall|c: int| names_chunk(b, c) implies names_chunk(a, c) by {
                    let k = choose|k: int| 0 <= k < b.len() && (#[trigger] b[k]).chunk_index == c;
                    lemma_reported_everywhere(f, data, t, n, b, a, k);
                }
                lemma_increasing_same_chunks(a, b);
                assert forall|k: int| 0 <= k < a.len() implies a[k] == b[k] by {
                    let c = a[k].chunk_index as int;
                    let len = data.len() as int;
                    assert(first_fault(f, data, chunk_start(c, t), chunk_end(c, t, len), a[k].detail));
                    assert(b[k].chunk_index == a[k].chunk_index);
                    assert(first_fault(f, data, chunk_start(c, t), chunk_end(c, t, len), b[k].detail));
                    let (lo, hi) = (chunk_start(c, t), chunk_end(c, t, len));
                    lemma_first_fault_unique(f, data, lo, hi, a[k].detail, b[k].detail);
                }
                assert(a =~= b);
            },
            _ => {},
        }
    }
}

} // verus!
