//! Applies a fallible transform chunk by chunk and joins the outcomes in
//! input order, turning every chunk fault into data for the caller.
use crate::chunking::{chunk_count, chunk_end, chunk_start, lemma_chunk_bounds, partition, ChunkRange};
use vstd::prelude::*;

verus! {

/// A fault raised by the transform inside one chunk.
#[derive(Debug, PartialEq, Eq)]
pub struct TransformFault {
    /// Index of the chunk whose worker faulted.
    pub chunk_index: usize,
    /// Human-readable description of the fault.
    pub detail: String,
}

/// Why a map returned no output.
#[derive(Debug, PartialEq, Eq)]
pub enum MapError {
    /// The threshold is zero: nothing was dispatched.
    InvalidConfiguration,
    /// One or more chunks faulted; one entry per faulting chunk, in chunk order.
    AggregateFailure(Vec<TransformFault>),
}

/// `v[j]` is a possible successful result of `f` on `data[lo + j]`, for every `j`.
pub open spec fn mapped<T, R, F: Fn(&T) -> Result<R, String>>(
    f: F,
    data: Seq<T>,
    lo: int,
    v: Seq<R>,
) -> bool {
    forall|j: int| 0 <= j < v.len() ==> f.ensures((&data[lo + j],), Ok(#[trigger] v[j]))
}

/// `f` may succeed on `x`.
pub open spec fn may_succeed<T, R, F: Fn(&T) -> Result<R, String>>(f: F, x: T) -> bool {
    exists|r: R| f.ensures((&x,), Ok(r))
}

/// `f` may succeed on every element of `data[lo..hi]`.
pub open spec fn all_succeed<T, R, F: Fn(&T) -> Result<R, String>>(
    f: F,
    data: Seq<T>,
    lo: int,
    hi: int,
) -> bool {
    forall|i: int| lo <= i < hi ==> #[trigger] may_succeed::<T, R, F>(f, data[i])
}

/// `detail` is what `f` may report on some element of `data[lo..hi]`, all
/// earlier elements of the range having succeeded.
pub open spec fn first_fault<T, R, F: Fn(&T) -> Result<R, String>>(
    f: F,
    data: Seq<T>,
    lo: int,
    hi: int,
    detail: String,
) -> bool {
    exists|i: int|
        lo <= i < hi && #[trigger] f.ensures((&data[i],), Err(detail)) && all_succeed(
            f,
            data,
            lo,
            i,
        )
}

/// `out` is an outcome that the worker of chunk `c` may produce.
pub open spec fn is_chunk_outcome<T, R, F: Fn(&T) -> Result<R, String>>(
    f: F,
    data: Seq<T>,
    t: int,
    c: int,
    out: Result<Vec<R>, TransformFault>,
) -> bool {
    let lo = chunk_start(c, t);
    let hi = chunk_end(c, t, data.len() as int);
    match out {
        Ok(v) => v@.len() == hi - lo && mapped(f, data, lo, v@),
        Err(e) => e.chunk_index == c && first_fault(f, data, lo, hi, e.detail),
    }
}

/// The successful sub-results of `outs`, concatenated in order.
pub open spec fn joined<R>(outs: Seq<Result<Vec<R>, TransformFault>>) -> Seq<R>
    decreases outs.len(),
{
    if outs.len() == 0 {
        Seq::empty()
    } else {
        joined(outs.drop_last()) + match outs.last() {
            Ok(v) => v@,
            Err(_) => Seq::empty(),
        }
    }
}

/// The faults among `outs`, in order.
pub open spec fn faults<R>(outs: Seq<Result<Vec<R>, TransformFault>>) -> Seq<TransformFault>
    decreases outs.len(),
{
    if outs.len() == 0 {
        Seq::empty()
    } else {
        faults(outs.drop_last()) + match outs.last() {
            Ok(_) => Seq::empty(),
            Err(e) => seq![e],
        }
    }
}

/// The worker body: applies `func` to each element of `chunk` in order,
/// stopping at the first fault, which it reports under the chunk's index.
pub fn run_chunk<T, R, F: Fn(&T) -> Result<R, String>>(
    data: &Vec<T>,
    chunk: &ChunkRange,
    func: &F,
) -> (r: Result<Vec<R>, TransformFault>)
    requires
        chunk.start <= chunk.end <= data@.len(),
        forall|i: int| chunk.start <= i < chunk.end ==> func.requires((&#[trigger] data@[i],)),
    ensures
        match r {
            Ok(v) => v@.len() == chunk.end - chunk.start && mapped(*func, data@, chunk.start as int, v@),
            Err(e) => e.chunk_index == chunk.index && first_fault(
                *func,
                data@,
                chunk.start as int,
                chunk.end as int,
                e.detail,
            ),
        },
{
    let mut out: Vec<R> = Vec::new();
    let mut i: usize = chunk.start;
    while i < chunk.end
        invariant
            chunk.start <= i <= chunk.end <= data@.len(),
            forall|k: int| chunk.start <= k < chunk.end ==> func.requires((&#[trigger] data@[k],)),
            out@.len() == i - chunk.start,
            mapped(*func, data@, chunk.start as int, out@),
        decreases chunk.end - i,
    {
        match func(&data[i]) {
            Ok(y) => {
                out.push(y);
            },
            Err(detail) => {
                assert(all_succeed(*func, data@, chunk.start as int, i as int)) by {
                    assert forall|k: int| chunk.start <= k < i implies #[trigger] may_succeed::<
                        T,
                        R,
                        F,
                    >(*func, data@[k]) by {
                        assert(func.ensures((&data@[k],), Ok(out@[k - chunk.start])));
                    }
                }
                assert(func.ensures((&data@[i as int],), Err(detail)));
                return Err(TransformFault { chunk_index: chunk.index, detail });
            },
        }
        i = i + 1;
    }
    Ok(out)
}

/// The join step: concatenates the sub-results in chunk order when no chunk
/// faulted, and otherwise reports every fault, in chunk order.
pub fn join_outcomes<R>(outcomes: Vec<Result<Vec<R>, TransformFault>>) -> (r: Result<
    Vec<R>,
    MapError,
>)
    ensures
        faults(outcomes@).len() == 0 ==> (r matches Ok(v) && v@ == joined(outcomes@)),
        faults(outcomes@).len() > 0 ==> (r matches Err(MapError::AggregateFailure(fs)) && fs@
            == faults(outcomes@)),
{
    let ghost all = outcomes@;
    let mut out: Vec<R> = Vec::new();
    let mut failed: Vec<TransformFault> = Vec::new();
    let mut rest = outcomes;
    let ghost done: Seq<Result<Vec<R>, TransformFault>> = Seq::empty();
    while rest.len() > 0
        invariant
            all == done + rest@,
            out@ == joined(done),
            failed@ == faults(done),
        decreases rest.len(),
    {
        let next = rest.remove(0);
        proof {
            assert(all == done.push(next) + rest@);
            assert(done.push(next).drop_last() == done);
            done = done.push(next);
        }
        match next {
            Ok(mut v) => {
                out.append(&mut v);
            },
            Err(e) => {
                failed.push(e);
            },
        }
    }
    assert(done == all);
    if failed.len() == 0 {
        Ok(out)
    } else {
        Err(MapError::AggregateFailure(failed))
    }
}

/// How many elements the first `n` chunks cover.
pub open spec fn covered(n: int, t: int, len: int) -> int {
    if n * t <= len {
        n * t
    } else {
        len
    }
}

/// `fs` reports exactly the faulting chunks among the first `n`: each entry
/// is the first fault of its chunk, entries come in strictly increasing chunk
/// order, and every chunk without an entry may succeed throughout.
pub open spec fn reports_faults<T, R, F: Fn(&T) -> Result<R, String>>(
    f: F,
    data: Seq<T>,
    t: int,
    n: int,
    fs: Seq<TransformFault>,
) -> bool {
    &&& forall|k: int|
        0 <= k < fs.len() ==> {
            let c = (#[trigger] fs[k]).chunk_index as int;
            &&& c < n
            &&& first_fault(f, data, chunk_start(c, t), chunk_end(c, t, data.len() as int), fs[k].detail)
        }
    &&& forall|k1: int, k2: int|
        0 <= k1 < k2 < fs.len() ==> (#[trigger] fs[k1]).chunk_index < (#[trigger] fs[k2]).chunk_index
    &&& forall|c: int|
        0 <= c < n && (forall|k: int| 0 <= k < fs.len() ==> (#[trigger] fs[k]).chunk_index != c)
            ==> #[trigger] all_succeed(f, data, chunk_start(c, t), chunk_end(c, t, data.len() as int))
}

/// What mapping `data` with `f` at threshold `t` may return: the invalid
/// configuration error for a zero threshold; otherwise either one successful
/// result of `f` per element, in input order, or a non-empty report of
/// exactly the chunks that faulted.
pub open spec fn map_result<T, R, F: Fn(&T) -> Result<R, String>>(
    f: F,
    data: Seq<T>,
    t: int,
    r: Result<Vec<R>, MapError>,
) -> bool {
    if t <= 0 {
        r matches Err(MapError::InvalidConfiguration)
    } else {
        match r {
            Ok(v) => v@.len() == data.len() && mapped(f, data, 0, v@),
            Err(MapError::AggregateFailure(fs)) => fs@.len() > 0 && reports_faults(
                f,
                data,
                t,
                chunk_count(data.len() as int, t),
                fs@,
            ),
            Err(MapError::InvalidConfiguration) => false,
        }
    }
}

/// Joining the outcomes of the first `n` chunk workers yields the mapped
/// prefix they cover when none faulted, and a faithful fault report always.
pub proof fn lemma_join_chunks<T, R, F: Fn(&T) -> Result<R, String>>(
    f: F,
    data: Seq<T>,
    t: int,
    outs: Seq<Result<Vec<R>, TransformFault>>,
)
    requires
        t > 0,
        outs.len() <= chunk_count(data.len() as int, t),
        forall|k: int| 0 <= k < outs.len() ==> is_chunk_outcome(f, data, t, k, #[trigger] outs[k]),
    ensures
        faults(outs).len() == 0 ==> joined(outs).len() == covered(outs.len() as int, t, data.len() as int)
            && mapped(f, data, 0, joined(outs)),
        reports_faults(f, data, t, outs.len() as int, faults(outs)),
    decreases outs.len(),
{
    let len = data.len() as int;
    let n = outs.len() as int;
    if n > 0 {
        let prev = outs.drop_last();
        let c = n - 1;
        assert forall|k: int| 0 <= k < prev.len() implies is_chunk_outcome(f, data, t, k, #[trigger] prev[k]) by {
            assert(prev[k] == outs[k]);
        }
        lemma_join_chunks(f, data, t, prev);
        lemma_chunk_bounds(len, t, c);
        assert(c * t + t == n * t) by (nonlinear_arith)
            requires
                c == n - 1,
        ;
        assert(chunk_start(c, t) == covered(c, t, len));
        assert(chunk_end(c, t, len) == covered(n, t, len));
        let fp = faults(prev);
        let fs = faults(outs);
        let last = outs[c];
        assert(is_chunk_outcome(f, data, t, c, last));
        match last {
            Ok(v) => {
                assert(fs == fp);
                if fs.len() == 0 {
                    let jp = joined(prev);
                    let j = joined(outs);
                    assert(j == jp + v@);
                    assert forall|i: int| 0 <= i < j.len() implies f.ensures(
                        (&data[0 + i],),
                        Ok(#[trigger] j[i]),
                    ) by {
                        if i >= jp.len() {
                            let lo = chunk_start(c, t);
                            assert(v@[i - jp.len()] == j[i]);
                            assert(lo + (i - jp.len()) == 0 + i);
                        } else {
                            assert(jp[i] == j[i]);
                        }
                    }
                }
                assert forall|cc: int|
                    0 <= cc < n && (forall|k: int| 0 <= k < fs.len() ==> (#[trigger] fs[k]).chunk_index != cc)
                        implies #[trigger] all_succeed(f, data, chunk_start(cc, t), chunk_end(cc, t, len)) by {
                    if cc == c {
                        let lo = chunk_start(c, t);
                        assert forall|i: int| lo <= i < chunk_end(c, t, len) implies
                            #[trigger] may_succeed::<T, R, F>(f, data[i]) by {
                            assert(f.ensures((&data[lo + (i - lo)],), Ok(v@[i - lo])));
                            assert(lo + (i - lo) == i);
                        }
                    }
                }
            },
            Err(e) => {
                assert(fs == fp.push(e));
                assert forall|k: int| 0 <= k < fs.len() implies {
                    let cc = (#[trigger] fs[k]).chunk_index as int;
                    &&& cc < n
                    &&& first_fault(f, data, chunk_start(cc, t), chunk_end(cc, t, len), fs[k].detail)
                } by {
                    if k < fp.len() {
                        assert(fs[k] == fp[k]);
                    }
                }
                assert forall|k1: int, k2: int|
                    0 <= k1 < k2 < fs.len() implies (#[trigger] fs[k1]).chunk_index
                        < (#[trigger] fs[k2]).chunk_index by {
                    assert(fs[k1] == fp[k1]);
                    if k2 < fp.len() {
                        assert(fs[k2] == fp[k2]);
                    }
                }
                assert forall|cc: int|
                    0 <= cc < n && (forall|k: int| 0 <= k < fs.len() ==> (#[trigger] fs[k]).chunk_index != cc)
                        implies #[trigger] all_succeed(f, data, chunk_start(cc, t), chunk_end(cc, t, len)) by {
                    if cc == c {
                        assert(fs[fp.len() as int] == e);
                    } else {
                        assert forall|k: int| 0 <= k < fp.len() implies
                            (#[trigger] fp[k]).chunk_index != cc by {
                            assert(fs[k] == fp[k]);
                        }
                    }
                }
            },
        }
    }
}

/// How a call is dispatched: the chunks, and whether each gets a worker of
/// its own or all of them run on the calling thread.
#[derive(Debug)]
pub struct Plan {
    pub chunks: Vec<ChunkRange>,
    pub spawn_workers: bool,
}

/// Number of workers spawned for `len` elements at threshold `t`: none up to
/// the threshold, one per chunk above it.
pub open spec fn worker_count(len: int, t: int) -> int {
    if len <= t {
        0
    } else {
        chunk_count(len, t)
    }
}

/// Rejects a zero threshold; otherwise cuts `len` elements into chunks and
/// asks for workers only when `len` exceeds the threshold.
pub fn plan(len: usize, threshold: usize) -> (r: Result<Plan, MapError>)
    ensures
        threshold == 0 <==> r matches Err(MapError::InvalidConfiguration),
        threshold > 0 ==> (r matches Ok(p) && {
            &&& p.spawn_workers == (len > threshold)
            &&& p.chunks@.len() == chunk_count(len as int, threshold as int)
            &&& (if p.spawn_workers { p.chunks@.len() as int } else { 0 }) == worker_count(
                len as int,
                threshold as int,
            )
            &&& forall|c: int|
                0 <= c < p.chunks@.len() ==> (#[trigger] p.chunks@[c]).is_chunk(
                    c,
                    threshold as int,
                    len as int,
                )
        }),
{
    if threshold == 0 {
        return Err(MapError::InvalidConfiguration);
    }
    Ok(Plan { chunks: partition(len, threshold), spawn_workers: len > threshold })
}

/// Maps `data` with `func`, chunk by chunk, on the calling thread: runs every
/// chunk's worker body in chunk order, including those after a fault, and
/// joins the outcomes.
pub fn split_work<T, R, F: Fn(&T) -> Result<R, String>>(data: Vec<T>, func: F, threshold: usize) -> (r:
    Result<Vec<R>, MapError>)
    requires
        forall|i: int| 0 <= i < data@.len() ==> func.requires((&#[trigger] data@[i],)),
    ensures
        map_result(func, data@, threshold as int, r),
        threshold > 0 && data@.len() == 0 ==> (r matches Ok(v) && v@.len() == 0),
{
    let len = data.len();
    let chunks = match plan(len, threshold) {
        Ok(p) => p.chunks,
        Err(e) => {
            return Err(e);
        },
    };
    let ghost t = threshold as int;
    let mut outcomes: Vec<Result<Vec<R>, TransformFault>> = Vec::new();
    let mut c: usize = 0;
    while c < chunks.len()
        invariant
            t == threshold > 0,
            len == data@.len(),
            forall|i: int| 0 <= i < data@.len() ==> func.requires((&#[trigger] data@[i],)),
            chunks@.len() == chunk_count(len as int, t),
            forall|k: int| 0 <= k < chunks@.len() ==> (#[trigger] chunks@[k]).is_chunk(k, t, len as int),
            c <= chunks@.len(),
            outcomes@.len() == c,
            forall|k: int| 0 <= k < c ==> is_chunk_outcome(func, data@, t, k, #[trigger] outcomes@[k]),
        decreases chunks@.len() - c,
    {
        proof {
            lemma_chunk_bounds(len as int, t, c as int);
        }
        let out = run_chunk(&data, &chunks[c], &func);
        outcomes.push(out);
        c = c + 1;
    }
    proof {
        lemma_join_chunks(func, data@, t, outcomes@);
        lemma_chunk_bounds(len as int, t, chunks@.len() as int);
        if chunks@.len() > 0 {
            lemma_chunk_bounds(len as int, t, chunks@.len() - 1);
        }
    }
    join_outcomes(outcomes)
}

} // verus!
