//! The pure reshaping of the parallel converter: a batch is cut into
//! near-equal contiguous chunks, one per worker; each chunk is mapped
//! record by record; the mapped chunks, concatenated back in chunk
//! order, are exactly the mapped batch — whatever the worker count.

use vstd::prelude::*;
use crate::loader::{spec_chunks, split_batches};

verus! {

/// The chunk size handed to each of `threads` workers: the batch
/// length divided by the worker count, rounded up.
pub open spec fn spec_worker_chunk(len: int, threads: int) -> int
    recommends
        threads >= 1,
{
    if len % threads == 0 {
        len / threads
    } else {
        len / threads + 1
    }
}

/// Cuts a batch into one contiguous chunk per worker, sized
/// `ceil(len / threads)`, the last possibly shorter; an empty batch
/// yields no chunks.
#[verifier::loop_isolation(false)]
pub fn split_for_workers<T: Copy>(batch: &[T], threads: usize) -> (out: Vec<Vec<T>>)
    requires
        threads >= 1,
    ensures
        out@.len() == spec_chunks(batch@, spec_worker_chunk(batch@.len() as int, threads as int)).len(),
        forall|i: int|
            0 <= i < out@.len() ==> out@[i]@ == spec_chunks(
                batch@,
                spec_worker_chunk(batch@.len() as int, threads as int),
            )[i],
        batch@.len() == 0 ==> out@.len() == 0,
{
    let n = batch.len();
    if n == 0 {
        let out: Vec<Vec<T>> = Vec::new();
        return out;
    }
    let k = if n % threads == 0 {
        n / threads
    } else {
        proof {
            assert(threads >= 2) by {
                if threads == 1 {
                    assert(n as int % 1int == 0) by (nonlinear_arith);
                }
            }
            assert((n as int) / (threads as int) < n as int) by (nonlinear_arith)
                requires
                    threads >= 2,
                    n >= 1,
            ;
        }
        n / threads + 1
    };
    proof {
        assert(k >= 1) by (nonlinear_arith)
            requires
                n >= 1,
                threads >= 1,
                k == if n as int % threads as int == 0 {
                    n as int / threads as int
                } else {
                    n as int / threads as int + 1
                },
        ;
    }
    split_batches(batch, k)
}

/// Applies a conversion to every record of a chunk, in order.
#[verifier::loop_isolation(false)]
pub fn map_records<T: Copy, U, F: Fn(T) -> U>(chunk: &Vec<T>, f: &F) -> (out: Vec<U>)
    requires
        forall|i: int| 0 <= i < chunk@.len() ==> call_requires(*f, (#[trigger] chunk@[i],)),
    ensures
        out@.len() == chunk@.len(),
        forall|i: int| 0 <= i < out@.len() ==> call_ensures(*f, (chunk@[i],), #[trigger] out@[i]),
{
    let mut out: Vec<U> = Vec::new();
    let mut i: usize = 0;
    while i < chunk.len()
        invariant
            0 <= i <= chunk@.len(),
            out@.len() == i,
            forall|j: int| 0 <= j < i ==> call_ensures(*f, (chunk@[j],), #[trigger] out@[j]),
        decreases chunk@.len() - i,
    {
        let r = f(chunk[i]);
        out.push(r);
        i = i + 1;
    }
    out
}

/// Concatenates the converted chunks back, in chunk order.
#[verifier::loop_isolation(false)]
pub fn concat_chunks<U>(chunks: Vec<Vec<U>>) -> (out: Vec<U>)
    ensures
        out@ == chunks@.map_values(|v: Vec<U>| v@).flatten(),
{
    let ghost whole = chunks@.map_values(|v: Vec<U>| v@);
    let mut rest = chunks;
    let mut out: Vec<U> = Vec::new();
    while rest.len() > 0
        invariant
            whole.flatten() =~= out@ + rest@.map_values(|v: Vec<U>| v@).flatten(),
        decreases rest@.len(),
    {
        let ghost rv = rest@.map_values(|v: Vec<U>| v@);
        let mut piece = rest.remove(0);
        proof {
            assert(rv.first() == piece@);
            assert(rest@.map_values(|v: Vec<U>| v@) =~~= rv.drop_first());
            assert(rv.flatten() == rv.first() + rv.drop_first().flatten());
        }
        out.append(&mut piece);
    }
    proof {
        assert(rest@.map_values(|v: Vec<U>| v@) =~~= Seq::<Seq<U>>::empty());
        assert(out@ =~= whole.flatten());
    }
    out
}

proof fn lemma_flatten_split<U>(s: Seq<Seq<U>>, i: int)
    requires
        0 <= i <= s.len(),
    ensures
        s.flatten() == s.take(i).flatten() + s.skip(i).flatten(),
    decreases i,
{
    if i == 0 {
        assert(s.take(0).flatten() =~= Seq::<U>::empty());
        assert(s.skip(0) =~~= s);
        assert(s.flatten() =~= s.take(0).flatten() + s.skip(0).flatten());
    } else {
        lemma_flatten_split(s, i - 1);
        assert(s.skip(i - 1).first() == s[i - 1]);
        assert(s.skip(i - 1).drop_first() =~~= s.skip(i));
        assert(s.skip(i - 1).flatten() == s[i - 1] + s.skip(i).flatten());
        assert(s.take(i).drop_last() =~~= s.take(i - 1));
        assert(s.take(i).last() == s[i - 1]);
        s.take(i - 1).lemma_flatten_push(s[i - 1]);
        assert(s.take(i) =~~= s.take(i - 1).push(s[i - 1]));
        assert(s.flatten() =~= s.take(i).flatten() + s.skip(i).flatten());
    }
}

/// Conversion order preservation: cutting a batch into chunks, mapping
/// each chunk and concatenating the results in chunk order yields the
/// record-by-record map of the whole batch, for every chunk size — so
/// for every worker count.
pub proof fn lemma_chunked_map_preserves_order<T, U>(s: Seq<T>, k: int, f: spec_fn(T) -> U)
    requires
        k >= 1,
    ensures
        spec_chunks(s, k).map_values(|c: Seq<T>| c.map_values(f)).flatten() == s.map_values(f),
    decreases s.len(),
{
    let cs = spec_chunks(s, k);
    let mapped = cs.map_values(|c: Seq<T>| c.map_values(f));
    if s.len() == 0 {
        assert(mapped.flatten() =~= s.map_values(f));
    } else if s.len() <= k {
        assert(cs =~~= seq![s]);
        assert(mapped.first() == s.map_values(f));
        assert(mapped.drop_first() =~~= Seq::<Seq<U>>::empty());
        assert(mapped.flatten() == mapped.first() + mapped.drop_first().flatten());
        assert(mapped.flatten() =~= s.map_values(f));
    } else {
        lemma_chunked_map_preserves_order(s.skip(k), k, f);
        let rest = spec_chunks(s.skip(k), k);
        assert(cs =~~= seq![s.take(k)] + rest);
        assert(mapped.first() == s.take(k).map_values(f));
        assert(mapped.drop_first() =~~= rest.map_values(|c: Seq<T>| c.map_values(f)));
        assert(mapped.flatten() == mapped.first() + mapped.drop_first().flatten());
        assert(s.take(k).map_values(f) + s.skip(k).map_values(f) =~= s.map_values(f));
        assert(mapped.flatten() =~= s.map_values(f));
    }
}

} // verus!
