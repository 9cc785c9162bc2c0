//! The pure planning of the streaming loader: how many records a file
//! holds, how many whole batches one buffered fill carries, and the
//! splitting of a fill into consecutive batches that never cut a
//! record.

use vstd::prelude::*;
use vstd::slice::{slice_subrange, slice_to_vec};

verus! {

/// Records in a file of the given byte length: whole records only, a
/// trailing partial record silently ignored.
pub fn record_count(file_len: usize, record_size: usize) -> (r: usize)
    requires
        record_size >= 1,
    ensures
        r == file_len as int / record_size as int,
{
    file_len / record_size
}

/// Whole batches per buffered fill: as many as the buffer budget
/// holds, and at least one.
pub fn batches_per_load(buffer_size: usize, record_size: usize, batch_size: usize) -> (r: usize)
    requires
        record_size >= 1,
        batch_size >= 1,
    ensures
        r == if buffer_size as int / record_size as int / batch_size as int >= 1 {
            buffer_size as int / record_size as int / batch_size as int
        } else {
            1int
        },
        r >= 1,
{
    let b = buffer_size / record_size / batch_size;
    if b == 0 {
        1
    } else {
        b
    }
}

/// The byte capacity of a fill of `batches` whole batches, or `None`
/// where it cannot be addressed.
pub fn fill_capacity(record_size: usize, batch_size: usize, batches: usize) -> (r: Option<usize>)
    ensures
        match r {
            Some(c) => c == record_size * batch_size * batches,
            None => record_size * batch_size * batches > usize::MAX,
        },
{
    match record_size.checked_mul(batch_size) {
        Some(p) => match p.checked_mul(batches) {
            Some(c) => Some(c),
            None => {
                proof {
                    assert(record_size * batch_size * batches > usize::MAX) by (nonlinear_arith)
                        requires
                            record_size * batch_size == p,
                            p * batches > usize::MAX,
                    ;
                }
                None
            },
        },
        None => {
            proof {
                assert(record_size * batch_size * batches >= record_size * batch_size
                    || batches == 0) by (nonlinear_arith);
                if batches == 0 {
                    assert(record_size * batch_size * batches == 0) by (nonlinear_arith)
                        requires
                            batches == 0,
                    ;
                }
            }
            if batches == 0 {
                Some(0)
            } else {
                None
            }
        },
    }
}

/// The consecutive batches of `s`, each of `k` records except a
/// shorter final one; no record is split.
pub open spec fn spec_chunks<T>(s: Seq<T>, k: int) -> Seq<Seq<T>>
    recommends
        k >= 1,
    decreases s.len(),
{
    if s.len() == 0 {
        Seq::<Seq<T>>::empty()
    } else if k < 1 || s.len() <= k {
        seq![s]
    } else {
        seq![s.take(k)] + spec_chunks(s.skip(k), k)
    }
}

/// The record count a batch list covers.
pub open spec fn spec_len_sum<T>(cs: Seq<Seq<T>>) -> int
    decreases cs.len(),
{
    if cs.len() == 0 {
        0
    } else {
        cs.first().len() + spec_len_sum(cs.drop_first())
    }
}

/// Loader completeness: the batches of a fill cover every record once,
/// in order; no batch exceeds the requested size, every batch but the
/// last is full, and the batch lengths sum to the record count.
pub proof fn lemma_chunks_cover<T>(s: Seq<T>, k: int)
    requires
        k >= 1,
    ensures
        spec_chunks(s, k).flatten() == s,
        spec_len_sum(spec_chunks(s, k)) == s.len(),
        forall|i: int| 0 <= i < spec_chunks(s, k).len() ==> #[trigger] spec_chunks(s, k)[i].len()
            <= k,
        forall|i: int|
            0 <= i < spec_chunks(s, k).len() - 1 ==> #[trigger] spec_chunks(s, k)[i].len() == k,
    decreases s.len(),
{
    let cs = spec_chunks(s, k);
    if s.len() == 0 {
        assert(cs.flatten() =~= s);
    } else if s.len() <= k {
        assert(cs =~~= seq![s]);
        assert(cs.first() == s);
        assert(cs.drop_first() =~~= Seq::<Seq<T>>::empty());
        assert(cs.flatten() == cs.first() + cs.drop_first().flatten());
        assert(Seq::<Seq<T>>::empty().flatten() =~= Seq::<T>::empty());
        assert(cs.flatten() =~= s);
        assert(spec_len_sum(cs) == s.len() + spec_len_sum(cs.drop_first()));
    } else {
        lemma_chunks_cover(s.skip(k), k);
        let rest = spec_chunks(s.skip(k), k);
        assert(cs =~~= seq![s.take(k)] + rest);
        assert(cs.first() == s.take(k));
        assert(cs.drop_first() =~~= rest);
        assert(cs.flatten() == cs.first() + cs.drop_first().flatten());
        assert(cs.flatten() =~= s.take(k) + rest.flatten());
        assert(s.take(k) + s.skip(k) =~= s);
        assert(spec_len_sum(cs) == k + spec_len_sum(rest));
        assert(rest.len() >= 1);
        assert forall|i: int| 0 <= i < cs.len() implies #[trigger] cs[i].len() <= k by {
            if i > 0 {
                assert(cs[i] == rest[i - 1]);
            }
        }
        assert forall|i: int| 0 <= i < cs.len() - 1 implies #[trigger] cs[i].len() == k by {
            if i > 0 {
                assert(cs[i] == rest[i - 1]);
            }
        }
    }
}

/// Splits a fill into consecutive batches of at most `k` records.
#[verifier::loop_isolation(false)]
pub fn split_batches<T: Copy>(data: &[T], k: usize) -> (out: Vec<Vec<T>>)
    requires
        k >= 1,
    ensures
        out@.len() == spec_chunks(data@, k as int).len(),
        forall|i: int| 0 <= i < out@.len() ==> out@[i]@ == spec_chunks(data@, k as int)[i],
{
    let n = data.len();
    let mut out: Vec<Vec<T>> = Vec::new();
    let mut i: usize = 0;
    proof {
        assert(data@.skip(0) =~= data@);
    }
    while i < n
        invariant
            0 <= i <= n,
            n == data@.len(),
            i < n ==> spec_chunks(data@, k as int) =~~= out@.map_values(|v: Vec<T>| v@)
                + spec_chunks(data@.skip(i as int), k as int),
            i == n ==> spec_chunks(data@, k as int) =~~= out@.map_values(|v: Vec<T>| v@),
        decreases n - i,
    {
        let ghost rest = data@.skip(i as int);
        let end = if n - i <= k {
            n
        } else {
            i + k
        };
        let piece = slice_to_vec(slice_subrange(data, i, end));
        proof {
            if n - i <= k {
                assert(rest.len() <= k);
                assert(piece@ =~= rest);
                assert(spec_chunks(rest, k as int) =~~= seq![rest]);
            } else {
                assert(piece@ =~= rest.take(k as int));
                assert(rest.skip(k as int) =~= data@.skip(i + k));
            }
        }
        out.push(piece);
        i = end;
        proof {
            assert(out@.map_values(|v: Vec<T>| v@) =~~= out@.map_values(
                |v: Vec<T>| v@,
            ));
            if i < n {
                assert(spec_chunks(data@, k as int) =~~= out@.map_values(|v: Vec<T>| v@)
                    + spec_chunks(data@.skip(i as int), k as int));
            } else {
                assert(spec_chunks(data@, k as int) =~~= out@.map_values(|v: Vec<T>| v@));
            }
        }
    }
    proof {
        if n == 0 {
            assert(spec_chunks(data@, k as int) =~~= out@.map_values(|v: Vec<T>| v@));
        }
        assert forall|j: int| 0 <= j < out@.len() implies out@[j]@ == spec_chunks(
            data@,
            k as int,
        )[j] by {
            assert(out@.map_values(|v: Vec<T>| v@)[j] == out@[j]@);
        }
    }
    out
}

} // verus!
