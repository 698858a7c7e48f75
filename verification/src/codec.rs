//! Lossless run-length coding of byte buffers, the storage format of
//! swapped-out canvas tiles.
//!
//! The encoder makes a single left-to-right pass and flushes a `(value,
//! count)` pair whenever the byte value changes; the final run is always
//! flushed even if its length is 1. Every run contributes exactly one pair
//! regardless of its length, so an encoded buffer never holds more runs than
//! the input has bytes.
use vstd::prelude::*;

verus! {

/// One run of a run-length-encoded stream: `count` repetitions of `value`.
#[derive(Clone, Copy, Debug, PartialEq, Eq, Structural)]
pub struct Run {
    pub value: u8,
    pub count: usize,
}

/// The byte sequence a run stream decodes to.
pub open spec fn expand_spec(runs: Seq<Run>) -> Seq<u8>
    decreases runs.len(),
{
    if runs.len() == 0 {
        Seq::empty()
    } else {
        expand_spec(runs.drop_last()) + Seq::new(
            runs.last().count as nat,
            |i: int| runs.last().value,
        )
    }
}

/// A canonical run stream: no empty run, and adjacent runs carry different
/// values. This is the shape the single-pass encoder produces.
pub open spec fn wf_runs(runs: Seq<Run>) -> bool {
    &&& forall|i: int| 0 <= i < runs.len() ==> (#[trigger] runs[i]).count >= 1
    &&& forall|i: int| 0 < i < runs.len() ==> (#[trigger] runs[i]).value != runs[i - 1].value
}

/// One step of encoding: extend the trailing run when the next byte matches
/// its value, otherwise open a fresh run of length 1.
pub open spec fn append_byte_spec(runs: Seq<Run>, b: u8) -> Seq<Run> {
    if runs.len() > 0 && runs.last().value == b && runs.last().count < usize::MAX {
        runs.update(
            runs.len() - 1,
            Run { value: b, count: (runs.last().count + 1) as usize },
        )
    } else {
        runs.push(Run { value: b, count: 1 })
    }
}

/// The run stream the single-pass encoder produces for `b`.
pub open spec fn compress_spec(b: Seq<u8>) -> Seq<Run>
    decreases b.len(),
{
    if b.len() == 0 {
        Seq::empty()
    } else {
        append_byte_spec(compress_spec(b.drop_last()), b.last())
    }
}

/// Decoding one encoding step recovers exactly the appended byte.
proof fn lemma_expand_append(runs: Seq<Run>, b: u8)
    ensures
        expand_spec(append_byte_spec(runs, b)) == expand_spec(runs).push(b),
{
    if runs.len() > 0 && runs.last().value == b && runs.last().count < usize::MAX {
        let n = runs.len();
        let extended = append_byte_spec(runs, b);
        assert(extended.drop_last() =~= runs.drop_last());
        assert(extended.last() == Run { value: b, count: (runs.last().count + 1) as usize });
        assert(expand_spec(extended) == expand_spec(runs.drop_last()) + Seq::new(
            (runs.last().count + 1) as nat,
            |i: int| b,
        ));
        assert(Seq::new((runs.last().count + 1) as nat, |i: int| b) =~= Seq::new(
            runs.last().count as nat,
            |i: int| runs.last().value,
        ).push(b));
        assert(expand_spec(extended) =~= expand_spec(runs).push(b));
    } else {
        let pushed = runs.push(Run { value: b, count: 1 });
        assert(pushed.drop_last() =~= runs);
        assert(expand_spec(pushed) == expand_spec(pushed.drop_last()) + Seq::new(
            1,
            |i: int| b,
        ));
        assert(expand_spec(pushed) =~= expand_spec(runs).push(b));
    }
}

/// The run-length round trip is the identity: decoding the encoding of any
/// byte sequence gives that sequence back, whatever its content.
pub proof fn lemma_rle_round_trip(b: Seq<u8>)
    ensures
        expand_spec(compress_spec(b)) == b,
    decreases b.len(),
{
    if b.len() == 0 {
        assert(expand_spec(compress_spec(b)) =~= b);
    } else {
        lemma_rle_round_trip(b.drop_last());
        lemma_expand_append(compress_spec(b.drop_last()), b.last());
        assert(expand_spec(compress_spec(b)) =~= b);
    }
}

/// A decoded stream is at least as long as its trailing run.
proof fn lemma_expand_len_ge_last(runs: Seq<Run>)
    requires
        runs.len() > 0,
    ensures
        expand_spec(runs).len() >= runs.last().count,
{
}

/// A stream of non-empty runs decodes to at least one byte per run.
proof fn lemma_expand_len_ge(runs: Seq<Run>)
    requires
        forall|i: int| 0 <= i < runs.len() ==> (#[trigger] runs[i]).count >= 1,
    ensures
        expand_spec(runs).len() >= runs.len(),
    decreases runs.len(),
{
    if runs.len() > 0 {
        assert(forall|i: int|
            0 <= i < runs.drop_last().len() ==> (#[trigger] runs.drop_last()[i]).count >= 1);
        lemma_expand_len_ge(runs.drop_last());
    }
}

/// One encoding step keeps the stream canonical, provided the trailing run
/// has room to count one more byte.
proof fn lemma_wf_append(runs: Seq<Run>, b: u8)
    requires
        wf_runs(runs),
        runs.len() > 0 ==> runs.last().count < usize::MAX,
    ensures
        wf_runs(append_byte_spec(runs, b)),
{
    let out = append_byte_spec(runs, b);
    if runs.len() > 0 && runs.last().value == b && runs.last().count < usize::MAX {
        assert(forall|i: int| 0 <= i < out.len() ==> (#[trigger] out[i]).count >= 1);
        assert(forall|i: int| 0 < i < out.len() ==> (#[trigger] out[i]).value != out[i - 1].value);
    } else {
        assert(forall|i: int| 0 <= i < out.len() ==> (#[trigger] out[i]).count >= 1);
        assert(forall|i: int| 0 < i < out.len() ==> (#[trigger] out[i]).value != out[i - 1].value);
    }
}

/// Run-length encode `bytes` in a single pass. Lossless: the result decodes
/// to exactly `bytes`, and it is canonical, so it never holds more runs than
/// `bytes` has bytes.
pub fn compress(bytes: &Vec<u8>) -> (runs: Vec<Run>)
    ensures
        runs@ == compress_spec(bytes@),
        expand_spec(runs@) == bytes@,
        wf_runs(runs@),
        runs@.len() <= bytes@.len(),
{
    let mut runs: Vec<Run> = Vec::new();
    let mut i: usize = 0;
    proof {
        assert(bytes@.take(0) =~= Seq::<u8>::empty());
    }
    while i < bytes.len()
        invariant
            i <= bytes@.len(),
            runs@ == compress_spec(bytes@.take(i as int)),
            expand_spec(runs@) == bytes@.take(i as int),
            wf_runs(runs@),
        decreases bytes@.len() - i,
    {
        let b = bytes[i];
        proof {
            assert(bytes@.take(i + 1).drop_last() =~= bytes@.take(i as int));
            assert(bytes@.take(i + 1).last() == bytes@[i as int]);
            if runs@.len() > 0 {
                lemma_expand_len_ge_last(runs@);
            }
            lemma_expand_append(runs@, b);
            lemma_wf_append(runs@, b);
            assert(expand_spec(append_byte_spec(runs@, b)) =~= bytes@.take(i + 1));
        }
        if runs.len() > 0 {
            let n = runs.len();
            let last = runs[n - 1];
            if last.value == b {
                let slot = &mut runs[n - 1];
                slot.count = slot.count + 1;
                proof {
                    assert(runs@ =~= append_byte_spec(compress_spec(bytes@.take(i as int)), b));
                }
            } else {
                runs.push(Run { value: b, count: 1 });
            }
        } else {
            runs.push(Run { value: b, count: 1 });
        }
        i = i + 1;
    }
    proof {
        assert(bytes@.take(bytes@.len() as int) =~= bytes@);
        lemma_expand_len_ge(runs@);
    }
    runs
}

/// Decode a run stream by expanding each `(value, count)` pair by
/// repetition. The decoded length must fit in memory.
pub fn expand(runs: &Vec<Run>) -> (bytes: Vec<u8>)
    requires
        expand_spec(runs@).len() <= usize::MAX,
    ensures
        bytes@ == expand_spec(runs@),
{
    let mut bytes: Vec<u8> = Vec::new();
    let mut i: usize = 0;
    proof {
        assert(runs@.take(0) =~= Seq::<Run>::empty());
    }
    while i < runs.len()
        invariant
            i <= runs@.len(),
            expand_spec(runs@).len() <= usize::MAX,
            bytes@ == expand_spec(runs@.take(i as int)),
        decreases runs@.len() - i,
    {
        let run = runs[i];
        proof {
            lemma_expand_prefix_len(runs@, i + 1);
            assert(runs@.take(i + 1).drop_last() =~= runs@.take(i as int));
            assert(runs@.take(i + 1).last() == runs@[i as int]);
        }
        let mut k: usize = 0;
        while k < run.count
            invariant
                k <= run.count,
                run == runs@[i as int],
                i < runs@.len(),
                expand_spec(runs@.take(i + 1)).len() <= usize::MAX,
                runs@.take(i + 1).drop_last() =~= runs@.take(i as int),
                runs@.take(i + 1).last() == runs@[i as int],
                bytes@ == expand_spec(runs@.take(i as int)) + Seq::new(
                    k as nat,
                    |j: int| run.value,
                ),
            decreases run.count - k,
        {
            bytes.push(run.value);
            proof {
                assert(expand_spec(runs@.take(i as int)) + Seq::new(
                    (k + 1) as nat,
                    |j: int| run.value,
                ) =~= (expand_spec(runs@.take(i as int)) + Seq::new(
                    k as nat,
                    |j: int| run.value,
                )).push(run.value));
            }
            k = k + 1;
        }
        proof {
            assert(bytes@ =~= expand_spec(runs@.take(i + 1)));
        }
        i = i + 1;
    }
    proof {
        assert(runs@.take(runs@.len() as int) =~= runs@);
    }
    bytes
}

/// Decoding a prefix of a stream never yields more bytes than decoding the
/// whole stream.
proof fn lemma_expand_prefix_len(runs: Seq<Run>, n: int)
    requires
        0 <= n <= runs.len(),
    ensures
        expand_spec(runs.take(n)).len() <= expand_spec(runs).len(),
    decreases runs.len() - n,
{
    if n < runs.len() {
        lemma_expand_prefix_len(runs, n + 1);
        assert(runs.take(n + 1).drop_last() =~= runs.take(n));
        assert(expand_spec(runs.take(n + 1)) == expand_spec(runs.take(n)) + Seq::new(
            runs.take(n + 1).last().count as nat,
            |i: int| runs.take(n + 1).last().value,
        ));
    } else {
        assert(runs.take(n) =~= runs);
    }
}

} // verus!
