pub mod scope;

use vstd::prelude::*;
use std::collections::VecDeque;

verus! {

/// Number of samples a plot shows.
pub const WINDOW_SIZE: usize = 5_000;

/// The last `keep` elements of `s` (all of `s` if it is shorter).
pub open spec fn recent<T>(s: Seq<T>, keep: int) -> Seq<T> {
    if s.len() > keep { s.skip(s.len() - keep) } else { s }
}

/// Appends `x`, first dropping the oldest element if `keep` (or more) are
/// already held.
pub open spec fn push_evicting<T>(s: Seq<T>, x: T, keep: int) -> Seq<T> {
    if s.len() >= keep && s.len() > 0 { s.drop_first().push(x) } else { s.push(x) }
}

/// Appends every element of `chunk` in turn with [`push_evicting`].
pub open spec fn push_all_evicting<T>(s: Seq<T>, chunk: Seq<T>, keep: int) -> Seq<T>
    decreases chunk.len(),
{
    if chunk.len() == 0 {
        s
    } else {
        push_evicting(push_all_evicting(s, chunk.drop_last(), keep), chunk.last(), keep)
    }
}

/// A buffer that never holds more than `keep` elements, fed element by
/// element with eviction of the oldest, holds exactly the most recent
/// `keep` elements of everything it was given.
pub proof fn lemma_push_all_keeps_recent<T>(s: Seq<T>, chunk: Seq<T>, keep: int)
    requires
        keep > 0,
        s.len() <= keep,
    ensures
        push_all_evicting(s, chunk, keep) == recent(s + chunk, keep),
    decreases chunk.len(),
{
    if chunk.len() > 0 {
        lemma_push_all_keeps_recent(s, chunk.drop_last(), keep);
        let p = recent(s + chunk.drop_last(), keep);
        let all = s + chunk;
        assert(s + chunk.drop_last() =~= all.drop_last());
        if p.len() >= keep && p.len() > 0 {
            assert(p.drop_first().push(chunk.last()) =~= recent(all, keep));
        } else {
            assert(p.push(chunk.last()) =~= recent(all, keep));
        }
    }
}

/// Pushes `chunk` into `samples`, dropping the oldest sample whenever
/// `keep` are already held.
fn push_with_eviction<T: Copy>(samples: &mut VecDeque<T>, chunk: &[T], keep: usize)
    ensures
        final(samples)@ == push_all_evicting(old(samples)@, chunk@, keep as int),
{
    let ghost s0 = samples@;
    let mut i: usize = 0;
    while i < chunk.len()
        invariant
            i <= chunk@.len(),
            samples@ == push_all_evicting(s0, chunk@.take(i as int), keep as int),
        decreases chunk@.len() - i,
    {
        proof {
            assert(chunk@.take(i + 1).drop_last() =~= chunk@.take(i as int));
        }
        if samples.len() >= keep {
            let _ = samples.pop_front();
        }
        samples.push_back(chunk[i]);
        proof {
            let p = push_all_evicting(s0, chunk@.take(i as int), keep as int);
            if p.len() >= keep && p.len() > 0 {
                assert(samples@ =~= p.drop_first().push(chunk@[i as int]));
            }
        }
        i = i + 1;
    }
    proof {
        assert(chunk@.take(chunk@.len() as int) =~= chunk@);
    }
}

/// Keeps the plot's sample buffer to the last [`WINDOW_SIZE`] samples, then
/// appends `chunk`: afterwards the buffer holds the most recent
/// `WINDOW_SIZE` samples of what it held and `chunk`.
pub fn push_plot_samples<T: Copy>(samples: &mut VecDeque<T>, chunk: &[T])
    ensures
        final(samples)@ == recent(old(samples)@ + chunk@, WINDOW_SIZE as int),
{
    let ghost s0 = samples@;
    while samples.len() > WINDOW_SIZE
        invariant
            samples@ == s0.skip(s0.len() - samples@.len()),
            samples@.len() <= s0.len(),
            s0.len() > WINDOW_SIZE ==> samples@.len() >= WINDOW_SIZE,
            s0.len() <= WINDOW_SIZE ==> samples@ == s0,
        decreases samples@.len(),
    {
        let _ = samples.pop_front();
        proof {
            assert(samples@ =~= s0.skip(s0.len() - samples@.len()));
        }
    }
    let ghost trimmed = samples@;
    proof {
        assert(trimmed == recent(s0, WINDOW_SIZE as int)) by {
            if s0.len() <= WINDOW_SIZE {
                assert(s0.skip(0) =~= s0);
            }
        }
    }
    push_with_eviction(samples, chunk, WINDOW_SIZE);
    proof {
        lemma_push_all_keeps_recent(trimmed, chunk@, WINDOW_SIZE as int);
        if s0.len() > WINDOW_SIZE {
            assert(recent(trimmed + chunk@, WINDOW_SIZE as int) =~= recent(s0 + chunk@, WINDOW_SIZE as int));
        }
    }
}

} // verus!
