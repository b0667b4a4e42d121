//! Progress bars: how many there are, which one a worker uses, and what they show.

use vstd::prelude::*;

verus! {

/// Maximum number of visible per-worker progress bars.
pub const MAX_WORKER_BARS: usize = 16;

/// The smaller of two numbers.
pub open spec fn smaller(a: int, b: int) -> int {
    if a <= b {
        a
    } else {
        b
    }
}

/// How many worker bars there are for this many threads and files.
pub open spec fn bars_for(threads: int, files: int) -> int {
    smaller(smaller(threads, files), MAX_WORKER_BARS as int)
}

/// The bar of a worker where there are this many.
pub open spec fn bar_of(worker: Option<usize>, bars: int) -> Option<int> {
    if bars == 0 {
        None
    } else {
        Some(
            (match worker {
                Some(i) => i as int,
                None => 0,
            }) % bars,
        )
    }
}

/// There are no more bars than threads, files, or what can be seen, and no fewer than that
/// allows. The first workers each have a bar of their own, the others share them; work outside
/// of the workers uses the first bar.
pub proof fn law_bars_are_shared_out(threads: int, files: int, worker: usize, bars: int)
    requires
        threads >= 0,
        files >= 0,
        bars > 0,
    ensures
        ({
            let n = bars_for(threads, files);
            &&& n <= threads && n <= files && n <= 16
            &&& n == threads || n == files || n == 16
        }),
        bar_of(None, bars) == Some(0int),
        bar_of(Some(worker), bars) matches Some(b) && 0 <= b < bars,
        worker < bars ==> bar_of(Some(worker), bars) == Some(worker as int),
        bar_of(None, 0) is None && bar_of(Some(worker), 0) is None,
{
    if worker < bars {
        vstd::arithmetic::div_mod::lemma_small_mod(worker as nat, bars as nat);
    }
    vstd::arithmetic::div_mod::lemma_small_mod(0, bars as nat);
    vstd::arithmetic::div_mod::lemma_mod_bound(worker as int, bars);
}

/// How many worker bars there are: no more than threads, files, or what can be seen.
pub fn worker_bars(num_threads: usize, total: usize) -> (r: usize)
    ensures
        r == bars_for(num_threads as int, total as int),
{
    let n: usize = if num_threads <= total {
        num_threads
    } else {
        total
    };
    if n <= MAX_WORKER_BARS {
        n
    } else {
        MAX_WORKER_BARS
    }
}

/// The bar of a worker; work outside of the workers uses the first bar.
pub fn worker_bar(thread_index: Option<usize>, bars: usize) -> (r: Option<usize>)
    ensures
        match r {
            Some(b) => bar_of(thread_index, bars as int) == Some(b as int),
            None => bar_of(thread_index, bars as int) is None,
        },
{
    if bars == 0 {
        return None;
    }
    let i: usize = match thread_index {
        Some(i) => i,
        None => 0,
    };
    Some(i % bars)
}

/// What a bar shows of a file in a phase.
pub fn phase_message(name: &str, phase: &str) -> (r: String)
    ensures
        r@ == phase@ + " "@ + name@,
{
    let mut s = phase.to_owned();
    s.append(" ");
    s.append(name);
    s
}

/// The length of a bar for a duration: its whole milliseconds.
pub open spec fn bar_length(duration: int) -> int {
    if duration > 0 {
        duration / 1000
    } else {
        0
    }
}

/// The length of a bar for a duration in microseconds.
pub fn duration_ms(duration: i64) -> (r: u64)
    ensures
        r == bar_length(duration as int),
{
    if duration > 0 {
        (duration / 1000) as u64
    } else {
        0
    }
}

} // verus!
