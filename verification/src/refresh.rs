//! Dividing a refresh across threads.
//!
//! A frame's result depends only on the residual and its block, never on which correlator or thread
//! computed it, so the work can be cut anywhere. It is divided by transform samples, not by block: a
//! block with several long transforms pending would otherwise be a chain every other thread waits on.
//! Each block's list is cut into chunks of about the pass's work over the thread count, a heavy block
//! into several and a light one left whole. Small jobs stay on one thread.

use crate::ieee::Double;
use crate::pool::spread;
use crate::threads::pool_size;
use crate::corr::{best_bin_of, is_best_bin, window, windowed, Projection};
use crate::dict::{frames, real_transform, transformed, Bin, Block};
use crate::ieee::Single;
use crate::reals::Reals;
use vstd::prelude::*;

verus! {

/// Transform samples below which the blocks are refreshed on one thread.
pub const PARALLEL_TRANSFORM_SAMPLES: u128 = 65_536;

/// A stretch of one block's frame list, and which of the block's correlators runs it: its own is
/// number zero, its spares follow.
#[derive(Clone, Copy, Debug, PartialEq, Eq, Structural)]
pub struct Task {
    pub block: usize,
    pub correlator: usize,
    pub from: usize,
    pub to: usize,
}

/// How far the first `n` tasks reach into block `b`'s list.
pub open spec fn covered(tasks: Seq<Task>, n: int, b: int) -> int
    decreases n,
{
    if n <= 0 {
        0
    } else if tasks[n - 1].block == b {
        tasks[n - 1].to as int
    } else {
        covered(tasks, n - 1, b)
    }
}

/// Every block's list is covered once, in order, by tasks that follow on from each other.
pub open spec fn divides(tasks: Seq<Task>, lens: Seq<int>) -> bool {
    &&& forall|t: int|
        0 <= t < tasks.len() ==> {
            &&& (#[trigger] tasks[t]).block < lens.len()
            &&& tasks[t].from == covered(tasks, t, tasks[t].block as int)
            &&& tasks[t].from < tasks[t].to <= lens[tasks[t].block as int]
        }
    &&& forall|b: int|
        0 <= b < lens.len() ==> #[trigger] covered(tasks, tasks.len() as int, b) == lens[b]
}

/// No two tasks run on one correlator.
pub open spec fn independent(tasks: Seq<Task>) -> bool {
    forall|s: int, t: int|
        #![trigger tasks[s], tasks[t]]
        0 <= s < t < tasks.len() ==> tasks[s].block != tasks[t].block || tasks[s].correlator
            != tasks[t].correlator
}

/// The lengths of a run of lists.
pub open spec fn lens_of(frames: Seq<Vec<usize>>) -> Seq<int> {
    Seq::new(frames.len(), |b: int| frames[b]@.len() as int)
}

/// Transform samples the first `n` blocks ask for.
pub open spec fn work_of(frames: Seq<Vec<usize>>, fft_len: Seq<usize>, n: int) -> int
    decreases n,
{
    if n <= 0 {
        0
    } else {
        work_of(frames, fft_len, n - 1) + frames[n - 1]@.len() * fft_len[n - 1]
    }
}

/// An amount of work as the plan counts it: it stops at the largest machine integer.
pub open spec fn load(work: int) -> int {
    if work <= u64::MAX {
        work
    } else {
        u64::MAX as int
    }
}

/// The parts one block's list is cut into.
pub open spec fn parts_of(len: int, fft_len: int, target: int, threads: int) -> int {
    let wanted = (len * fft_len + target - 1) / target;
    let most = if len < threads {
        len
    } else {
        threads
    };
    if wanted < 1 {
        1
    } else if wanted > most {
        most
    } else {
        wanted
    }
}

/// The quotient rounded up, of a positive number.
pub open spec fn parts_up(a: int, b: int) -> int {
    (a - 1) / b + 1
}

/// How many frames of block `b` go in each of its parts: all of them while the whole job is small,
/// else its share of the job.
pub open spec fn stretch(frames: Seq<Vec<usize>>, fft_len: Seq<usize>, threads: int, b: int) -> int {
    let work = load(work_of(frames, fft_len, frames.len() as int));
    let len = frames[b]@.len() as int;
    if work < PARALLEL_TRANSFORM_SAMPLES {
        len
    } else {
        let threads = if threads < 1 {
            1
        } else {
            threads
        };
        let target = (work + (threads - 1)) / threads;
        parts_up(len, parts_of(len, fft_len[b] as int, target, threads))
    }
}

/// A task runs the stretch of its block's list that its correlator's number says.
pub open spec fn stretched(t: Task, size: int, len: int) -> bool {
    &&& t.from == t.correlator * size
    &&& t.to == if len - t.from <= size {
        len
    } else {
        t.from + size
    }
}

/// The tasks appended for one block keep what came before.
proof fn lemma_covered_push(tasks: Seq<Task>, t: Task, n: int, b: int)
    requires
        0 <= n <= tasks.len(),
    ensures
        covered(tasks.push(t), n, b) == covered(tasks, n, b),
    decreases n,
{
    if n > 0 {
        lemma_covered_push(tasks, t, n - 1, b);
    }
}

/// Divide a refresh of `frames[b]` of every block `b` among `threads` threads.
pub fn plan_refresh(frames: &[Vec<usize>], fft_len: &[usize], threads: usize) -> (r: Vec<Task>)
    requires
        fft_len@.len() == frames@.len(),
        forall|b: int| 0 <= b < fft_len@.len() ==> #[trigger] fft_len@[b] >= 1,
    ensures
        divides(r@, lens_of(frames@)),
        independent(r@),
        forall|s: int, t: int|
            #![trigger r@[s], r@[t]]
            0 <= s < t < r@.len() ==> r@[s].block <= r@[t].block,
        forall|t: int|
            0 <= t < r@.len() ==> stretched(
                #[trigger] r@[t],
                stretch(frames@, fft_len@, threads as int, r@[t].block as int),
                frames@[r@[t].block as int]@.len() as int,
            ),
{
    let ghost lens = lens_of(frames@);
    let mut work: u128 = 0;
    let mut b: usize = 0;
    while b < frames.len()
        invariant
            b <= frames@.len(),
            fft_len@.len() == frames@.len(),
            work == load(work_of(frames@, fft_len@, b as int)),
        decreases frames@.len() - b,
    {
        let more: u128 = samples_in(frames[b].len(), fft_len[b]);
        proof {
            lemma_work_nonneg(frames@, fft_len@, b as int);
        }
        let sum: u128 = work + more;
        work = if sum <= u64::MAX as u128 {
            sum
        } else {
            u64::MAX as u128
        };
        b += 1;
    }
    let ghost asked = threads as int;
    let divided = work >= PARALLEL_TRANSFORM_SAMPLES;
    let threads: usize = if threads >= 1 {
        threads
    } else {
        1
    };
    let target: u128 = if divided {
        (work + (threads as u128 - 1)) / threads as u128
    } else {
        1
    };
    proof {
        if divided {
            assert(target >= 1) by (nonlinear_arith)
                requires
                    target == (work + (threads - 1)) / (threads as int),
                    work >= 1,
                    threads >= 1,
            ;
            assert(target <= work) by (nonlinear_arith)
                requires
                    target == (work + (threads - 1)) / (threads as int),
                    work >= 1,
                    threads >= 1,
            ;
        }
    }
    let mut tasks: Vec<Task> = Vec::new();
    let mut b: usize = 0;
    while b < frames.len()
        invariant
            b <= frames@.len(),
            fft_len@.len() == frames@.len(),
            lens == lens_of(frames@),
            work == load(work_of(frames@, fft_len@, frames@.len() as int)),
            work <= u64::MAX,
            divided == (work >= PARALLEL_TRANSFORM_SAMPLES),
            threads >= 1,
            target >= 1,
            target <= u64::MAX,
            forall|b: int| 0 <= b < fft_len@.len() ==> #[trigger] fft_len@[b] >= 1,
            forall|t: int|
                0 <= t < tasks@.len() ==> {
                    &&& (#[trigger] tasks@[t]).block < b
                    &&& tasks@[t].from == covered(tasks@, t, tasks@[t].block as int)
                    &&& tasks@[t].from < tasks@[t].to <= lens[tasks@[t].block as int]
                    &&& stretched(
                        tasks@[t],
                        stretch(frames@, fft_len@, asked, tasks@[t].block as int),
                        lens[tasks@[t].block as int],
                    )
                },
            forall|s: int, t: int|
                #![trigger tasks@[s], tasks@[t]]
                0 <= s < t < tasks@.len() ==> tasks@[s].block <= tasks@[t].block,
            threads == if asked < 1 {
                1
            } else {
                asked
            },
            divided ==> target == (work + (threads - 1)) / (threads as int),
            forall|i: int|
                0 <= i < b ==> #[trigger] covered(tasks@, tasks@.len() as int, i) == lens[i],
            independent(tasks@),
        decreases frames@.len() - b,
    {
        let len: usize = frames[b].len();
        assert(lens[b as int] == len);
        let mut parts: usize = 1;
        if divided && len > 0 {
            let own: u128 = samples_in(len, fft_len[b]);
            let wanted: u128 = (own + (target - 1)) / target;
            let most: usize = if len < threads {
                len
            } else {
                threads
            };
            if wanted > most as u128 {
                parts = most;
            } else if wanted > 1 {
                parts = wanted as usize;
            }
        }
        let size: usize = if len == 0 {
            1
        } else {
            (len - 1) / parts + 1
        };
        let mut from: usize = 0;
        let mut c: usize = 0;
        let ghost start = tasks@;
        proof {
            lemma_untouched(start, b as int);
            if len > 0 {
                if divided {
                    assert(parts == parts_of(
                        len as int,
                        fft_len@[b as int] as int,
                        target as int,
                        threads as int,
                    ));
                }
                assert(size == stretch(frames@, fft_len@, asked, b as int)) by {
                    if !divided {
                        assert(size == len) by (nonlinear_arith)
                            requires
                                parts == 1,
                                len >= 1,
                                size == (len - 1) / (parts as int) + 1,
                        ;
                    }
                }
                assert((len - 1) / (parts as int) >= 0) by (nonlinear_arith)
                    requires
                        len >= 1,
                        parts >= 1,
                ;
                assert(size * parts >= len) by (nonlinear_arith)
                    requires
                        size == (len - 1) / (parts as int) + 1,
                        parts >= 1,
                ;
            }
        }
        while from < len
            invariant
                from <= len,
                b < frames@.len(),
                lens == lens_of(frames@),
                lens[b as int] == len,
                size >= 1,
                1 <= parts <= threads,
                !divided ==> parts == 1,
                len > 0 ==> size * parts >= len,
                from < len ==> from == c * size,
                from < len ==> c < parts,
                from == covered(tasks@, tasks@.len() as int, b as int),
                tasks@.len() >= start.len(),
                tasks@.take(start.len() as int) == start,
                forall|t: int|
                    0 <= t < tasks@.len() ==> {
                        &&& (#[trigger] tasks@[t]).block <= b
                        &&& tasks@[t].from == covered(tasks@, t, tasks@[t].block as int)
                        &&& tasks@[t].from < tasks@[t].to <= lens[tasks@[t].block as int]
                        &&& stretched(
                            tasks@[t],
                            stretch(frames@, fft_len@, asked, tasks@[t].block as int),
                            lens[tasks@[t].block as int],
                        )
                        &&& tasks@[t].block == b ==> tasks@[t].correlator < c
                    },
                len > 0 ==> size == stretch(frames@, fft_len@, asked, b as int),
                forall|s: int, t: int|
                    #![trigger tasks@[s], tasks@[t]]
                    0 <= s < t < tasks@.len() ==> tasks@[s].block <= tasks@[t].block,
                forall|i: int|
                    0 <= i < b ==> #[trigger] covered(tasks@, tasks@.len() as int, i) == lens[i],
                independent(tasks@),
            decreases len - from,
        {
            let to: usize = if len - from <= size {
                len
            } else {
                from + size
            };
            let task = Task { block: b, correlator: c, from, to };
            let ghost prev = tasks@;
            tasks.push(task);
            proof {
                assert forall|t: int| 0 <= t < tasks@.len() implies {
                    &&& (#[trigger] tasks@[t]).block <= b
                    &&& tasks@[t].from == covered(tasks@, t, tasks@[t].block as int)
                    &&& tasks@[t].from < tasks@[t].to <= lens[tasks@[t].block as int]
                    &&& stretched(
                        tasks@[t],
                        stretch(frames@, fft_len@, asked, tasks@[t].block as int),
                        lens[tasks@[t].block as int],
                    )
                    &&& tasks@[t].block == b ==> tasks@[t].correlator < c + 1
                } by {
                    lemma_covered_push(prev, task, t, tasks@[t].block as int);
                    if t < prev.len() {
                        assert(prev[t].block <= b);
                    }
                }
                assert forall|i: int| 0 <= i < b implies #[trigger] covered(
                    tasks@,
                    tasks@.len() as int,
                    i,
                ) == lens[i] by {
                    lemma_covered_push(prev, task, prev.len() as int, i);
                }
                assert(tasks@.take(start.len() as int) =~= prev.take(start.len() as int));
                assert((c + 1) * size == c * size + size) by (nonlinear_arith);
                if to < len {
                    assert(c + 1 < parts) by (nonlinear_arith)
                        requires
                            (c + 1) * size < len,
                            size * parts >= len,
                            size >= 1,
                    ;
                }
            }
            from = to;
            c += 1;
        }
        b += 1;
    }
    tasks
}

proof fn lemma_work_nonneg(frames: Seq<Vec<usize>>, fft_len: Seq<usize>, n: int)
    requires
        0 <= n <= frames.len(),
        fft_len.len() == frames.len(),
    ensures
        work_of(frames, fft_len, n) >= 0,
    decreases n,
{
    if n > 0 {
        lemma_work_nonneg(frames, fft_len, n - 1);
        assert(frames[n - 1]@.len() * fft_len[n - 1] >= 0) by (nonlinear_arith);
    }
}

/// Transform samples of some frames of one block.
fn samples_in(frames: usize, fft_len: usize) -> (r: u128)
    ensures
        r == frames * fft_len,
        r <= 0xffff_ffff_ffff_ffff * 0xffff_ffff_ffff_ffff,
{
    assert(0 <= frames * fft_len <= 0xffff_ffff_ffff_ffff * 0xffff_ffff_ffff_ffff)
        by (nonlinear_arith)
        requires
            frames <= 0xffff_ffff_ffff_ffff,
            fft_len <= 0xffff_ffff_ffff_ffff,
    ;
    frames as u128 * fft_len as u128
}

/// A block no task names is not reached.
proof fn lemma_untouched(tasks: Seq<Task>, b: int)
    requires
        forall|t: int| 0 <= t < tasks.len() ==> (#[trigger] tasks[t]).block < b,
    ensures
        covered(tasks, tasks.len() as int, b) == 0,
{
    lemma_untouched_prefix(tasks, b, tasks.len() as int);
}

proof fn lemma_untouched_prefix(tasks: Seq<Task>, b: int, n: int)
    requires
        0 <= n <= tasks.len(),
        forall|t: int| 0 <= t < tasks.len() ==> (#[trigger] tasks[t]).block < b,
    ensures
        covered(tasks, n, b) == 0,
    decreases n,
{
    if n > 0 {
        assert(tasks[n - 1].block < b);
        lemma_untouched_prefix(tasks, b, n - 1);
    }
}

/// What the first `n` tasks found of block `b`, joined in task order.
pub open spec fn gathered(
    tasks: Seq<Task>,
    done: Seq<Vec<(u32, Double)>>,
    n: int,
    b: int,
) -> Seq<(u32, Double)>
    decreases n,
{
    if n <= 0 {
        Seq::empty()
    } else if tasks[n - 1].block == b {
        gathered(tasks, done, n - 1, b) + done[n - 1]@
    } else {
        gathered(tasks, done, n - 1, b)
    }
}

/// Put the tasks' results back in block order.
pub fn gather_refresh(tasks: &[Task], done: Vec<Vec<(u32, Double)>>, blocks: usize) -> (r: Vec<
    Vec<(u32, Double)>,
>)
    requires
        done@.len() == tasks@.len(),
        forall|t: int| 0 <= t < tasks@.len() ==> (#[trigger] tasks@[t]).block < blocks,
    ensures
        r@.len() == blocks,
        forall|b: int|
            0 <= b < blocks ==> (#[trigger] r@[b])@ == gathered(
                tasks@,
                done@,
                tasks@.len() as int,
                b,
            ),
{
    let mut out: Vec<Vec<(u32, Double)>> = Vec::new();
    let mut b: usize = 0;
    while b < blocks
        invariant
            b <= blocks,
            out@.len() == b,
            forall|i: int| 0 <= i < b ==> (#[trigger] out@[i])@ == Seq::<(u32, Double)>::empty(),
        decreases blocks - b,
    {
        out.push(Vec::new());
        b += 1;
    }
    let mut t: usize = 0;
    while t < tasks.len()
        invariant
            t <= tasks@.len(),
            done@.len() == tasks@.len(),
            forall|t: int| 0 <= t < tasks@.len() ==> (#[trigger] tasks@[t]).block < blocks,
            out@.len() == blocks,
            forall|b: int|
                0 <= b < blocks ==> (#[trigger] out@[b])@ == gathered(tasks@, done@, t as int, b),
        decreases tasks@.len() - t,
    {
        let block: usize = tasks[t].block;
        let part = &done[t];
        let ghost prev = out@;
        assert(tasks@[t as int].block < blocks);
        let own = &mut out[block];
        extend(own, part.as_slice());
        proof {
            assert(out@ =~= prev.update(block as int, out@[block as int]));
            assert(part@ == done@[t as int]@);
            assert forall|b: int| 0 <= b < blocks implies (#[trigger] out@[b])@ == gathered(
                tasks@,
                done@,
                t + 1,
                b,
            ) by {
                assert(prev[b]@ == gathered(tasks@, done@, t as int, b));
            }
        }
        t += 1;
    }
    out
}

/// Append a run of results.
fn extend(own: &mut Vec<(u32, Double)>, part: &[(u32, Double)])
    ensures
        final(own)@ == old(own)@ + part@,
{
    let ghost start = own@;
    let mut i: usize = 0;
    while i < part.len()
        invariant
            i <= part@.len(),
            start == old(own)@,
            own@ == start + part@.take(i as int),
        decreases part@.len() - i,
    {
        own.push(part[i]);
        proof {
            assert(start + part@.take(i + 1) =~= (start + part@.take(i as int)).push(
                part@[i as int],
            ));
        }
        i += 1;
    }
    proof {
        assert(part@.take(part@.len() as int) =~= part@);
        if part@.len() == 0 {
            assert(start + part@ =~= start);
        }
    }
}

proof fn lemma_gathered(
    tasks: Seq<Task>,
    done: Seq<Vec<(u32, Double)>>,
    frames: Seq<Vec<usize>>,
    scan: spec_fn(int, usize) -> (u32, Double),
    n: int,
    b: int,
)
    requires
        0 <= n <= tasks.len(),
        0 <= b < frames.len(),
        done.len() == tasks.len(),
        divides(tasks, lens_of(frames)),
        forall|t: int|
            0 <= t < tasks.len() ==> scanned_part(frames, scan, #[trigger] tasks[t], done[t]@),
    ensures
        gathered(tasks, done, n, b).len() == covered(tasks, n, b),
        forall|i: int|
            0 <= i < covered(tasks, n, b) ==> #[trigger] gathered(tasks, done, n, b)[i] == scan(
                b,
                frames[b]@[i],
            ),
    decreases n,
{
    if n > 0 {
        lemma_gathered(tasks, done, frames, scan, n - 1, b);
        let t = tasks[n - 1];
        assert(scanned_part(frames, scan, t, done[n - 1]@));
        assert(t.from == covered(tasks, n - 1, t.block as int));
        if t.block == b {
            let g = gathered(tasks, done, n, b);
            let h = gathered(tasks, done, n - 1, b);
            assert forall|i: int| 0 <= i < covered(tasks, n, b) implies #[trigger] g[i] == scan(
                b,
                frames[b]@[i],
            ) by {
                if i >= h.len() {
                    assert(g[i] == done[n - 1]@[i - h.len()]);
                } else {
                    assert(g[i] == h[i]);
                }
            }
        }
    }
}

/// A task's results are those of its frames, one by one.
pub open spec fn scanned_part(
    frames: Seq<Vec<usize>>,
    scan: spec_fn(int, usize) -> (u32, Double),
    t: Task,
    part: Seq<(u32, Double)>,
) -> bool {
    &&& part.len() == t.to - t.from
    &&& forall|j: int|
        0 <= j < part.len() ==> #[trigger] part[j] == scan(
            t.block as int,
            frames[t.block as int]@[t.from + j],
        )
}

/// A refresh divided among any number of threads computes exactly what one correlator computes frame
/// by frame.
pub proof fn law_divided_refresh_is_frame_by_frame(
    tasks: Seq<Task>,
    done: Seq<Vec<(u32, Double)>>,
    frames: Seq<Vec<usize>>,
    scan: spec_fn(int, usize) -> (u32, Double),
    b: int,
)
    requires
        0 <= b < frames.len(),
        done.len() == tasks.len(),
        divides(tasks, lens_of(frames)),
        forall|t: int|
            0 <= t < tasks.len() ==> scanned_part(frames, scan, #[trigger] tasks[t], done[t]@),
    ensures
        gathered(tasks, done, tasks.len() as int, b) == frames[b]@.map_values(
            |n: usize| scan(b, n),
        ),
{
    lemma_gathered(tasks, done, frames, scan, tasks.len() as int, b);
    assert(covered(tasks, tasks.len() as int, b) == lens_of(frames)[b]);
    assert(gathered(tasks, done, tasks.len() as int, b) =~= frames[b]@.map_values(
        |n: usize| scan(b, n),
    ));
}

/// Any listed frame of any block can be scanned.
pub open spec fn scans<F: Fn(usize, usize) -> (u32, Double)>(scan: &F, frames: Seq<Vec<usize>>) -> bool {
    forall|b: int, i: int|
        0 <= b < frames.len() && 0 <= i < frames[b]@.len() ==> call_requires(
            *scan,
            (b as usize, #[trigger] frames[b]@[i]),
        )
}

/// What scanning a frame of block `b` may come to.
pub open spec fn found<F: Fn(usize, usize) -> (u32, Double)>(
    scan: &F,
    b: int,
    frame: usize,
    out: (u32, Double),
) -> bool {
    call_ensures(*scan, (b as usize, frame), out)
}

/// A part's results are found at its task's frames, one by one.
pub open spec fn found_part<F: Fn(usize, usize) -> (u32, Double)>(
    scan: &F,
    frames: Seq<Vec<usize>>,
    t: Task,
    part: Seq<(u32, Double)>,
) -> bool {
    &&& part.len() == t.to - t.from
    &&& forall|j: int|
        0 <= j < part.len() ==> found(
            scan,
            t.block as int,
            frames[t.block as int]@[t.from + j],
            #[trigger] part[j],
        )
}

proof fn lemma_found<F: Fn(usize, usize) -> (u32, Double)>(
    scan: &F,
    tasks: Seq<Task>,
    done: Seq<Vec<(u32, Double)>>,
    frames: Seq<Vec<usize>>,
    n: int,
    b: int,
)
    requires
        0 <= n <= tasks.len(),
        0 <= b < frames.len(),
        done.len() == tasks.len(),
        divides(tasks, lens_of(frames)),
        forall|t: int|
            0 <= t < tasks.len() ==> found_part(scan, frames, #[trigger] tasks[t], done[t]@),
    ensures
        gathered(tasks, done, n, b).len() == covered(tasks, n, b),
        forall|i: int|
            0 <= i < covered(tasks, n, b) ==> found(
                scan,
                b,
                frames[b]@[i],
                #[trigger] gathered(tasks, done, n, b)[i],
            ),
    decreases n,
{
    if n > 0 {
        lemma_found(scan, tasks, done, frames, n - 1, b);
        let t = tasks[n - 1];
        assert(found_part(scan, frames, t, done[n - 1]@));
        assert(t.from == covered(tasks, n - 1, t.block as int));
        if t.block == b {
            let g = gathered(tasks, done, n, b);
            let h = gathered(tasks, done, n - 1, b);
            assert forall|i: int| 0 <= i < covered(tasks, n, b) implies found(
                scan,
                b,
                frames[b]@[i],
                #[trigger] g[i],
            ) by {
                if i >= h.len() {
                    assert(g[i] == done[n - 1]@[i - h.len()]);
                } else {
                    assert(g[i] == h[i]);
                }
            }
        }
    }
}

/// Run one task.
fn run_task<F: Fn(usize, usize) -> (u32, Double)>(scan: &F, frames: &[Vec<usize>], t: Task) -> (r: Vec<
    (u32, Double),
>)
    requires
        t.block < frames@.len(),
        t.from <= t.to <= frames@[t.block as int]@.len(),
        scans(scan, frames@),
    ensures
        found_part(scan, frames@, t, r@),
{
    let list = &frames[t.block];
    let mut out: Vec<(u32, Double)> = Vec::new();
    let mut i: usize = t.from;
    while i < t.to
        invariant
            t.block < frames@.len(),
            list@ == frames@[t.block as int]@,
            t.from <= i <= t.to <= list@.len(),
            scans(scan, frames@),
            out@.len() == i - t.from,
            forall|j: int|
                0 <= j < out@.len() ==> found(
                    scan,
                    t.block as int,
                    list@[t.from + j],
                    #[trigger] out@[j],
                ),
        decreases t.to - i,
    {
        let got = scan(t.block, list[i]);
        out.push(got);
        i += 1;
    }
    out
}

/// Scan the pending frames of every block, across the pool.
///
/// `scan` scores one frame of a block. However many threads there are, what comes back is what
/// scanning frame by frame gives.
pub fn refresh_frames<F: Fn(usize, usize) -> (u32, Double) + Sync + Send>(
    frames: &[Vec<usize>],
    fft_len: &[usize],
    scan: &F,
) -> (r: Vec<Vec<(u32, Double)>>)
    requires
        fft_len@.len() == frames@.len(),
        forall|b: int| 0 <= b < fft_len@.len() ==> #[trigger] fft_len@[b] >= 1,
        scans(scan, frames@),
    ensures
        r@.len() == frames@.len(),
        forall|b: int| 0 <= b < r@.len() ==> (#[trigger] r@[b])@.len() == frames@[b]@.len(),
        forall|b: int, i: int|
            0 <= b < r@.len() && 0 <= i < r@[b]@.len() ==> found(
                scan,
                b,
                frames@[b]@[i],
                #[trigger] r@[b]@[i],
            ),
{
    let tasks = plan_refresh(frames, fft_len, pool_size());
    let list: &[Task] = tasks.as_slice();
    let run = |t: usize| -> (part: Vec<(u32, Double)>)
        requires
            t < list@.len(),
            divides(list@, lens_of(frames@)),
            scans(scan, frames@),
        ensures
            found_part(scan, frames@, list@[t as int], part@),
        {
            assert(list@[t as int].block < lens_of(frames@).len());
            run_task(scan, frames, list[t])
        };
    let done = spread(list.len(), run);
    proof {
        assert forall|t: int| 0 <= t < tasks@.len() implies found_part(
            scan,
            frames@,
            #[trigger] tasks@[t],
            done@[t]@,
        ) by {
            assert(call_ensures(run, (t as usize,), done@[t]));
        }
        assert forall|t: int| 0 <= t < tasks@.len() implies (#[trigger] tasks@[t]).block
            < frames@.len() by {
            assert(tasks@[t].block < lens_of(frames@).len());
        }
    }
    let ghost parts = done@;
    let r = gather_refresh(list, done, frames.len());
    proof {
        assert forall|b: int| 0 <= b < r@.len() implies (#[trigger] r@[b])@.len()
            == frames@[b]@.len() && forall|i: int|
            0 <= i < r@[b]@.len() ==> found(scan, b, frames@[b]@[i], #[trigger] r@[b]@[i]) by {
            lemma_found(scan, tasks@, parts, frames@, tasks@.len() as int, b);
            assert(covered(tasks@, tasks@.len() as int, b) == lens_of(frames@)[b]);
        }
    }
    r
}

/// What scanning frame `n` of a block over a residual comes to: the best bin of its transform.
pub open spec fn frame_scanned<R: Reals, T: Fn(Vec<Single>) -> Vec<Bin>>(
    r: &R,
    block: Block,
    residual: Seq<Single>,
    transform: &T,
    n: usize,
    out: (u32, Double),
) -> bool {
    exists|spectrum: Seq<Bin>, k: usize, p: Projection|
        {
            &&& #[trigger] transformed(
                *transform,
                windowed(
                    r,
                    residual,
                    block.env.samples@,
                    n * block.hop,
                    block.fft_len as int,
                ),
                spectrum,
            )
            &&& #[trigger] is_best_bin(r, block, spectrum, (k, p))
            &&& out == (k as u32, p.energy)
        }
}

/// A transform is one of real signals.
pub open spec fn transforms<T: Fn(Vec<Single>) -> Vec<Bin>>(transform: &T) -> bool {
    real_transform(*transform)
}

/// A block whose frames can be scanned.
pub open spec fn scannable(block: Block) -> bool {
    &&& block.wf()
    &&& block.support() <= block.fft_len
}

/// Scan one frame of a block over a residual.
pub fn scan_frame<R: Reals, T: Fn(Vec<Single>) -> Vec<Bin>>(
    r: &R,
    block: &Block,
    residual: &[Single],
    transform: &T,
    n: usize,
) -> (answer: (u32, Double))
    requires
        r.repeatable(),
        real_transform(*transform),
        scannable(*block),
        n * block.hop <= usize::MAX,
    ensures
        frame_scanned(r, *block, residual@, transform, n, answer),
{
    let onset: usize = block.frame_onset(n);
    let input = window(r, residual, block.env.samples.as_slice(), onset, block.fft_len);
    let spectrum = transform(input);
    let (k, p) = best_bin_of(r, block, spectrum.as_slice());
    let bin: u32 = #[verifier::truncate] (k as u32);
    let answer = (bin, p.energy);
    proof {
        assert(transformed(
            *transform,
            windowed(r, residual@, block.env.samples@, onset as int, block.fft_len as int),
            spectrum@,
        ));
        assert(is_best_bin(r, *block, spectrum@, (k, p)));
    }
    answer
}

/// Scan the pending frames of every block over a residual, across the pool.
pub fn refresh_residual<R: Reals + Sync, T: Fn(Vec<Single>) -> Vec<Bin> + Sync>(
    r: &R,
    blocks: &[Block],
    residual: &[Single],
    frames: &[Vec<usize>],
    transform: &T,
) -> (answer: Vec<Vec<(u32, Double)>>)
    requires
        r.repeatable(),
        real_transform(*transform),
        frames@.len() == blocks@.len(),
        forall|b: int| 0 <= b < blocks@.len() ==> scannable(#[trigger] blocks@[b]),
        forall|b: int, i: int|
            0 <= b < blocks@.len() && 0 <= i < frames@[b]@.len() ==> #[trigger] frames@[b]@[i]
                * blocks@[b].hop <= usize::MAX,
    ensures
        answer@.len() == frames@.len(),
        forall|b: int| 0 <= b < answer@.len() ==> (#[trigger] answer@[b])@.len() == frames@[b]@.len(),
        forall|b: int, i: int|
            0 <= b < answer@.len() && 0 <= i < answer@[b]@.len() ==> frame_scanned(
                r,
                blocks@[b],
                residual@,
                transform,
                frames@[b]@[i],
                #[trigger] answer@[b]@[i],
            ),
{
    let mut fft_len: Vec<usize> = Vec::new();
    let mut b: usize = 0;
    while b < blocks.len()
        invariant
            b <= blocks@.len(),
            fft_len@.len() == b,
            forall|b: int| 0 <= b < blocks@.len() ==> scannable(#[trigger] blocks@[b]),
            forall|i: int| 0 <= i < b ==> #[trigger] fft_len@[i] == blocks@[i].fft_len,
            forall|i: int| 0 <= i < b ==> #[trigger] fft_len@[i] >= 1,
        decreases blocks@.len() - b,
    {
        assert(scannable(blocks@[b as int]));
        fft_len.push(blocks[b].fft_len);
        b += 1;
    }
    let scan = |b: usize, n: usize| -> (out: (u32, Double))
        requires
            r.repeatable(),
            transforms(transform),
            b < blocks@.len(),
            scannable(blocks@[b as int]),
            n * blocks@[b as int].hop <= usize::MAX,
        ensures
            frame_scanned(r, blocks@[b as int], residual@, transform, n, out),
        { scan_frame(r, &blocks[b], residual, transform, n) };
    assert(scans(&scan, frames@)) by {
        assert forall|b: int, i: int| 0 <= b < frames@.len() && 0 <= i < frames@[b]@.len() implies call_requires(
            scan,
            (b as usize, #[trigger] frames@[b]@[i]),
        ) by {
            assert(scannable(blocks@[b]));
            assert(frames@[b]@[i] * blocks@[b].hop <= usize::MAX);
        }
    }
    let answer = refresh_frames(frames, fft_len.as_slice(), &scan);
    proof {
        assert forall|b: int, i: int| 0 <= b < answer@.len() && 0 <= i < answer@[b]@.len() implies frame_scanned(
            r,
            blocks@[b],
            residual@,
            transform,
            frames@[b]@[i],
            #[trigger] answer@[b]@[i],
        ) by {
            assert(found(&scan, b, frames@[b]@[i], answer@[b]@[i]));
        }
    }
    answer
}

/// Every frame number below `n`, in order.
pub open spec fn numbered(n: int) -> Seq<usize> {
    Seq::new(n as nat, |i: int| i as usize)
}

/// Every frame of every block over a residual of `len` samples.
pub fn every_frame(blocks: &[Block], len: usize) -> (answer: Vec<Vec<usize>>)
    requires
        forall|b: int| 0 <= b < blocks@.len() ==> (#[trigger] blocks@[b]).hop >= 1,
    ensures
        answer@.len() == blocks@.len(),
        forall|b: int|
            0 <= b < blocks@.len() ==> (#[trigger] answer@[b])@ == numbered(
                frames(blocks@[b].hop as int, len as int),
            ),
{
    let mut out: Vec<Vec<usize>> = Vec::new();
    let mut b: usize = 0;
    while b < blocks.len()
        invariant
            b <= blocks@.len(),
            forall|b: int| 0 <= b < blocks@.len() ==> (#[trigger] blocks@[b]).hop >= 1,
            out@.len() == b,
            forall|i: int|
                0 <= i < b ==> (#[trigger] out@[i])@ == numbered(
                    frames(blocks@[i].hop as int, len as int),
                ),
        decreases blocks@.len() - b,
    {
        assert(blocks@[b as int].hop >= 1);
        let count: usize = blocks[b].frame_count(len);
        let mut list: Vec<usize> = Vec::new();
        while list.len() < count
            invariant
                list@.len() <= count,
                forall|i: int| 0 <= i < list@.len() ==> #[trigger] list@[i] == i,
            decreases count - list@.len(),
        {
            let n: usize = list.len();
            list.push(n);
        }
        assert(list@ =~= numbered(frames(blocks@[b as int].hop as int, len as int)));
        out.push(list);
        b += 1;
    }
    out
}

} // verus!
