//! The worker pool's bookkeeping and the stage that restores submission
//! order from an out-of-order completion stream.
//!
//! The pool is held here as a state machine: which tasks wait in the shared
//! queue, which task an idle worker takes next, and what the receiving end
//! of a batch hands on when a result arrives. Whoever runs the threads asks
//! it what to do and reports what happened.

use std::collections::BTreeMap;
use std::collections::VecDeque;
use vstd::prelude::*;

verus! {

/// The number of workers a pool of the requested size runs: at least one.
pub open spec fn clamped_threads(threads: usize) -> usize {
    if threads < 1 {
        1
    } else {
        threads
    }
}

/// The tasks of a batch, each with its zero-based place in the batch.
pub open spec fn indexed<T>(tasks: Seq<T>) -> Seq<(usize, T)> {
    Seq::new(tasks.len(), |i: int| (i as usize, tasks[i]))
}

/// The first index from `from` on at which `held` holds no result.
pub open spec fn run_end<R>(held: Map<usize, R>, from: int) -> int
    decreases usize::MAX + 1 - from,
{
    if 0 <= from <= usize::MAX && held.contains_key(from as usize) {
        run_end(held, from + 1)
    } else {
        from
    }
}

/// The results that `held` holds at the indices from `from` up to `to`, in
/// the order of their indices.
pub open spec fn released<R>(held: Map<usize, R>, from: int, to: int) -> Seq<R> {
    Seq::new((to - from) as nat, |k: int| held[(from + k) as usize])
}

/// What is left of `held` when the results at the indices from `from` up to
/// `to` have been handed on.
pub open spec fn kept<R>(held: Map<usize, R>, from: int, to: int) -> Map<usize, R> {
    held.remove_keys(Set::new(|k: usize| from <= k < to))
}

/// Everything the ordered receiving end hands on while the completions
/// arrive one after the other, when it starts out expecting index `next`
/// and holding `held`.
pub open spec fn emitted_after<R>(
    next: int,
    held: Map<usize, R>,
    completions: Seq<(usize, R)>,
) -> Seq<R>
    decreases completions.len(),
{
    if completions.len() == 0 {
        Seq::empty()
    } else {
        let with_arrival = held.insert(completions[0].0, completions[0].1);
        let end = run_end(with_arrival, next);
        released(with_arrival, next, end) + emitted_after(
            end,
            kept(with_arrival, next, end),
            completions.drop_first(),
        )
    }
}

/// The index that the ordered receiving end expects once all the
/// completions have arrived.
pub open spec fn next_after<R>(next: int, held: Map<usize, R>, completions: Seq<(usize, R)>) -> int
    decreases completions.len(),
{
    if completions.len() == 0 {
        next
    } else {
        let with_arrival = held.insert(completions[0].0, completions[0].1);
        let end = run_end(with_arrival, next);
        next_after(end, kept(with_arrival, next, end), completions.drop_first())
    }
}

/// What the ordered receiving end still holds once all the completions
/// have arrived.
pub open spec fn held_after<R>(
    next: int,
    held: Map<usize, R>,
    completions: Seq<(usize, R)>,
) -> Map<usize, R>
    decreases completions.len(),
{
    if completions.len() == 0 {
        held
    } else {
        let with_arrival = held.insert(completions[0].0, completions[0].1);
        let end = run_end(with_arrival, next);
        held_after(end, kept(with_arrival, next, end), completions.drop_first())
    }
}

/// From `from` up to `run_end` every index is held, and `run_end` itself is
/// not.
pub proof fn lemma_run_end<R>(held: Map<usize, R>, from: int)
    requires
        0 <= from <= usize::MAX + 1,
    ensures
        from <= run_end(held, from) <= usize::MAX + 1,
        forall|k: usize| from <= k < run_end(held, from) ==> held.contains_key(k),
        run_end(held, from) <= usize::MAX ==> !held.contains_key(run_end(held, from) as usize),
    decreases usize::MAX + 1 - from,
{
    if from <= usize::MAX && held.contains_key(from as usize) {
        lemma_run_end(held, from + 1);
    }
}

/// Whether the result of the task submitted under `i` is among the first
/// `n` arrivals of `arrival`.
pub open spec fn arrived(arrival: Seq<int>, n: int, i: int) -> bool {
    exists|k: int| 0 <= k < n && k < arrival.len() && #[trigger] arrival[k] == i
}

/// Whether `arrival` is an order in which the results of a batch of `n`
/// tasks can come in: it names each of the indices `0..n` exactly once.
pub open spec fn is_arrival_order(arrival: Seq<int>, n: int) -> bool {
    &&& arrival.len() == n
    &&& forall|k: int| 0 <= k < n ==> 0 <= #[trigger] arrival[k] < n
    &&& forall|j: int, k: int| 0 <= j < k < n ==> #[trigger] arrival[j] != #[trigger] arrival[k]
    &&& forall|i: int| 0 <= i < n ==> #[trigger] arrived(arrival, n, i)
}

/// The completion stream of a batch: `results[i]` is what the task
/// submitted under `i` returns, and the task named by `arrival[k]` is the
/// one that finishes at place `k`.
pub open spec fn completions_of<R>(results: Seq<R>, arrival: Seq<int>) -> Seq<(usize, R)> {
    Seq::new(arrival.len(), |k: int| (arrival[k] as usize, results[arrival[k]]))
}

proof fn lemma_restores_order_from<R>(
    results: Seq<R>,
    arrival: Seq<int>,
    n: int,
    next: int,
    held: Map<usize, R>,
)
    requires
        is_arrival_order(arrival, results.len() as int),
        results.len() <= usize::MAX,
        0 <= n <= results.len(),
        0 <= next <= results.len(),
        forall|i: int| 0 <= i < next ==> arrived(arrival, n, i),
        !arrived(arrival, n, next),
        forall|i: usize|
            #[trigger] held.contains_key(i) <==> i >= next && arrived(arrival, n, i as int),
        forall|i: usize| #[trigger] held.contains_key(i) ==> held[i] == results[i as int],
    ensures
        emitted_after(
            next,
            held,
            completions_of(results, arrival).subrange(n, results.len() as int),
        ) == results.subrange(next, results.len() as int),
        next_after(
            next,
            held,
            completions_of(results, arrival).subrange(n, results.len() as int),
        ) == results.len(),
        held_after(
            next,
            held,
            completions_of(results, arrival).subrange(n, results.len() as int),
        ) == Map::<usize, R>::empty(),
    decreases results.len() - n,
{
    let total = results.len() as int;
    let rest = completions_of(results, arrival).subrange(n, total);
    if n == total {
        if next < total {
            assert(arrived(arrival, total, next));
        }
        assert(results.subrange(next, total) =~= Seq::<R>::empty());
        assert forall|i: usize| !held.contains_key(i) by {
            if held.contains_key(i) {
                let k = choose|k: int| 0 <= k < n && k < arrival.len() && arrival[k] == i as int;
                assert(0 <= arrival[k] < total);
            }
        }
        assert(held =~= Map::<usize, R>::empty());
    } else {
        let idx = arrival[n];
        let n1 = n + 1;
        assert(rest[0] == (idx as usize, results[idx]));
        assert(rest.drop_first() =~= completions_of(results, arrival).subrange(n + 1, total));
        let with_arrival = held.insert(idx as usize, results[idx]);
        let end = run_end(with_arrival, next);
        lemma_run_end(with_arrival, next);
        let left = kept(with_arrival, next, end);
        assert(idx >= next) by {
            if idx < next {
                assert(arrived(arrival, n, idx));
                let k = choose|k: int| 0 <= k < n && k < arrival.len() && arrival[k] == idx;
                assert(arrival[k] != arrival[n]);
            }
        }
        assert forall|i: usize| #[trigger] with_arrival.contains_key(i) implies i >= next
            && arrived(arrival, n1, i as int) && with_arrival[i] == results[i as int] by {
            if i as int == idx {
                assert(arrival[n] == i as int);
            } else {
                let k = choose|k: int| 0 <= k < n && k < arrival.len() && arrival[k] == i as int;
                assert(arrival[k] == i as int);
            }
        }
        assert(end <= total) by {
            if end > total {
                assert(with_arrival.contains_key(total as usize));
                let k = choose|k: int|
                    0 <= k < n1 && k < arrival.len() && arrival[k] == total;
                assert(0 <= arrival[k] < total);
            }
        }
        assert forall|i: int| 0 <= i < end implies arrived(arrival, n1, i) by {
            if i < next {
                assert(arrived(arrival, n, i));
                let k = choose|k: int| 0 <= k < n && k < arrival.len() && arrival[k] == i;
                assert(arrival[k] == i);
            } else {
                assert(with_arrival.contains_key(i as usize));
            }
        }
        assert(!arrived(arrival, n1, end)) by {
            if arrived(arrival, n1, end) {
                let k = choose|k: int| 0 <= k < n1 && k < arrival.len() && arrival[k] == end;
                if k < n {
                    assert(arrival[k] == end);
                    assert(arrived(arrival, n, end));
                    assert(held.contains_key(end as usize));
                }
                assert(with_arrival.contains_key(end as usize));
            }
        }
        assert forall|i: usize| #[trigger] left.contains_key(i) <==> i >= end && arrived(arrival, n1,
            i as int,
        ) by {
            if i >= end && arrived(arrival, n1, i as int) {
                let k = choose|k: int|
                    0 <= k < n1 && k < arrival.len() && arrival[k] == i as int;
                if k < n {
                    assert(arrival[k] == i as int);
                    assert(arrived(arrival, n, i as int));
                    assert(held.contains_key(i));
                }
                assert(with_arrival.contains_key(i));
            }
            if left.contains_key(i) {
                assert(with_arrival.contains_key(i));
            }
        }
        assert forall|i: usize| #[trigger] left.contains_key(i) implies left[i] == results[i as int] by {
            assert(with_arrival.contains_key(i));
        }
        lemma_restores_order_from(results, arrival, n1, end, left);
        assert(released(with_arrival, next, end) =~= results.subrange(next, end)) by {
            assert forall|k: int| 0 <= k < end - next implies released(with_arrival, next, end)[k]
                == results[next + k] by {
                assert(with_arrival.contains_key((next + k) as usize));
            }
        }
        assert(results.subrange(next, end) + results.subrange(end, total) =~= results.subrange(
            next,
            total,
        ));
    }
}

/// In whatever order the results of a batch arrive, the ordered receiving
/// end hands them on in exactly the order in which the tasks were
/// submitted, and when the last has arrived it holds nothing back.
pub proof fn lemma_ordered_channel_restores_order<R>(results: Seq<R>, arrival: Seq<int>)
    requires
        is_arrival_order(arrival, results.len() as int),
        results.len() <= usize::MAX,
    ensures
        emitted_after(0, Map::<usize, R>::empty(), completions_of(results, arrival)) == results,
        next_after(0, Map::<usize, R>::empty(), completions_of(results, arrival))
            == results.len(),
        held_after(0, Map::<usize, R>::empty(), completions_of(results, arrival)) == Map::<
            usize,
            R,
        >::empty(),
{
    let total = results.len() as int;
    let completions = completions_of(results, arrival);
    assert(completions.subrange(0, total) =~= completions);
    assert(results.subrange(0, total) =~= results);
    lemma_restores_order_from(results, arrival, 0, 0, Map::<usize, R>::empty());
}

/// Of batches that follow each other on one pool each is restored by its
/// own receiving end, whatever the others bring and in whatever order:
/// `batches[b]` holds the results of batch `b` and the order in which they
/// arrive.
pub proof fn lemma_each_batch_is_restored<R>(batches: Seq<(Seq<R>, Seq<int>)>)
    requires
        forall|b: int|
            0 <= b < batches.len() ==> is_arrival_order(
                (#[trigger] batches[b]).1,
                batches[b].0.len() as int,
            ) && batches[b].0.len() <= usize::MAX,
    ensures
        forall|b: int|
            0 <= b < batches.len() ==> emitted_after(
                0,
                Map::<usize, R>::empty(),
                completions_of((#[trigger] batches[b]).0, batches[b].1),
            ) == batches[b].0,
{
    assert forall|b: int| 0 <= b < batches.len() implies emitted_after(
        0,
        Map::<usize, R>::empty(),
        completions_of((#[trigger] batches[b]).0, batches[b].1),
    ) == batches[b].0 by {
        lemma_ordered_channel_restores_order(batches[b].0, batches[b].1);
    }
}

/// A batch without tasks brings nothing: its ordered receiving end hands
/// nothing on and has nothing more to wait for.
pub proof fn lemma_empty_batch_emits_nothing<R>()
    ensures
        emitted_after(0, Map::<usize, R>::empty(), Seq::<(usize, R)>::empty()) == Seq::<R>::empty(),
        next_after(0, Map::<usize, R>::empty(), Seq::<(usize, R)>::empty()) == 0,
{
}

/// The tasks waiting for a worker, first come first served.
pub struct JobQueue<T> {
    queue: VecDeque<T>,
}

impl<T> JobQueue<T> {
    /// The waiting tasks, the one to be taken next first.
    pub closed spec fn view(&self) -> Seq<T> {
        self.queue@
    }

    /// A queue in which nothing waits.
    pub fn new() -> (r: Self)
        ensures
            r@ == Seq::<T>::empty(),
    {
        JobQueue { queue: VecDeque::new() }
    }

    /// Puts a task at the end of the queue.
    pub fn push(&mut self, job: T)
        ensures
            final(self)@ == old(self)@.push(job),
    {
        self.queue.push_back(job);
    }

    /// Takes the task that has waited longest; `None` where nothing waits
    /// and the worker has to sleep until something is pushed.
    pub fn next_job(&mut self) -> (r: Option<T>)
        ensures
            old(self)@.len() == 0 ==> r is None && final(self)@ == old(self)@,
            old(self)@.len() > 0 ==> r == Some(old(self)@[0]) && final(self)@ == old(self)@.drop_first(),
    {
        self.queue.pop_front()
    }
}

/// The receiving end of a batch whose results are handed on as they come.
pub struct Channel {
    expected: usize,
    received: usize,
}

impl Channel {
    /// How many results the batch will bring.
    pub closed spec fn expected(&self) -> usize {
        self.expected
    }

    /// How many results have come so far, counted up to `usize::MAX`.
    pub closed spec fn received(&self) -> usize {
        self.received
    }

    /// Takes the result of one finished task and hands it on as it is,
    /// without the index it was submitted under.
    pub fn accept<R>(&mut self, completion: (usize, R)) -> (r: R)
        ensures
            r == completion.1,
            final(self).expected() == old(self).expected(),
            final(self).received() == if old(self).received() < usize::MAX {
                old(self).received() + 1
            } else {
                usize::MAX as int
            },
    {
        if self.received < usize::MAX {
            self.received = self.received + 1;
        }
        completion.1
    }

    /// Whether every result of the batch has come: nothing more will.
    pub fn is_closed(&self) -> (r: bool)
        ensures
            r == (self.received() >= self.expected()),
    {
        self.received >= self.expected
    }
}

/// The receiving end of a batch whose results are handed on in the order
/// in which the tasks were submitted, whatever the order they finish in.
pub struct OrderedChannel<R> {
    expected: usize,
    next_expected: u128,
    buffer: BTreeMap<usize, R>,
}

impl<R> OrderedChannel<R> {
    /// How many results the batch will bring.
    pub closed spec fn expected(&self) -> usize {
        self.expected
    }

    /// The submission index of the result to be handed on next.
    pub closed spec fn next(&self) -> int {
        self.next_expected as int
    }

    /// The results that came early and wait for their turn.
    pub closed spec fn held(&self) -> Map<usize, R> {
        self.buffer@
    }

    /// Takes the result of the task submitted under `idx` and hands on, in
    /// submission order, every result whose turn has come with it.
    pub fn accept(&mut self, idx: usize, result: R) -> (out: Vec<R>)
        ensures
            final(self).expected() == old(self).expected(),
            final(self).next() == run_end(old(self).held().insert(idx, result), old(self).next()),
            out@ == released(
                old(self).held().insert(idx, result),
                old(self).next(),
                final(self).next(),
            ),
            final(self).held() == kept(
                old(self).held().insert(idx, result),
                old(self).next(),
                final(self).next(),
            ),
    {
        let ghost start = self.next_expected as int;
        self.buffer.insert(idx, result);
        let ghost with_arrival = self.buffer@;
        let mut out: Vec<R> = Vec::new();
        let mut next: u128 = self.next_expected;
        proof {
            assert(kept(with_arrival, start, start) =~= with_arrival);
        }
        loop
            invariant
                start <= next,
                run_end(with_arrival, next as int) == run_end(with_arrival, start),
                out@ == released(with_arrival, start, next as int),
                self.buffer@ == kept(with_arrival, start, next as int),
                self.expected == old(self).expected,
            ensures
                next == run_end(with_arrival, start),
                out@ == released(with_arrival, start, next as int),
                self.buffer@ == kept(with_arrival, start, next as int),
                self.expected == old(self).expected,
            decreases usize::MAX + 1 - next,
        {
            if next > usize::MAX as u128 {
                break ;
            }
            let key: usize = next as usize;
            match self.buffer.remove(&key) {
                Some(result) => {
                    proof {
                        assert(with_arrival.contains_key(key));
                        assert(result == with_arrival[key]);
                        assert(released(with_arrival, start, next + 1) =~= released(
                            with_arrival,
                            start,
                            next as int,
                        ).push(result));
                        assert(kept(with_arrival, start, next + 1) =~= kept(
                            with_arrival,
                            start,
                            next as int,
                        ).remove(key));
                    }
                    out.push(result);
                    next = next + 1;
                },
                None => {
                    proof {
                        assert(!with_arrival.contains_key(key));
                    }
                    break ;
                },
            }
        }
        self.next_expected = next;
        out
    }

    /// Takes a whole stream of completions, in the order in which they
    /// arrive, and returns everything that is handed on meanwhile.
    pub fn drain(&mut self, completions: Vec<(usize, R)>) -> (out: Vec<R>)
        ensures
            final(self).expected() == old(self).expected(),
            out@ == emitted_after(old(self).next(), old(self).held(), completions@),
            final(self).next() == next_after(old(self).next(), old(self).held(), completions@),
            final(self).held() == held_after(old(self).next(), old(self).held(), completions@),
    {
        let ghost all = completions@;
        let ghost first_next = self.next();
        let ghost first_held = self.held();
        let mut out: Vec<R> = Vec::new();
        proof {
            assert(all.subrange(0, all.len() as int) =~= all);
            assert(Seq::<R>::empty() + emitted_after(first_next, first_held, all)
                =~= emitted_after(first_next, first_held, all));
        }
        for completion in it: completions
            invariant
                it.seq() == all,
                self.expected() == old(self).expected(),
                emitted_after(first_next, first_held, all) == out@ + emitted_after(
                    self.next(),
                    self.held(),
                    all.subrange(it.index() as int, all.len() as int),
                ),
                next_after(first_next, first_held, all) == next_after(
                    self.next(),
                    self.held(),
                    all.subrange(it.index() as int, all.len() as int),
                ),
                held_after(first_next, first_held, all) == held_after(
                    self.next(),
                    self.held(),
                    all.subrange(it.index() as int, all.len() as int),
                ),
        {
            let ghost rest = all.subrange(it.index() as int, all.len() as int);
            let ghost before = out@;
            proof {
                assert(rest[0] == completion);
                assert(rest.drop_first() =~= all.subrange(it.index() + 1, all.len() as int));
            }
            let (idx, result) = completion;
            let mut batch = self.accept(idx, result);
            out.append(&mut batch);
            proof {
                let tail = emitted_after(self.next(), self.held(), rest.drop_first());
                assert(before + (batch@ + tail) =~= (before + batch@) + tail);
            }
        }
        proof {
            assert(all.subrange(all.len() as int, all.len() as int) =~= Seq::<(usize, R)>::empty());
        }
        out
    }

    /// Whether every result of the batch has been handed on: nothing more
    /// will come.
    pub fn is_closed(&self) -> (r: bool)
        ensures
            r == (self.next() >= self.expected()),
    {
        self.next_expected >= self.expected as u128
    }
}

/// A pool of workers that take tasks from one shared queue, first come
/// first served. Each task waits together with the zero-based place it has
/// in its batch.
pub struct WorkerPool<T> {
    threads: usize,
    jobs: JobQueue<(usize, T)>,
}

impl<T> WorkerPool<T> {
    /// The number of workers.
    pub closed spec fn thread_count(&self) -> usize {
        self.threads
    }

    /// The tasks that wait for a worker, the one to be taken next first.
    pub closed spec fn waiting(&self) -> Seq<(usize, T)> {
        self.jobs@
    }

    /// A pool of `threads` workers, of one worker where none is asked for,
    /// with nothing to do yet.
    pub fn new(threads: usize) -> (r: Self)
        ensures
            r.thread_count() == clamped_threads(threads),
            r.waiting() == Seq::<(usize, T)>::empty(),
    {
        let threads = if threads < 1 {
            1
        } else {
            threads
        };
        WorkerPool { threads, jobs: JobQueue::new() }
    }

    /// The number of workers.
    pub fn threads(&self) -> (r: usize)
        ensures
            r == self.thread_count(),
    {
        self.threads
    }

    /// Puts one task, with its place in its batch, at the end of the queue.
    pub fn enqueue_job(&mut self, idx: usize, task: T)
        ensures
            final(self).thread_count() == old(self).thread_count(),
            final(self).waiting() == old(self).waiting().push((idx, task)),
    {
        self.jobs.push((idx, task));
    }

    /// What an idle worker does next: the task that has waited longest, with
    /// its place in its batch, or `None` where the worker has to sleep until
    /// a task is submitted.
    pub fn next_job(&mut self) -> (r: Option<(usize, T)>)
        ensures
            final(self).thread_count() == old(self).thread_count(),
            old(self).waiting().len() == 0 ==> r is None && final(self).waiting() == old(self).waiting(),
            old(self).waiting().len() > 0 ==> r == Some(old(self).waiting()[0]) && final(self).waiting() == old(self).waiting().drop_first(),
    {
        self.jobs.next_job()
    }

    /// Submits a batch: every task is put at the end of the queue with its
    /// zero-based place in the batch. Returns how many there were.
    pub fn run_indexed_channel(&mut self, tasks: Vec<T>) -> (count: usize)
        ensures
            count == tasks@.len(),
            final(self).thread_count() == old(self).thread_count(),
            final(self).waiting() == old(self).waiting() + indexed(tasks@),
    {
        let ghost all = tasks@;
        let ghost before = self.waiting();
        let mut count: usize = 0;
        proof {
            assert(all.len() == tasks.len());
        }
        for task in it: tasks
            invariant
                it.seq() == all,
                all.len() <= usize::MAX,
                count == it.index(),
                self.thread_count() == old(self).thread_count(),
                self.waiting() == before + indexed(all.subrange(0, it.index() as int)),
        {
            proof {
                assert(indexed(all.subrange(0, count + 1)) =~= indexed(
                    all.subrange(0, count as int),
                ).push((count, task)));
            }
            self.enqueue_job(count, task);
            count = count + 1;
        }
        proof {
            assert(all.subrange(0, all.len() as int) =~= all);
        }
        count
    }

    /// Submits a batch whose results are wanted as they come. Returns the
    /// receiving end of the batch.
    pub fn run_channel(&mut self, tasks: Vec<T>) -> (r: Channel)
        ensures
            final(self).thread_count() == old(self).thread_count(),
            final(self).waiting() == old(self).waiting() + indexed(tasks@),
            r.expected() == tasks@.len(),
            r.received() == 0,
    {
        let expected = self.run_indexed_channel(tasks);
        Channel { expected, received: 0 }
    }

    /// Submits a batch whose results are wanted in the order of submission.
    /// Returns the receiving end of the batch, which waits for the result
    /// of the first task and holds nothing yet.
    pub fn run_ordered_channel<R>(&mut self, tasks: Vec<T>) -> (r: OrderedChannel<R>)
        ensures
            final(self).thread_count() == old(self).thread_count(),
            final(self).waiting() == old(self).waiting() + indexed(tasks@),
            r.expected() == tasks@.len(),
            r.next() == 0,
            r.held() == Map::<usize, R>::empty(),
    {
        let expected = self.run_indexed_channel(tasks);
        OrderedChannel { expected, next_expected: 0, buffer: BTreeMap::new() }
    }
}

} // verus!
