//! The pooled fan-out strategy: a verified model of `n` workers, each owning
//! one connection and a bounded FIFO queue of pending commands.
//!
//! The async runtime around the real sockets drives this model: a submission
//! pushes onto a randomly chosen worker's queue (refused while full: the
//! caller suspends and retries, which is the backpressure), and each worker
//! step takes the front command and records it as sent on that worker's
//! connection, or as failed when the underlying send failed. A failure never
//! stops the worker.
use vstd::prelude::*;
use vstd::multiset::Multiset;

use crate::codec::Cmd;

verus! {

broadcast use {vstd::multiset::group_multiset_axioms, vstd::seq_lib::group_to_multiset_ensures};

/// The model of one worker: its pending queue (front first), and the log of
/// commands sent, and of commands whose send failed, on its connection.
#[verifier::ext_equal]
pub struct WorkerModel {
    pub queue: Seq<Cmd>,
    pub sent: Seq<Cmd>,
    pub failed: Seq<Cmd>,
}

impl WorkerModel {
    /// A worker with nothing pending and nothing delivered.
    pub open spec fn empty() -> WorkerModel {
        WorkerModel { queue: Seq::empty(), sent: Seq::empty(), failed: Seq::empty() }
    }

    /// Every command this worker holds or has handled, each counted once.
    pub open spec fn accounted(self) -> Multiset<Cmd> {
        self.queue.to_multiset().add(self.sent.to_multiset()).add(self.failed.to_multiset())
    }

    /// Every command this worker has taken off its queue, sent or failed.
    pub open spec fn delivered(self) -> Multiset<Cmd> {
        self.sent.to_multiset().add(self.failed.to_multiset())
    }
}

/// Every command the workers hold or have handled, each counted once.
pub open spec fn accounted_all(ws: Seq<WorkerModel>) -> Multiset<Cmd>
    decreases ws.len(),
{
    if ws.len() == 0 {
        Multiset::empty()
    } else {
        ws[0].accounted().add(accounted_all(ws.drop_first()))
    }
}

/// Every command the workers have sent or failed, each counted once.
pub open spec fn delivered_all(ws: Seq<WorkerModel>) -> Multiset<Cmd>
    decreases ws.len(),
{
    if ws.len() == 0 {
        Multiset::empty()
    } else {
        ws[0].delivered().add(delivered_all(ws.drop_first()))
    }
}

/// How many commands are pending over all queues.
pub open spec fn pending_total(ws: Seq<WorkerModel>) -> int
    decreases ws.len(),
{
    if ws.len() == 0 {
        0
    } else {
        ws[0].queue.len() + pending_total(ws.drop_first())
    }
}

/// The model of the whole pool: the workers, the shared queue capacity, and
/// the multiset of every command ever submitted.
#[verifier::ext_equal]
pub struct PoolModel {
    pub workers: Seq<WorkerModel>,
    pub capacity: int,
    pub submitted: Multiset<Cmd>,
}

impl PoolModel {
    /// Well-formed: at least one worker, a positive capacity, no queue over
    /// capacity, and the submitted commands exactly accounted for.
    pub open spec fn wf(self) -> bool {
        &&& self.workers.len() >= 1
        &&& self.capacity >= 1
        &&& (forall|i: int|
            0 <= i < self.workers.len() ==> (#[trigger] self.workers[i]).queue.len()
                <= self.capacity)
        &&& self.submitted == accounted_all(self.workers)
    }

    /// Whether worker `w`'s queue has room for one more command.
    pub open spec fn can_accept(self, w: int) -> bool {
        self.workers[w].queue.len() < self.capacity
    }

    /// The pool after `cmd` is accepted onto worker `w`'s queue.
    pub open spec fn enqueue(self, w: int, cmd: Cmd) -> PoolModel {
        let wk = self.workers[w];
        PoolModel {
            workers: self.workers.update(
                w,
                WorkerModel { queue: wk.queue.push(cmd), sent: wk.sent, failed: wk.failed },
            ),
            capacity: self.capacity,
            submitted: self.submitted.insert(cmd),
        }
    }

    /// The pool after worker `w` takes its front command and sends it; the
    /// command lands in the worker's sent log, or in its failed log when the
    /// send failed. An empty queue changes nothing.
    pub open spec fn step(self, w: int, ok: bool) -> PoolModel {
        let wk = self.workers[w];
        if wk.queue.len() == 0 {
            self
        } else {
            let cmd = wk.queue[0];
            let wk2 = if ok {
                WorkerModel { queue: wk.queue.drop_first(), sent: wk.sent.push(cmd), failed: wk.failed }
            } else {
                WorkerModel { queue: wk.queue.drop_first(), sent: wk.sent, failed: wk.failed.push(cmd) }
            };
            PoolModel {
                workers: self.workers.update(w, wk2),
                capacity: self.capacity,
                submitted: self.submitted,
            }
        }
    }
}

/// Replacing one worker changes the account by exactly that worker's share.
proof fn lemma_accounted_update(ws: Seq<WorkerModel>, i: int, wk: WorkerModel)
    requires
        0 <= i < ws.len(),
    ensures
        accounted_all(ws.update(i, wk)).add(ws[i].accounted()) =~= accounted_all(ws).add(
            wk.accounted(),
        ),
    decreases ws.len(),
{
    let ws2 = ws.update(i, wk);
    assert(accounted_all(ws2) == ws2[0].accounted().add(accounted_all(ws2.drop_first())));
    assert(accounted_all(ws) == ws[0].accounted().add(accounted_all(ws.drop_first())));
    if i == 0 {
        assert(ws2.drop_first() =~= ws.drop_first());
        assert(ws2[0] == wk);
        assert forall|x: Cmd|
            accounted_all(ws2).add(ws[0].accounted()).count(x) == accounted_all(ws).add(
                wk.accounted(),
            ).count(x) by {}
    } else {
        assert(ws2[0] == ws[0]);
        assert(ws2.drop_first() =~= ws.drop_first().update(i - 1, wk));
        assert(ws.drop_first()[i - 1] == ws[i]);
        lemma_accounted_update(ws.drop_first(), i - 1, wk);
        assert(accounted_all(ws.drop_first().update(i - 1, wk)).add(ws[i].accounted())
            =~= accounted_all(ws.drop_first()).add(wk.accounted()));
        assert forall|x: Cmd|
            accounted_all(ws2).add(ws[i].accounted()).count(x) == accounted_all(ws).add(
                wk.accounted(),
            ).count(x) by {
            assert(accounted_all(ws.drop_first().update(i - 1, wk)).add(
                ws[i].accounted(),
            ).count(x) == accounted_all(ws.drop_first()).add(wk.accounted()).count(x));
        }
    }
    assert(accounted_all(ws2).add(ws[i].accounted()) =~= accounted_all(ws).add(wk.accounted()));
}

/// A pool of empty workers accounts for nothing.
proof fn lemma_accounted_all_empty(ws: Seq<WorkerModel>)
    requires
        forall|i: int| 0 <= i < ws.len() ==> ws[i] == WorkerModel::empty(),
    ensures
        accounted_all(ws) =~= Multiset::empty(),
    decreases ws.len(),
{
    if ws.len() > 0 {
        assert(ws[0].queue.to_multiset().len() == 0);
        assert(ws[0].sent.to_multiset().len() == 0);
        assert(ws[0].failed.to_multiset().len() == 0);
        lemma_accounted_all_empty(ws.drop_first());
    }
}

/// Accepting a command onto a worker with room keeps the pool well-formed;
/// the submitted multiset grows by exactly that command.
pub proof fn lemma_enqueue_wf(m: PoolModel, w: int, cmd: Cmd)
    requires
        m.wf(),
        0 <= w < m.workers.len(),
        m.can_accept(w),
    ensures
        m.enqueue(w, cmd).wf(),
        m.enqueue(w, cmd).workers.len() == m.workers.len(),
        m.enqueue(w, cmd).submitted =~= m.submitted.insert(cmd),
{
    let m2 = m.enqueue(w, cmd);
    let wk = m.workers[w];
    let wk2 = m2.workers[w];
    assert(wk2.accounted() =~= wk.accounted().insert(cmd));
    lemma_accounted_update(m.workers, w, wk2);
    let a = accounted_all(m2.workers);
    let b = accounted_all(m.workers);
    assert(a.add(wk.accounted()) =~= b.add(wk2.accounted()));
    assert forall|x: Cmd| a.count(x) == b.insert(cmd).count(x) by {
        assert(a.add(wk.accounted()).count(x) == b.add(wk2.accounted()).count(x));
    }
    assert(a =~= b.insert(cmd));
}

/// A worker step keeps the pool well-formed; nothing enters or leaves the
/// account: the front command only moves from pending to sent or failed.
pub proof fn lemma_step_wf(m: PoolModel, w: int, ok: bool)
    requires
        m.wf(),
        0 <= w < m.workers.len(),
    ensures
        m.step(w, ok).wf(),
        m.step(w, ok).workers.len() == m.workers.len(),
        m.step(w, ok).submitted == m.submitted,
{
    let wk = m.workers[w];
    if wk.queue.len() > 0 {
        let m2 = m.step(w, ok);
        let wk2 = m2.workers[w];
        let cmd = wk.queue[0];
        assert(wk.queue.drop_first() =~= wk.queue.remove(0));
        assert(wk.queue.remove(0).to_multiset() =~= wk.queue.to_multiset().remove(cmd));
        assert(wk.queue.contains(cmd));
        assert(wk.queue.to_multiset().count(cmd) > 0);
        assert(wk2.accounted() =~= wk.accounted());
        lemma_accounted_update(m.workers, w, wk2);
        let a = accounted_all(m2.workers);
        let b = accounted_all(m.workers);
        assert(a.add(wk.accounted()) =~= b.add(wk2.accounted()));
        assert forall|x: Cmd| a.count(x) == b.count(x) by {
            assert(a.add(wk.accounted()).count(x) == b.add(wk2.accounted()).count(x));
        }
        assert(a =~= b);
    }
}

/// Law: in a well-formed pool, no command is lost or duplicated: the commands
/// ever submitted are exactly the pending, sent and failed commands over all
/// workers, each on exactly one worker's connection.
pub proof fn lemma_pool_conservation(m: PoolModel)
    requires
        m.wf(),
    ensures
        m.submitted =~= accounted_all(m.workers),
{
}

/// Once every queue is drained, the submitted commands are exactly those
/// sent or failed across the workers.
proof fn lemma_delivered_when_drained(ws: Seq<WorkerModel>)
    requires
        forall|i: int| 0 <= i < ws.len() ==> (#[trigger] ws[i]).queue.len() == 0,
    ensures
        accounted_all(ws) =~= delivered_all(ws),
    decreases ws.len(),
{
    if ws.len() > 0 {
        assert(ws[0].queue.to_multiset().len() == 0);
        lemma_delivered_when_drained(ws.drop_first());
    }
}

/// Law: after the workers drain their queues, every submitted command was
/// delivered — sent on exactly one connection, or recorded there as failed.
pub proof fn lemma_drained_delivery(m: PoolModel)
    requires
        m.wf(),
        forall|i: int| 0 <= i < m.workers.len() ==> (#[trigger] m.workers[i]).queue.len() == 0,
    ensures
        m.submitted =~= delivered_all(m.workers),
{
    lemma_delivered_when_drained(m.workers);
}

/// Queues at most `cap` long sum to at most `n × cap` pending commands.
proof fn lemma_pending_bound(ws: Seq<WorkerModel>, cap: int)
    requires
        forall|i: int| 0 <= i < ws.len() ==> (#[trigger] ws[i]).queue.len() <= cap,
    ensures
        pending_total(ws) <= ws.len() * cap,
    decreases ws.len(),
{
    if ws.len() > 0 {
        lemma_pending_bound(ws.drop_first(), cap);
        assert((ws.len() - 1) * cap + cap == ws.len() * cap) by (nonlinear_arith);
    }
}

/// Law: the pool bounds the unsent backlog: a well-formed pool never holds
/// more than `n × capacity` pending commands.
pub proof fn lemma_backpressure_bound(m: PoolModel)
    requires
        m.wf(),
    ensures
        pending_total(m.workers) <= m.workers.len() * m.capacity,
{
    lemma_pending_bound(m.workers, m.capacity);
}

/// Law: a full queue only suspends the submitter — the pool is unchanged and
/// nothing is dropped — and a single step by that worker makes room again.
pub proof fn lemma_drain_unblocks(m: PoolModel, w: int, ok: bool)
    requires
        m.wf(),
        0 <= w < m.workers.len(),
        !m.can_accept(w),
    ensures
        m.step(w, ok).can_accept(w),
{
}

/// Law: per-connection send ordering is strict FIFO: two consecutive steps
/// by one worker deliver its first two pending commands in queue order.
pub proof fn lemma_fifo_per_connection(m: PoolModel, w: int)
    requires
        m.wf(),
        0 <= w < m.workers.len(),
        m.workers[w].queue.len() >= 2,
    ensures
        m.step(w, true).step(w, true).workers[w].sent == m.workers[w].sent.push(
            m.workers[w].queue[0],
        ).push(m.workers[w].queue[1]),
{
    lemma_step_wf(m, w, true);
}

/// Law: a failed send is isolated: the worker records the failure and its
/// next step still delivers the following command.
pub proof fn lemma_failure_isolation(m: PoolModel, w: int)
    requires
        m.wf(),
        0 <= w < m.workers.len(),
        m.workers[w].queue.len() >= 2,
    ensures
        m.step(w, false).workers[w].failed == m.workers[w].failed.push(m.workers[w].queue[0]),
        m.step(w, false).step(w, true).workers[w].sent == m.workers[w].sent.push(
            m.workers[w].queue[1],
        ),
{
    lemma_step_wf(m, w, false);
}

/// The queue capacity each worker is built with.
pub const QUEUE_CAPACITY: usize = 1024;

/// One worker's state: its pending commands and its per-connection logs.
pub struct Worker {
    pub queue: Vec<Cmd>,
    pub sent: Vec<Cmd>,
    pub failed: Vec<Cmd>,
}

impl View for Worker {
    type V = WorkerModel;

    open spec fn view(&self) -> WorkerModel {
        WorkerModel { queue: self.queue@, sent: self.sent@, failed: self.failed@ }
    }
}

/// The pool: an ordered, non-empty collection of workers sharing one queue
/// capacity, plus the ghost record of every command ever submitted.
pub struct Pool {
    pub workers: Vec<Worker>,
    pub capacity: usize,
    pub submitted: Ghost<Multiset<Cmd>>,
}

impl View for Pool {
    type V = PoolModel;

    open spec fn view(&self) -> PoolModel {
        PoolModel {
            workers: self.workers@.map_values(|w: Worker| w@),
            capacity: self.capacity as int,
            submitted: self.submitted@,
        }
    }
}

/// Relies on rand::Rng::gen_range with rand::thread_rng on the range `0..n`:
/// the sample lies in the range. rand panics on an empty range, which
/// `n >= 1` rules out.
#[verifier::external_body]
fn random_below(n: usize) -> (r: usize)
    requires
        n >= 1,
    ensures
        r < n,
{
    rand::Rng::gen_range(&mut rand::thread_rng(), 0..n)
}

impl Pool {
    /// Builds a pool of `n` idle workers with the given queue capacity.
    pub fn new(n: usize, capacity: usize) -> (p: Pool)
        requires
            1 <= n,
            1 <= capacity,
        ensures
            p@.wf(),
            p@.capacity == capacity as int,
            p@.workers.len() == n as int,
            forall|i: int| 0 <= i < n ==> p@.workers[i] == WorkerModel::empty(),
            p@.submitted == Multiset::<Cmd>::empty(),
    {
        let mut workers: Vec<Worker> = Vec::new();
        let mut i: usize = 0;
        while i < n
            invariant
                i <= n,
                workers@.len() == i,
                forall|k: int| 0 <= k < i ==> (#[trigger] workers@[k])@ == WorkerModel::empty(),
            decreases n - i,
        {
            workers.push(Worker { queue: Vec::new(), sent: Vec::new(), failed: Vec::new() });
            i = i + 1;
        }
        let p = Pool { workers, capacity, submitted: Ghost(Multiset::empty()) };
        proof {
            assert(forall|k: int| 0 <= k < n ==> #[trigger] p@.workers[k] == WorkerModel::empty());
            lemma_accounted_all_empty(p@.workers);
        }
        p
    }

    /// Tries to push `cmd` onto worker `w`'s queue: accepted exactly when the
    /// queue has room; a full queue refuses and changes nothing, so that the
    /// caller suspends and retries.
    pub fn try_enqueue(&mut self, w: usize, cmd: Cmd) -> (accepted: bool)
        requires
            old(self)@.wf(),
            w < old(self)@.workers.len(),
        ensures
            final(self)@.wf(),
            accepted == old(self)@.can_accept(w as int),
            accepted ==> final(self)@ == old(self)@.enqueue(w as int, cmd),
            !accepted ==> final(self)@ == old(self)@,
    {
        if self.workers[w].queue.len() < self.capacity {
            self.workers[w].queue.push(cmd);
            self.submitted = Ghost(self.submitted@.insert(cmd));
            proof {
                lemma_enqueue_wf(old(self)@, w as int, cmd);
                assert(self@.workers =~~= old(self)@.enqueue(w as int, cmd).workers);
                assert(self@ =~~= old(self)@.enqueue(w as int, cmd));
            }
            true
        } else {
            proof {
                assert(self@ =~~= old(self)@);
            }
            false
        }
    }

    /// One worker step: takes the front command off worker `w`'s queue and
    /// records it as sent, or as failed when the underlying send failed
    /// (`send_ok` reports which). The failure is contained: the worker goes
    /// on with its next command either way. An empty queue does nothing.
    pub fn worker_step(&mut self, w: usize, send_ok: bool) -> (r: Option<Cmd>)
        requires
            old(self)@.wf(),
            w < old(self)@.workers.len(),
        ensures
            final(self)@.wf(),
            final(self)@ == old(self)@.step(w as int, send_ok),
            r == (if old(self)@.workers[w as int].queue.len() > 0 {
                Some(old(self)@.workers[w as int].queue[0])
            } else {
                None::<Cmd>
            }),
    {
        if self.workers[w].queue.len() == 0 {
            return None;
        }
        let cmd = self.workers[w].queue.remove(0);
        if send_ok {
            self.workers[w].sent.push(cmd);
        } else {
            self.workers[w].failed.push(cmd);
        }
        proof {
            lemma_step_wf(old(self)@, w as int, send_ok);
            assert(old(self)@.workers[w as int].queue.drop_first() =~= old(
                self,
            ).workers@[w as int].queue@.remove(0));
            assert(self@.workers =~~= old(self)@.step(w as int, send_ok).workers);
            assert(self@ =~~= old(self)@.step(w as int, send_ok));
        }
        Some(cmd)
    }

    /// Picks a worker uniformly at random, as the pooled submission does.
    pub fn pick(&self) -> (w: usize)
        requires
            self@.workers.len() >= 1,
        ensures
            w < self@.workers.len(),
    {
        random_below(self.workers.len())
    }

    /// Submits one command: pushes it onto a randomly chosen worker's queue.
    /// A full queue refuses it and leaves the pool unchanged; the caller
    /// suspends and retries later, which is the pool's backpressure. A
    /// refusal can only come from a full queue, so while every worker has
    /// room the command is always accepted.
    pub fn submit(&mut self, cmd: Cmd) -> (accepted: bool)
        requires
            old(self)@.wf(),
        ensures
            final(self)@.wf(),
            accepted ==> exists|w: int|
                0 <= w < old(self)@.workers.len() && old(self)@.can_accept(w) && final(self)@
                    == old(self)@.enqueue(w, cmd),
            !accepted ==> exists|w: int|
                0 <= w < old(self)@.workers.len() && !old(self)@.can_accept(w),
            !accepted ==> final(self)@ == old(self)@,
    {
        let w = self.pick();
        let accepted = self.try_enqueue(w, cmd);
        proof {
            if accepted {
                assert((w as int) < old(self)@.workers.len() && old(self)@.can_accept(w as int)
                    && self@ == old(self)@.enqueue(w as int, cmd));
            } else {
                assert((w as int) < old(self)@.workers.len() && !old(self)@.can_accept(w as int));
            }
        }
        accepted
    }
}

} // verus!
