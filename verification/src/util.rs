//! A pool of worker threads fed round-robin over channels. Starting the
//! threads is left to the caller; the pool keeps the bookkeeping.
use vstd::prelude::*;
use std::sync::mpsc::{Receiver, Sender};
use wlambda::VVal;

verus! {

#[verifier::external_type_specification]
#[verifier::external_body]
#[verifier::reject_recursive_types(T)]
pub struct ExSender<T>(Sender<T>);

#[verifier::external_type_specification]
#[verifier::external_body]
#[verifier::reject_recursive_types(T)]
pub struct ExReceiver<T>(Receiver<T>);

/// Calls `Sender::send`. Trusted to return whether the value was handed
/// to the channel; nothing is promised of which, since that depends on
/// whether the receiving thread still runs.
#[verifier::external_body]
fn channel_send<T>(tx: &Sender<T>, v: T) -> (sent: bool) {
    tx.send(v).is_ok()
}

/// Calls `Receiver::recv`, which blocks until a value arrives; `None` if
/// every sender is gone. What arrives depends on the other threads.
#[verifier::external_body]
fn channel_recv<T>(rx: &Receiver<T>) -> (r: Option<T>) {
    rx.recv().ok()
}

/// Calls `Receiver::try_recv`; `None` if no value is waiting. What arrives
/// depends on the other threads.
#[verifier::external_body]
fn channel_try_recv<T>(rx: &Receiver<T>) -> (r: Option<T>) {
    rx.try_recv().ok()
}

#[verifier::external_type_specification]
#[verifier::external_body]
pub struct ExVVal(VVal);

/// Whether `wlambda::VVal::from_json` (that is, `serde_json::from_str`
/// into a script value) accepts `text`.
pub uninterp spec fn json_accepts(text: Seq<char>) -> bool;

/// Calls `wlambda::VVal::from_json`. Trusted: it gives a value exactly
/// when the JSON reader accepts the text, a fixed property of the text
/// named `json_accepts`, and otherwise an error message. The value itself
/// and the message are left unsaid.
#[verifier::external_body]
fn vval_from_json(text: &str) -> (r: Result<VVal, String>)
    ensures
        r is Ok == json_accepts(text@),
{
    VVal::from_json(text)
}

/// Reads the text of a save game as a script value; an error message when
/// it is not JSON that the reader accepts.
pub fn parse_save_text(text: &str) -> (r: Result<VVal, String>)
    ensures
        r is Ok == json_accepts(text@),
{
    vval_from_json(text)
}

/// The sending end of one worker thread's job queue.
#[derive(Debug)]
#[verifier::reject_recursive_types(J)]
pub struct WorkerThreadRef<J> where J: Send {
    pub job_tx: Sender<J>,
}

impl<J> WorkerThreadRef<J> where J: Send {
    /// A reference to a worker that reads its jobs from the other end of
    /// `job_tx`.
    pub fn new(job_tx: Sender<J>) -> (w: Self)
        ensures
            w.job_tx == job_tx,
    {
        WorkerThreadRef { job_tx }
    }
}

/// Worker threads that take jobs in turn and report results on one
/// channel.
#[verifier::reject_recursive_types(J)]
#[verifier::reject_recursive_types(R)]
pub struct WorkerPool<J, R> where J: Send, R: Send {
    pub next_worker_idx: usize,
    pub workers: Vec<WorkerThreadRef<J>>,
    pub result_rx: Receiver<R>,
    pub queued_job_count: usize,
}

impl<J, R> WorkerPool<J, R> where J: Send, R: Send {
    /// The next job goes to a worker that exists.
    pub open spec fn wf(&self) -> bool {
        self.next_worker_idx < self.workers@.len()
    }

    /// A pool over `workers` whose results arrive on `result_rx`.
    pub fn new(workers: Vec<WorkerThreadRef<J>>, result_rx: Receiver<R>) -> (p: Self)
        ensures
            p.next_worker_idx == 0,
            p.workers == workers,
            p.result_rx == result_rx,
            p.queued_job_count == 0,
    {
        WorkerPool { next_worker_idx: 0, result_rx, workers, queued_job_count: 0 }
    }

    /// Hands `j` to the next worker in turn, on the channel that
    /// `next_job_tx` gives. If the worker took it, the
    /// job is counted, the turn passes on and `true` is returned;
    /// otherwise nothing changes. Whether the worker takes it depends on
    /// whether its thread still runs.
    pub fn send(&mut self, j: J) -> (sent: bool)
        requires
            old(self).wf(),
            old(self).queued_job_count < usize::MAX,
        ensures
            final(self).wf(),
            final(self).workers == old(self).workers,
            final(self).result_rx == old(self).result_rx,
            sent ==> final(self).queued_job_count == old(self).queued_job_count + 1,
            sent ==> final(self).next_worker_idx == (old(self).next_worker_idx + 1) % (
            old(self).workers@.len() as int),
            !sent ==> final(self).queued_job_count == old(self).queued_job_count,
            !sent ==> final(self).next_worker_idx == old(self).next_worker_idx,
    {
        let sent = channel_send(self.next_job_tx(), j);
        self.note_sent(sent)
    }

    /// The job channel of the worker whose turn it is.
    pub fn next_job_tx(&self) -> (tx: &Sender<J>)
        requires
            self.wf(),
        ensures
            *tx == self.workers@[self.next_worker_idx as int].job_tx,
    {
        &self.workers[self.next_worker_idx].job_tx
    }

    /// Accounts for a job that the next worker in turn took (`sent`) or
    /// refused: a taken job is counted and the turn passes on. Returns
    /// `sent`.
    pub fn note_sent(&mut self, sent: bool) -> (r: bool)
        requires
            old(self).wf(),
            old(self).queued_job_count < usize::MAX,
        ensures
            r == sent,
            final(self).wf(),
            final(self).workers == old(self).workers,
            final(self).result_rx == old(self).result_rx,
            sent ==> final(self).queued_job_count == old(self).queued_job_count + 1,
            sent ==> final(self).next_worker_idx == (old(self).next_worker_idx + 1) % (
            old(self).workers@.len() as int),
            !sent ==> final(self).queued_job_count == old(self).queued_job_count,
            !sent ==> final(self).next_worker_idx == old(self).next_worker_idx,
    {
        if !sent {
            return false;
        }
        let len = self.workers.len();
        let ghost i = self.next_worker_idx as int;
        self.queued_job_count = self.queued_job_count + 1;
        self.next_worker_idx = self.next_worker_idx + 1;
        if self.next_worker_idx >= self.workers.len() {
            self.next_worker_idx = 0;
        }
        proof {
            if i + 1 < len {
                vstd::arithmetic::div_mod::lemma_small_mod((i + 1) as nat, len as nat);
            } else {
                vstd::arithmetic::div_mod::lemma_mod_self_0(len as int);
            }
        }
        true
    }

    pub fn queued_job_count(&self) -> (n: usize)
        ensures
            n == self.queued_job_count,
    {
        self.queued_job_count
    }

    /// Waits for the next result; `None` once every worker is gone. A
    /// result uncounts one job.
    pub fn get_result_blocking(&mut self) -> (r: Option<R>)
        ensures
            final(self).workers == old(self).workers,
            final(self).next_worker_idx == old(self).next_worker_idx,
            final(self).result_rx == old(self).result_rx,
            final(self).queued_job_count == (if r is Some && old(self).queued_job_count > 0 {
                old(self).queued_job_count - 1
            } else {
                old(self).queued_job_count as int
            }),
    {
        let r = channel_recv(&self.result_rx);
        self.note_result(r)
    }

    /// Takes a result if one is waiting; `None` if none is. A result
    /// uncounts one job.
    pub fn get_result(&mut self) -> (r: Option<R>)
        ensures
            final(self).workers == old(self).workers,
            final(self).next_worker_idx == old(self).next_worker_idx,
            final(self).result_rx == old(self).result_rx,
            final(self).queued_job_count == (if r is Some && old(self).queued_job_count > 0 {
                old(self).queued_job_count - 1
            } else {
                old(self).queued_job_count as int
            }),
    {
        let r = channel_try_recv(&self.result_rx);
        self.note_result(r)
    }

    /// Accounts for what the result channel gave: a result uncounts one
    /// job. Returns `r`.
    pub fn note_result(&mut self, r: Option<R>) -> (out: Option<R>)
        ensures
            out == r,
            final(self).workers == old(self).workers,
            final(self).next_worker_idx == old(self).next_worker_idx,
            final(self).result_rx == old(self).result_rx,
            final(self).queued_job_count == (if r is Some && old(self).queued_job_count > 0 {
                old(self).queued_job_count - 1
            } else {
                old(self).queued_job_count as int
            }),
    {
        match r {
            Some(v) => {
                if self.queued_job_count > 0 {
                    self.queued_job_count = self.queued_job_count - 1;
                }
                Some(v)
            },
            None => None,
        }
    }
}

} // verus!
