use vstd::prelude::*;
use std::sync::mpsc::{Receiver, Sender};
use std::time::Duration;

verus! {

#[verifier::external_type_specification]
#[verifier::external_body]
#[verifier::reject_recursive_types(T)]
pub struct ExSender<T>(Sender<T>);

#[verifier::external_type_specification]
#[verifier::external_body]
#[verifier::reject_recursive_types(T)]
pub struct ExReceiver<T>(Receiver<T>);

/// Relies on `std::sync::mpsc::channel`: a new unbounded channel.
#[verifier::external_body]
fn open_channel() -> (r: (Sender<String>, Receiver<String>)) {
    std::sync::mpsc::channel()
}

/// Relies on `Sender::send`: queues `op` unless the receiver is gone, in
/// which case the record is dropped.
#[verifier::external_body]
fn send_record(sender: &Sender<String>, op: String) {
    let _ = sender.send(op);
}

/// The producing side of the log writer: it queues records for the worker.
pub struct WalWriter {
    sender: Sender<String>,
}

/// The consuming side of the log writer, which a worker drains.
pub struct WalWriterHandle {
    pub receiver: Receiver<String>,
    pub batch_interval: Duration,
}

impl WalWriter {
    /// A writer and the handle of its worker, which flushes every
    /// `batch_interval`.
    pub fn new(batch_interval: Duration) -> (r: (Self, WalWriterHandle))
        ensures
            r.1.batch_interval == batch_interval,
    {
        let (sender, receiver) = open_channel();
        (WalWriter { sender }, WalWriterHandle { receiver, batch_interval })
    }

    /// Queues one record for the worker.
    pub fn log(&self, op: String) {
        send_record(&self.sender, op);
    }
}

/// The most records a batch holds before it is flushed.
pub const BATCH_LIMIT: usize = 10;

/// The records a worker has received and not yet written.
pub struct WalBatch {
    records: Vec<String>,
}

impl View for WalBatch {
    type V = Seq<Seq<char>>;

    closed spec fn view(&self) -> Seq<Seq<char>> {
        crate::text::views(self.records@)
    }
}

/// The text of a batch in the working log: one record per line, each
/// ended by a newline.
pub open spec fn batch_text(recs: Seq<Seq<char>>) -> Seq<char>
    decreases recs.len(),
{
    if recs.len() == 0 {
        seq![]
    } else {
        batch_text(recs.drop_last()) + recs.last() + seq!['\n']
    }
}

/// Whether a batch is written: it holds records, and the interval has
/// elapsed since the last write or it holds `BATCH_LIMIT` records.
pub open spec fn flush_due(len: nat, interval_elapsed: bool) -> bool {
    len > 0 && (interval_elapsed || len >= BATCH_LIMIT)
}

impl WalBatch {
    pub fn new() -> (r: Self)
        ensures
            r@ == Seq::<Seq<char>>::empty(),
    {
        let r = WalBatch { records: Vec::new() };
        assert(r@ =~= Seq::<Seq<char>>::empty());
        r
    }

    /// Adds a received record at the end of the batch.
    pub fn receive(&mut self, op: String)
        ensures
            final(self)@ == old(self)@.push(op@),
    {
        self.records.push(op);
        assert(self@ =~= old(self)@.push(op@));
    }

    pub fn len(&self) -> (r: usize)
        ensures
            r == self@.len(),
    {
        self.records.len()
    }

    /// Whether the batch is to be written now.
    pub fn due(&self, interval_elapsed: bool) -> (r: bool)
        ensures
            r == flush_due(self@.len(), interval_elapsed),
    {
        self.records.len() > 0 && (interval_elapsed || self.records.len() >= BATCH_LIMIT)
    }

    /// The text to append to the working log for this batch.
    pub fn text(&self) -> (r: String)
        ensures
            r@ == batch_text(self@),
    {
        let mut out = String::new();
        let mut i: usize = 0;
        while i < self.records.len()
            invariant
                i <= self@.len(),
                out@ == batch_text(self@.take(i as int)),
            decreases self@.len() - i,
        {
            proof {
                assert(self@.take(i + 1).drop_last() =~= self@.take(i as int));
                assert(self@[i as int] == self.records@[i as int]@);
                reveal_strlit("\n");
            }
            out.append(self.records[i].as_str());
            out.append("\n");
            i = i + 1;
        }
        assert(self@.take(i as int) =~= self@);
        out
    }

    /// Empties the batch once it is written.
    pub fn clear(&mut self)
        ensures
            final(self)@ == Seq::<Seq<char>>::empty(),
    {
        self.records.clear();
        assert(self@ =~= Seq::<Seq<char>>::empty());
    }
}

} // verus!
