//! The rows of a configuration, handed out in batches.

use vstd::prelude::*;

use crate::json_tree::{flatten, flatten_json, json_shape, keys_differ, plain_keys, row_texts};

verus! {

/// What to do next in a scan.
#[derive(Debug, PartialEq, Eq, Structural, Clone, Copy)]
pub enum ScanAction {
    /// Add the row with this index to the batch.
    Append(usize),
    /// Send the batch and start a new one.
    SendBatch,
    /// Send the batch, which is the last one.
    SendLast,
    /// Nothing: the scan is over.
    Done,
}

/// A scan of the rows of a configuration.
///
/// The scan says what to do, one thing after the other. Whoever asks does it and
/// then says whether the receiver of the batches is gone.
pub struct ConfigScan {
    rows: Vec<(String, String)>,
    batch_size: usize,
    next: usize,
    batched: usize,
    over: bool,
}

/// The state of a [`ConfigScan`].
pub struct ScanState {
    /// All rows.
    pub rows: Seq<(Seq<char>, Seq<char>)>,
    /// How many rows make a batch.
    pub batch_size: nat,
    /// How many rows were handed out.
    pub next: nat,
    /// How many of these are in the batch that was not sent yet.
    pub batched: nat,
    /// Whether there is nothing more to do.
    pub over: bool,
}

impl ScanState {
    /// The state at the start of a scan.
    pub open spec fn start(rows: Seq<(Seq<char>, Seq<char>)>, batch_size: nat) -> ScanState {
        ScanState { rows, batch_size, next: 0, batched: 0, over: false }
    }

    /// How many rows a full batch has. No batch is empty.
    pub open spec fn full(self) -> nat {
        if self.batch_size == 0 {
            1
        } else {
            self.batch_size
        }
    }

    /// The batch holds the rows that were handed out last, and is at most full.
    pub open spec fn wf(self) -> bool {
        &&& self.next <= self.rows.len()
        &&& self.batched <= self.next
        &&& self.batched <= self.full()
    }

    /// The rows in the batch that was not sent yet.
    pub open spec fn batch(self) -> Seq<(Seq<char>, Seq<char>)> {
        self.rows.subrange(self.next - self.batched, self.next as int)
    }

    /// What to do next.
    pub open spec fn action(self, receiver_gone: bool) -> ScanAction {
        if self.over || receiver_gone {
            ScanAction::Done
        } else if self.batched >= self.full() {
            ScanAction::SendBatch
        } else if self.next < self.rows.len() {
            ScanAction::Append(self.next as usize)
        } else if self.batched > 0 {
            ScanAction::SendLast
        } else {
            ScanAction::Done
        }
    }

    /// The state once that is done.
    pub open spec fn after(self, receiver_gone: bool) -> ScanState {
        match self.action(receiver_gone) {
            ScanAction::Append(_) => ScanState {
                next: self.next + 1,
                batched: self.batched + 1,
                ..self
            },
            ScanAction::SendBatch => ScanState { batched: 0, ..self },
            ScanAction::SendLast => ScanState { batched: 0, over: true, ..self },
            ScanAction::Done => ScanState { over: true, ..self },
        }
    }
}

impl View for ConfigScan {
    type V = ScanState;

    closed spec fn view(&self) -> ScanState {
        ScanState {
            rows: row_texts(self.rows@),
            batch_size: self.batch_size as nat,
            next: self.next as nat,
            batched: self.batched as nat,
            over: self.over,
        }
    }
}

impl ConfigScan {
    /// Starts a scan of the rows of `config`.
    pub fn new(config: &serde_json::Value, batch_size: usize) -> (scan: Self)
        ensures
            scan@.wf(),
            scan@ == ScanState::start(
                flatten(json_shape(*config), Seq::empty()),
                batch_size as nat,
            ),
            scan@.rows == flatten(json_shape(*config), Seq::empty()),
            scan@.rows.len() <= usize::MAX,
            scan@.batch_size == batch_size,
            scan@.next == 0 && scan@.batched == 0 && !scan@.over,
            plain_keys(json_shape(*config)) ==> keys_differ(scan@.rows),
    {
        let mut rows: Vec<(String, String)> = Vec::new();
        flatten_json(config, String::new(), &mut rows);
        let scan = ConfigScan::over_rows(rows, batch_size);
        assert(scan@.rows =~= flatten(json_shape(*config), Seq::empty()));
        scan
    }

    /// Starts a scan of `rows`.
    pub fn over_rows(rows: Vec<(String, String)>, batch_size: usize) -> (scan: Self)
        ensures
            scan@.wf(),
            scan@ == ScanState::start(row_texts(rows@), batch_size as nat),
            scan@.rows.len() == rows@.len(),
            forall|i: int|
                0 <= i < rows@.len() ==> (#[trigger] scan@.rows[i]).0 == rows@[i].0@
                    && scan@.rows[i].1 == rows@[i].1@,
            scan@.rows.len() <= usize::MAX,
            scan@.batch_size == batch_size,
            scan@.next == 0 && scan@.batched == 0 && !scan@.over,
    {
        assert(rows.len() == rows@.len());
        ConfigScan { rows, batch_size, next: 0, batched: 0, over: false }
    }

    /// The key and the value of the row with this index.
    pub fn row(&self, index: usize) -> (row: (&str, &str))
        requires
            index < self@.rows.len(),
        ensures
            row.0@ == self@.rows[index as int].0,
            row.1@ == self@.rows[index as int].1,
    {
        let row = &self.rows[index];
        (row.0.as_str(), row.1.as_str())
    }

    /// Says what to do next. `receiver_gone` says that the last batch could not
    /// be sent.
    pub fn step(&mut self, receiver_gone: bool) -> (action: ScanAction)
        requires
            old(self)@.wf(),
        ensures
            final(self)@.wf(),
            action == old(self)@.action(receiver_gone),
            final(self)@ == old(self)@.after(receiver_gone),
            final(self)@.rows == old(self)@.rows,
            action matches ScanAction::Append(index) ==> index == old(self)@.next && index < old(
                self,
            )@.rows.len(),
    {
        if self.over || receiver_gone {
            self.over = true;
            ScanAction::Done
        } else if self.batched > 0 && self.batched >= self.batch_size {
            self.batched = 0;
            ScanAction::SendBatch
        } else if self.next < self.rows.len() {
            let index = self.next;
            self.next += 1;
            self.batched += 1;
            ScanAction::Append(index)
        } else if self.batched > 0 {
            self.batched = 0;
            self.over = true;
            ScanAction::SendLast
        } else {
            self.over = true;
            ScanAction::Done
        }
    }
}

} // verus!
