//! The log-store writer: a single writer that groups concurrent writes
//! into a small number of batches.
//!
//! Callers enqueue commands and receive a token; the token resolves when
//! the batch holding the command is durable, and a failed batch fails
//! every token in it alike. There is one open batch per priority tier:
//! seals, trims and markers ride the high tier, appends the normal one.
//! A batch is closed for writing the moment either the count cap or the
//! byte cap is reached.

use vstd::prelude::*;

use crate::log_state::LogStateUpdate;
use crate::offsets::LogletOffset;

verus! {

/// A token a caller waits on; it resolves when its batch is durable.
pub type WriteToken = u64;

/// Which open batch a command rides in.
#[derive(Debug, Clone, Copy, PartialEq, Eq, Structural)]
pub enum Priority {
    High,
    Normal,
}

/// One command handed to the writer.
#[derive(Debug, PartialEq, Eq)]
pub enum WriteCommand {
    /// Append serialized record values starting at an offset.
    Store { first_offset: LogletOffset, values: Vec<Vec<u8>> },
    /// Apply a metadata update through the merge operator.
    Metadata(LogStateUpdate),
    /// Write the store's one-shot marker.
    Marker(Vec<u8>),
}

/// The tier a command rides: seals, trims and markers go out first.
pub open spec fn spec_priority(cmd: WriteCommand) -> Priority {
    match cmd {
        WriteCommand::Store { .. } => Priority::Normal,
        WriteCommand::Metadata(_) => Priority::High,
        WriteCommand::Marker(_) => Priority::High,
    }
}

pub fn priority_of(cmd: &WriteCommand) -> (r: Priority)
    ensures
        r == spec_priority(*cmd),
{
    match cmd {
        WriteCommand::Store { .. } => Priority::Normal,
        WriteCommand::Metadata(_) => Priority::High,
        WriteCommand::Marker(_) => Priority::High,
    }
}

/// The bytes a command adds to its batch.
pub open spec fn spec_command_bytes(cmd: WriteCommand) -> int
    decreases cmd,
{
    match cmd {
        WriteCommand::Store { first_offset, values } => values_bytes(values@),
        WriteCommand::Metadata(_) => 16,
        WriteCommand::Marker(m) => m@.len() as int,
    }
}

pub open spec fn values_bytes(values: Seq<Vec<u8>>) -> int
    decreases values.len(),
{
    if values.len() == 0 {
        0
    } else {
        values_bytes(values.drop_last()) + values.last()@.len()
    }
}

/// A closed batch, ready to be written as one unit. Durability of the
/// write resolves every token in it; failure fails them all with one
/// error.
#[derive(Debug, PartialEq, Eq)]
pub struct WriteBatch {
    pub priority: Priority,
    pub commands: Vec<WriteCommand>,
    pub tokens: Vec<WriteToken>,
    pub bytes: usize,
    /// Whether the WAL must be flushed once for this batch.
    pub flush_wal: bool,
}

/// The single-writer batching state: one open batch per priority tier.
pub struct LogStoreWriter {
    pub batch_count_cap: usize,
    pub batch_size_cap: usize,
    pub batch_wal_flushes: bool,
    pub next_token: WriteToken,
    pub open_high: WriteBatch,
    pub open_normal: WriteBatch,
}

impl LogStoreWriter {
    /// Open batches stay strictly under both caps (a batch that reaches
    /// one is closed at once), track one token per command, and each
    /// tier's batch carries its own priority.
    pub open spec fn wf(&self) -> bool {
        &&& self.batch_count_cap >= 1
        &&& self.open_high.commands@.len() == self.open_high.tokens@.len()
        &&& self.open_normal.commands@.len() == self.open_normal.tokens@.len()
        &&& self.open_high.commands@.len() < self.batch_count_cap
        &&& self.open_normal.commands@.len() < self.batch_count_cap
        &&& self.open_high.bytes < self.batch_size_cap || self.open_high.commands@.len() == 0
        &&& self.open_normal.bytes < self.batch_size_cap || self.open_normal.commands@.len()
            == 0
        &&& self.open_high.commands@.len() == 0 ==> self.open_high.bytes == 0
        &&& self.open_normal.commands@.len() == 0 ==> self.open_normal.bytes == 0
        &&& self.open_high.flush_wal == self.batch_wal_flushes
        &&& self.open_normal.flush_wal == self.batch_wal_flushes
        &&& self.open_high.priority == Priority::High
        &&& self.open_normal.priority == Priority::Normal
    }

    pub fn new(batch_count_cap: usize, batch_size_cap: usize, batch_wal_flushes: bool) -> (r:
        Self)
        requires
            batch_count_cap >= 1,
        ensures
            r.wf(),
            r.batch_count_cap == batch_count_cap,
            r.batch_size_cap == batch_size_cap,
            r.open_high.commands@.len() == 0,
            r.open_normal.commands@.len() == 0,
    {
        LogStoreWriter {
            batch_count_cap,
            batch_size_cap,
            batch_wal_flushes,
            next_token: 1,
            open_high: WriteBatch {
                priority: Priority::High,
                commands: Vec::new(),
                tokens: Vec::new(),
                bytes: 0,
                flush_wal: batch_wal_flushes,
            },
            open_normal: WriteBatch {
                priority: Priority::Normal,
                commands: Vec::new(),
                tokens: Vec::new(),
                bytes: 0,
                flush_wal: batch_wal_flushes,
            },
        }
    }

    /// Enqueues one command into its tier's open batch and hands back
    /// the caller's token. When the command fills the batch to either
    /// cap, the batch is closed and returned, ready to be written
    /// immediately; its tokens are exactly those of its commands, the
    /// new one included.
    pub fn enqueue(&mut self, cmd: WriteCommand, cmd_bytes: usize) -> (r: (
        WriteToken,
        Option<WriteBatch>,
    ))
        requires
            old(self).wf(),
            old(self).next_token < WriteToken::MAX,
            cmd_bytes <= usize::MAX - old(self).batch_size_cap,
        ensures
            final(self).wf(),
            final(self).batch_count_cap == old(self).batch_count_cap,
            final(self).batch_size_cap == old(self).batch_size_cap,
            final(self).next_token == old(self).next_token + 1,
            r.0 == old(self).next_token,
            ({
                let tier_len = if spec_priority(cmd) == Priority::High {
                    old(self).open_high.commands@.len()
                } else {
                    old(self).open_normal.commands@.len()
                };
                let tier_bytes = if spec_priority(cmd) == Priority::High {
                    old(self).open_high.bytes as int
                } else {
                    old(self).open_normal.bytes as int
                };
                let closes = tier_len + 1 >= old(self).batch_count_cap || tier_bytes
                    + cmd_bytes >= old(self).batch_size_cap;
                &&& (r.1 is Some <==> closes)
                &&& (r.1 matches Some(batch) ==> {
                    &&& batch.priority == spec_priority(cmd)
                    &&& batch.commands@ == (if spec_priority(cmd) == Priority::High {
                        old(self).open_high.commands@
                    } else {
                        old(self).open_normal.commands@
                    }).push(cmd)
                    &&& batch.tokens@ == (if spec_priority(cmd) == Priority::High {
                        old(self).open_high.tokens@
                    } else {
                        old(self).open_normal.tokens@
                    }).push(r.0)
                    &&& batch.commands@.len() == tier_len + 1
                    &&& batch.tokens@.len() == batch.commands@.len()
                    &&& batch.tokens@.last() == r.0
                    &&& batch.commands@.last() == cmd
                    &&& batch.flush_wal == old(self).batch_wal_flushes
                    &&& (if spec_priority(cmd) == Priority::High {
                        final(self).open_high.commands@.len() == 0
                    } else {
                        final(self).open_normal.commands@.len() == 0
                    })
                })
                &&& (r.1 is None ==> (if spec_priority(cmd) == Priority::High {
                    final(self).open_high.commands@ == old(self).open_high.commands@.push(cmd)
                        && final(self).open_high.tokens@ == old(self).open_high.tokens@.push(
                        r.0,
                    ) && final(self).open_normal == old(self).open_normal
                } else {
                    final(self).open_normal.commands@ == old(self).open_normal.commands@.push(
                        cmd,
                    ) && final(self).open_normal.tokens@ == old(self).open_normal.tokens@.push(
                        r.0,
                    ) && final(self).open_high == old(self).open_high
                }))
            }),
    {
        let token = self.next_token;
        self.next_token = self.next_token + 1;
        let priority = priority_of(&cmd);
        let closed = match priority {
            Priority::High => push_into_batch(
                &mut self.open_high,
                cmd,
                token,
                cmd_bytes,
                self.batch_count_cap,
                self.batch_size_cap,
                self.batch_wal_flushes,
            ),
            Priority::Normal => push_into_batch(
                &mut self.open_normal,
                cmd,
                token,
                cmd_bytes,
                self.batch_count_cap,
                self.batch_size_cap,
                self.batch_wal_flushes,
            ),
        };
        (token, closed)
    }

    /// Closes and hands out a tier's open batch even though no cap was
    /// reached: the shutdown path flushes whatever is in flight.
    pub fn drain(&mut self, priority: Priority) -> (r: Option<WriteBatch>)
        requires
            old(self).wf(),
        ensures
            final(self).wf(),
            final(self).next_token == old(self).next_token,
            ({
                let tier_len = if priority == Priority::High {
                    old(self).open_high.commands@.len()
                } else {
                    old(self).open_normal.commands@.len()
                };
                &&& (r is Some <==> tier_len > 0)
                &&& (r matches Some(batch) ==> batch.priority == priority
                    && batch.commands@.len() == tier_len && batch.tokens@.len() == tier_len)
            }),
    {
        match priority {
            Priority::High => drain_batch(&mut self.open_high, self.batch_wal_flushes),
            Priority::Normal => drain_batch(&mut self.open_normal, self.batch_wal_flushes),
        }
    }
}

/// Adds one command and its token to an open batch; closes and returns
/// the batch when a cap is reached, leaving a fresh batch behind.
fn push_into_batch(
    batch: &mut WriteBatch,
    cmd: WriteCommand,
    token: WriteToken,
    cmd_bytes: usize,
    count_cap: usize,
    size_cap: usize,
    wal: bool,
) -> (r: Option<WriteBatch>)
    requires
        old(batch).commands@.len() == old(batch).tokens@.len(),
        old(batch).commands@.len() < count_cap,
        old(batch).bytes < size_cap || old(batch).commands@.len() == 0,
        old(batch).commands@.len() == 0 ==> old(batch).bytes == 0,
        old(batch).flush_wal == wal,
        cmd_bytes <= usize::MAX - size_cap,
    ensures
        final(batch).commands@.len() == final(batch).tokens@.len(),
        final(batch).commands@.len() < count_cap,
        final(batch).bytes < size_cap || final(batch).commands@.len() == 0,
        final(batch).commands@.len() == 0 ==> final(batch).bytes == 0,
        final(batch).priority == old(batch).priority,
        final(batch).flush_wal == wal,
        ({
            let closes = old(batch).commands@.len() + 1 >= count_cap || old(batch).bytes
                + cmd_bytes >= size_cap;
            &&& (r is Some <==> closes)
            &&& (r matches Some(full) ==> {
                &&& full.priority == old(batch).priority
                &&& full.commands@ == old(batch).commands@.push(cmd)
                &&& full.tokens@ == old(batch).tokens@.push(token)
                &&& full.commands@.len() == old(batch).commands@.len() + 1
                &&& full.tokens@.len() == full.commands@.len()
                &&& full.tokens@.last() == token
                &&& full.commands@.last() == cmd
                &&& full.flush_wal == old(batch).flush_wal
                &&& final(batch).commands@.len() == 0
            })
            &&& (r is None ==> final(batch).commands@ == old(batch).commands@.push(cmd)
                && final(batch).tokens@ == old(batch).tokens@.push(token)
                && final(batch).flush_wal == old(batch).flush_wal)
        }),
{
    let priority = batch.priority;
    batch.commands.push(cmd);
    batch.tokens.push(token);
    batch.bytes = batch.bytes + cmd_bytes;
    if batch.commands.len() >= count_cap || batch.bytes >= size_cap {
        let mut full = WriteBatch {
            priority,
            commands: Vec::new(),
            tokens: Vec::new(),
            bytes: 0,
            flush_wal: wal,
        };
        std::mem::swap(batch, &mut full);
        Some(full)
    } else {
        None
    }
}

/// Hands out the open batch if it holds anything, leaving a fresh one.
fn drain_batch(batch: &mut WriteBatch, wal: bool) -> (r: Option<WriteBatch>)
    requires
        old(batch).commands@.len() == old(batch).tokens@.len(),
        old(batch).commands@.len() == 0 ==> old(batch).bytes == 0,
        old(batch).flush_wal == wal,
    ensures
        final(batch).flush_wal == wal,
        final(batch).commands@.len() == 0,
        final(batch).tokens@.len() == 0,
        final(batch).bytes == 0,
        final(batch).priority == old(batch).priority,
        (r is Some <==> old(batch).commands@.len() > 0),
        r matches Some(full) ==> full.priority == old(batch).priority && full.commands@
            == old(batch).commands@ && full.tokens@ == old(batch).tokens@,
        r is None ==> *final(batch) == *old(batch),
{
    let priority = batch.priority;
    if batch.commands.len() == 0 {
        return None;
    }
    let mut full = WriteBatch {
        priority,
        commands: Vec::new(),
        tokens: Vec::new(),
        bytes: 0,
        flush_wal: wal,
    };
    std::mem::swap(batch, &mut full);
    Some(full)
}

} // verus!
