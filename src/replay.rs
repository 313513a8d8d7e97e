//! The decisions of block replay: whether a block's state root holds, which
//! inbound messages reach the economics once the gatekeeper has launched, how
//! event records are numbered, and when the driver fetches, stops and takes
//! checkpoints.
use crate::text::{contains_text, text_contains};
use vstd::prelude::*;

verus! {

#[derive(Clone, Copy, PartialEq, Eq, Structural, Debug)]
pub enum ReplayError {
    /// The block's header disagrees with the state root computed from its
    /// storage changes: the snapshot has diverged from the feed.
    StateRootMismatch,
    /// The storage held no readable message queue for the block.
    MessagesUnavailable,
}

impl ReplayError {
    pub fn as_str(&self) -> (r: &'static str)
        ensures
            *self == ReplayError::StateRootMismatch ==> r@ == "State root mismatch"@,
            *self == ReplayError::MessagesUnavailable ==> r@ == "Can not get mq messages from storage"@,
    {
        match self {
            ReplayError::StateRootMismatch => "State root mismatch",
            ReplayError::MessagesUnavailable => "Can not get mq messages from storage",
        }
    }
}

/// The replay engine's own counters: the sequence of the next event record,
/// the last block applied, and whether the gatekeeper has launched.
pub struct ReplayFactory {
    pub next_event_seq: i64,
    pub current_block: u32,
    pub gk_launched: bool,
}

/// The first message of a block that reaches the economics: every one once
/// the gatekeeper has launched, else the first launch message and all after
/// it; `None` where none does.
pub open spec fn first_dispatched(launched: bool, launches: Seq<bool>) -> Option<int>
    decreases launches.len(),
{
    if launches.len() == 0 {
        None
    } else if launched || launches[0] {
        Some(0)
    } else {
        match first_dispatched(false, launches.drop_first()) {
            Some(i) => Some(i + 1),
            None => None,
        }
    }
}

impl ReplayFactory {
    /// A fresh engine over a genesis snapshot.
    pub fn new() -> (r: ReplayFactory)
        ensures
            r.next_event_seq == 1,
            r.current_block == 0,
            !r.gk_launched,
    {
        ReplayFactory { next_event_seq: 1, current_block: 0, gk_launched: false }
    }

    /// The first step of applying a block: its header's state root must be
    /// the one computed from its storage changes.
    pub fn check_state_root(&self, header_root: &Vec<u8>, computed_root: &Vec<u8>) -> (r: Result<(), ReplayError>)
        ensures
            r is Ok <==> header_root@ == computed_root@,
            r is Err ==> r == Err::<(), ReplayError>(ReplayError::StateRootMismatch),
    {
        if header_root.len() != computed_root.len() {
            return Err(ReplayError::StateRootMismatch);
        }
        let mut i: usize = 0;
        while i < header_root.len()
            invariant
                header_root@.len() == computed_root@.len(),
                i <= header_root@.len(),
                forall|k: int| 0 <= k < i ==> header_root@[k] == computed_root@[k],
            decreases header_root@.len() - i,
        {
            if header_root[i] != computed_root[i] {
                return Err(ReplayError::StateRootMismatch);
            }
            i += 1;
        }
        assert(header_root@ =~= computed_root@);
        Ok(())
    }

    /// The last step of applying a block, once its storage changes were
    /// applied and its inbound messages handled (`messages_handled` is false
    /// where the message queue could not be read). The block becomes the
    /// current one only where its state root held and its messages were
    /// handled; otherwise nothing changes.
    pub fn dispatch_block(
        &mut self,
        number: u32,
        header_root: &Vec<u8>,
        computed_root: &Vec<u8>,
        messages_handled: bool,
    ) -> (r: Result<(), ReplayError>)
        ensures
            header_root@ != computed_root@ ==> r == Err::<(), ReplayError>(ReplayError::StateRootMismatch),
            header_root@ == computed_root@ && !messages_handled ==> r == Err::<(), ReplayError>(
                ReplayError::MessagesUnavailable,
            ),
            header_root@ == computed_root@ && messages_handled ==> r is Ok,
            r is Ok ==> final(self).current_block == number,
            r is Err ==> final(self).current_block == old(self).current_block,
            final(self).next_event_seq == old(self).next_event_seq,
            final(self).gk_launched == old(self).gk_launched,
    {
        self.check_state_root(header_root, computed_root)?;
        if !messages_handled {
            return Err(ReplayError::MessagesUnavailable);
        }
        self.current_block = number;
        Ok(())
    }

    /// Given which of a block's messages are the gatekeeper launch, returns
    /// the position of the first message to hand to the economics (all later
    /// ones follow), and records the launch.
    pub fn plan_inbound(&mut self, launches: &Vec<bool>) -> (r: Option<usize>)
        ensures
            r == (match first_dispatched(old(self).gk_launched, launches@) {
                Some(i) => Some(i as usize),
                None => None::<usize>,
            }),
            final(self).gk_launched == (old(self).gk_launched || r is Some),
            final(self).next_event_seq == old(self).next_event_seq,
            final(self).current_block == old(self).current_block,
    {
        if self.gk_launched {
            return if launches.len() > 0 {
                Some(0)
            } else {
                None
            };
        }
        let mut i: usize = 0;
        assert(launches@.subrange(0, launches@.len() as int) =~= launches@);
        while i < launches.len()
            invariant
                i <= launches@.len(),
                !self.gk_launched,
                !old(self).gk_launched,
                self.next_event_seq == old(self).next_event_seq,
                self.current_block == old(self).current_block,
                first_dispatched(false, launches@) == (match first_dispatched(
                    false,
                    launches@.subrange(i as int, launches@.len() as int),
                ) {
                    Some(j) => Some(j + i),
                    None => None::<int>,
                }),
            decreases launches@.len() - i,
        {
            assert(launches@.subrange(i as int, launches@.len() as int).drop_first() =~= launches@.subrange(
                i + 1,
                launches@.len() as int,
            ));
            if launches[i] {
                self.gk_launched = true;
                return Some(i);
            }
            i += 1;
        }
        None
    }

    /// The sequence number of the next event record, taken.
    pub fn take_event_seq(&mut self) -> (r: i64)
        requires
            old(self).next_event_seq < i64::MAX,
        ensures
            r == old(self).next_event_seq,
            final(self).next_event_seq == old(self).next_event_seq + 1,
            final(self).current_block == old(self).current_block,
            final(self).gk_launched == old(self).gk_launched,
    {
        let r = self.next_event_seq;
        self.next_event_seq = r + 1;
        r
    }
}

/// Where the replay loop stands: the next block to fetch, the block of the
/// last checkpoint, how often to take one (0: never), and where to stop.
pub struct ReplayDriver {
    pub block_number: u32,
    pub last_checkpoint_block: u32,
    pub checkpoint_interval: u32,
    pub stop_at: Option<u32>,
}

impl ReplayDriver {
    /// Starts after the later of the genesis block and the restored
    /// checkpoint's block (0 where none was restored).
    pub fn new(start_at: u32, checkpoint_block: u32, checkpoint_interval: u32, stop_at: Option<u32>) -> (r:
        ReplayDriver)
        requires
            start_at < u32::MAX,
            checkpoint_block < u32::MAX,
        ensures
            r.block_number == (if start_at >= checkpoint_block {
                start_at
            } else {
                checkpoint_block
            }) + 1,
            r.last_checkpoint_block == checkpoint_block,
            r.checkpoint_interval == checkpoint_interval,
            r.stop_at == stop_at,
    {
        let from = if start_at >= checkpoint_block {
            start_at
        } else {
            checkpoint_block
        };
        ReplayDriver {
            block_number: from + 1,
            last_checkpoint_block: checkpoint_block,
            checkpoint_interval,
            stop_at,
        }
    }

    /// Whether the replay has reached the block to stop at.
    pub fn finished(&self) -> (r: bool)
        ensures
            r == (self.block_number >= match self.stop_at {
                Some(s) => s,
                None => u32::MAX,
            }),
    {
        let stop = match self.stop_at {
            Some(s) => s,
            None => u32::MAX,
        };
        self.block_number >= stop
    }

    /// Whether the next block may be fetched: the node has it, and it is
    /// finalized or at most the height assumed finalized.
    pub fn block_ready(&self, current_best: u32, finalized: u32, assume_finalized: u32) -> (r: bool)
        ensures
            r == (self.block_number <= current_best && (self.block_number <= finalized
                || self.block_number <= assume_finalized)),
    {
        let limit = if finalized >= assume_finalized {
            finalized
        } else {
            assume_finalized
        };
        self.block_number <= current_best && self.block_number <= limit
    }

    /// The current block was applied: says whether to take a checkpoint of
    /// it (at least `checkpoint_interval > 0` blocks after the last one),
    /// and moves on to the next block.
    pub fn block_done(&mut self) -> (r: bool)
        requires
            old(self).block_number < u32::MAX,
        ensures
            r == (old(self).checkpoint_interval > 0 && old(self).block_number
                >= old(self).last_checkpoint_block + old(self).checkpoint_interval),
            final(self).last_checkpoint_block == (if r {
                old(self).block_number
            } else {
                old(self).last_checkpoint_block
            }),
            final(self).block_number == old(self).block_number + 1,
            final(self).checkpoint_interval == old(self).checkpoint_interval,
            final(self).stop_at == old(self).stop_at,
    {
        let due = self.checkpoint_interval > 0 && self.block_number as u64 >= self.last_checkpoint_block as u64
            + self.checkpoint_interval as u64;
        if due {
            self.last_checkpoint_block = self.block_number;
        }
        self.block_number = self.block_number + 1;
        due
    }
}

/// Whether an error's text asks for a new connection to the node.
pub fn restart_required(error: &str) -> (r: bool)
    ensures
        r == contains_text(error@, "restart required"@),
{
    text_contains(error, "restart required")
}

/// The checkpoint to restore from: the one named, unless the name is empty;
/// where none is named, `checkpoint.latest` if that file exists.
pub fn get_checkpoint_path(from: &Option<String>, latest_exists: bool) -> (r: Option<String>)
    ensures
        match from {
            Some(f) => if f@.len() > 0 {
                r is Some && r.unwrap()@ == f@
            } else {
                r is None
            },
            None => if latest_exists {
                r is Some && r.unwrap()@ == "checkpoint.latest"@
            } else {
                r is None
            },
        },
{
    match from {
        Some(filename) => {
            if !filename.as_str().is_empty() {
                Some(filename.clone())
            } else {
                None
            }
        },
        None => {
            if latest_exists {
                Some("checkpoint.latest".to_string())
            } else {
                None
            }
        },
    }
}

} // verus!
