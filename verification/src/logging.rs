//! Log levels, the bounded live event buffer, and log-file rotation.

use vstd::prelude::*;
use std::collections::VecDeque;
use crate::text::{str_eq, str_starts_with, has_prefix, push_decimal, decimal};

verus! {

/// Events kept for the live log view.
pub const MAX_UI_EVENTS: usize = 2000;

/// Size at which the log file is rotated.
pub const MAX_FILE_BYTES: u64 = 5242880;

/// Log files kept, the current one included.
pub const MAX_FILES: usize = 5;

#[derive(Debug, Clone, Copy, PartialEq, Eq, Structural)]
pub enum LogLevel {
    Debug,
    Info,
    Warn,
    Error,
}

/// The level named by the user interface: `error`, `warn` or `debug`, and
/// `Info` for anything else.
pub fn ui_level(level: &str) -> (l: LogLevel)
    ensures
        l == if level@ == "error"@ {
            LogLevel::Error
        } else if level@ == "warn"@ {
            LogLevel::Warn
        } else if level@ == "debug"@ {
            LogLevel::Debug
        } else {
            LogLevel::Info
        },
{
    if str_eq(level, "error") {
        LogLevel::Error
    } else if str_eq(level, "warn") {
        LogLevel::Warn
    } else if str_eq(level, "debug") {
        LogLevel::Debug
    } else {
        LogLevel::Info
    }
}

/// The level of an Image Editing progress event: `Warn` for `warn`, else `Info`.
pub fn progress_level(level: &str) -> (l: LogLevel)
    ensures
        l == if level@ == "warn"@ {
            LogLevel::Warn
        } else {
            LogLevel::Info
        },
{
    if str_eq(level, "warn") {
        LogLevel::Warn
    } else {
        LogLevel::Info
    }
}

/// A buffer that keeps the most recent events, at most `capacity` of them.
pub struct EventRing<T> {
    events: VecDeque<T>,
    capacity: usize,
}

impl<T> EventRing<T> {
    #[verifier::type_invariant]
    closed spec fn inv(&self) -> bool {
        0 < self.capacity && self.events@.len() <= self.capacity
    }

    /// The buffered events, oldest first.
    pub closed spec fn items(&self) -> Seq<T> {
        self.events@
    }

    pub closed spec fn cap(&self) -> nat {
        self.capacity as nat
    }

    /// An empty buffer holding at most `capacity` events.
    pub fn new(capacity: usize) -> (r: Self)
        requires
            capacity > 0,
        ensures
            r.items() == Seq::<T>::empty(),
            r.cap() == capacity,
    {
        EventRing { events: VecDeque::new(), capacity }
    }

    /// Append `event`, dropping the oldest one when the buffer is full.
    pub fn push(&mut self, event: T)
        ensures
            final(self).cap() == old(self).cap(),
            final(self).items() == if old(self).items().len() == old(self).cap() {
                old(self).items().drop_first().push(event)
            } else {
                old(self).items().push(event)
            },
            final(self).items().len() <= final(self).cap(),
    {
        proof {
            use_type_invariant(&*self);
        }
        let mut events: VecDeque<T> = VecDeque::new();
        std::mem::swap(&mut events, &mut self.events);
        if events.len() == self.capacity {
            let _ = events.pop_front();
        }
        events.push_back(event);
        self.events = events;
    }

    /// Forget every event.
    pub fn clear(&mut self)
        ensures
            final(self).cap() == old(self).cap(),
            final(self).items() == Seq::<T>::empty(),
    {
        proof {
            use_type_invariant(&*self);
        }
        self.events = VecDeque::new();
    }

    /// The buffered events, oldest first.
    pub fn events(&self) -> (v: &VecDeque<T>)
        ensures
            v@ == self.items(),
            v@.len() <= self.cap(),
    {
        proof {
            use_type_invariant(self);
        }
        &self.events
    }
}

/// Whether a file in the logs folder belongs to Aspen's rotated log.
pub fn is_log_file_name(name: &str) -> (b: bool)
    ensures
        b == has_prefix(name@, "aspen.log"@),
{
    str_starts_with(name, "aspen.log")
}

/// Whether a log file of `size` bytes (`None` when it cannot be read) must
/// be rotated before the next write.
pub fn needs_rotation(size: Option<u64>) -> (b: bool)
    ensures
        b == match size {
            Some(s) => s >= MAX_FILE_BYTES,
            None => false,
        },
{
    match size {
        Some(s) => s >= MAX_FILE_BYTES,
        None => false,
    }
}

/// Name of the `index`-th rotated log (`aspen.log.index`), or the current
/// log for index zero.
pub open spec fn log_name(index: nat) -> Seq<char> {
    if index == 0 {
        "aspen.log"@
    } else {
        "aspen.log."@ + decimal(index)
    }
}

/// The name of a log file by index.
pub fn log_file_name(index: usize) -> (s: String)
    ensures
        s@ == log_name(index as nat),
{
    if index == 0 {
        String::from_str("aspen.log")
    } else {
        let mut s = String::from_str("aspen.log.");
        push_decimal(&mut s, index as u64);
        s
    }
}

/// The renames of one rotation, in the order they run: each rotated log
/// moves one place older (the oldest is deleted first) and the current log
/// becomes the first rotated one.
pub open spec fn rotation_moves() -> Seq<(nat, nat)> {
    seq![(3nat, 4nat), (2nat, 3nat), (1nat, 2nat), (0nat, 1nat)]
}

/// The file deleted before the renames, then the renames as `(from, to)`
/// names, each applied only when `from` exists.
pub fn rotation_plan() -> (r: (String, Vec<(String, String)>))
    ensures
        r.0@ == log_name((MAX_FILES - 1) as nat),
        r.1@.len() == rotation_moves().len(),
        forall|k: int|
            0 <= k < r.1@.len() ==> (#[trigger] r.1@[k]).0@ == log_name(rotation_moves()[k].0) && r.1@[k].1@
                == log_name(rotation_moves()[k].1),
{
    let oldest = log_file_name(MAX_FILES - 1);
    let mut moves: Vec<(String, String)> = Vec::new();
    let mut index: usize = MAX_FILES - 2;
    while index >= 1
        invariant
            0 <= index <= MAX_FILES - 2,
            moves@.len() == MAX_FILES - 2 - index,
            forall|k: int|
                0 <= k < moves@.len() ==> (#[trigger] moves@[k]).0@ == log_name(rotation_moves()[k].0)
                    && moves@[k].1@ == log_name(rotation_moves()[k].1),
        decreases index,
    {
        let from = log_file_name(index);
        let to = log_file_name(index + 1);
        moves.push((from, to));
        index = index - 1;
    }
    let current = log_file_name(0);
    let first = log_file_name(1);
    moves.push((current, first));
    (oldest, moves)
}

/// The log indices present after renaming `m.0` to `m.1`, when `m.0` exists.
pub open spec fn apply_move(present: Set<nat>, m: (nat, nat)) -> Set<nat> {
    if present.contains(m.0) {
        present.remove(m.0).insert(m.1)
    } else {
        present
    }
}

/// The log indices present after the first `k` renames of `moves`.
pub open spec fn apply_moves(present: Set<nat>, moves: Seq<(nat, nat)>, k: nat) -> Set<nat>
    decreases k,
{
    if k == 0 || k > moves.len() {
        present
    } else {
        apply_move(apply_moves(present, moves, (k - 1) as nat), moves[k - 1])
    }
}

/// The log indices present after a whole rotation: the oldest is deleted,
/// then the renames run in order.
pub open spec fn after_rotation(present: Set<nat>) -> Set<nat> {
    apply_moves(present.remove((MAX_FILES - 1) as nat), rotation_moves(), rotation_moves().len())
}

/// A rotation keeps the number of log files bounded and loses only the
/// oldest: afterwards the current log's name is free, only rotated logs
/// `1..MAX_FILES` remain, and every log but the oldest has moved one place older.
pub proof fn law_rotation_keeps_logs_bounded(present: Set<nat>)
    requires
        forall|i: nat| #[trigger] present.contains(i) ==> i < MAX_FILES,
    ensures
        !after_rotation(present).contains(0),
        forall|i: nat| #[trigger] after_rotation(present).contains(i) ==> 1 <= i < MAX_FILES,
        forall|i: nat| i + 1 < MAX_FILES ==> (present.contains(i) <==> #[trigger] after_rotation(present).contains(i + 1)),
{
    let ms = rotation_moves();
    let s0 = present.remove(4);
    let s1 = apply_move(s0, ms[0]);
    let s2 = apply_move(s1, ms[1]);
    let s3 = apply_move(s2, ms[2]);
    let s4 = apply_move(s3, ms[3]);
    assert(apply_moves(s0, ms, 0) == s0);
    assert(apply_moves(s0, ms, 1) == s1);
    assert(apply_moves(s0, ms, 2) == s2);
    assert(apply_moves(s0, ms, 3) == s3);
    assert(apply_moves(s0, ms, 4) == s4);
    assert(after_rotation(present) == s4);
}

} // verus!
