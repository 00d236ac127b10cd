//! The debounce state machine of the configuration-file watcher.
//!
//! The watcher thread receives filesystem-change notifications for the
//! configuration path and decides, per notification, whether to reload.
//! Only a content modification counts; and a modification within the
//! debounce interval of the previously accepted one is discarded, so a
//! burst of writes from an editor's save triggers one reload. Before
//! re-reading, the surrounding process waits a short grace delay, giving
//! the editor time to finish writing; that wait, like the notifications
//! themselves, is the surrounding process's part — this state machine
//! only decides.

use vstd::prelude::*;

verus! {

/// How long after an accepted reload further modifications are
/// discarded, in milliseconds.
pub const DEBOUNCE_INTERVAL_MS: u64 = 50;

/// How long to wait before re-reading a modified file, in milliseconds,
/// so that an editor's save completes.
pub const REREAD_GRACE_MS: u64 = 20;

/// The kind of a filesystem-change notification, as the watch layer
/// tags it. Only a modification triggers a reload.
pub enum WatchEventKind {
    Create,
    Modify,
    Remove,
    Other,
}

/// Whether a notification of this kind, arriving now, triggers a reload:
/// it must be a modification, and either no reload was accepted yet or
/// the last one was accepted more than the debounce interval ago.
pub open spec fn should_reload(last_reload_ms: Option<u64>, kind: WatchEventKind, now_ms: u64) -> bool {
    &&& kind is Modify
    &&& match last_reload_ms {
        None => true,
        Some(t) => now_ms - t > DEBOUNCE_INTERVAL_MS,
    }
}

/// The watcher's debounce state: when the last accepted reload happened,
/// if one has.
pub struct WatcherDebounce {
    last_reload_ms: Option<u64>,
}

impl WatcherDebounce {
    /// When the last reload was accepted, in milliseconds of the
    /// caller's monotonic clock; nothing before the first.
    pub closed spec fn last_reload(&self) -> Option<u64> {
        self.last_reload_ms
    }

    /// Creates the debounce state with no reload accepted yet: the
    /// first modification is always acted on.
    pub fn new() -> (r: Self)
        ensures
            r.last_reload() is None,
    {
        WatcherDebounce { last_reload_ms: None }
    }

    /// Decides whether a notification triggers a reload, and records the
    /// acceptance time when it does. `now_ms` is the caller's monotonic
    /// clock, which never runs backwards past an accepted reload.
    pub fn observe(&mut self, kind: WatchEventKind, now_ms: u64) -> (r: bool)
        requires
            match old(self).last_reload() {
                Some(t) => now_ms >= t,
                None => true,
            },
        ensures
            r == should_reload(old(self).last_reload(), kind, now_ms),
            final(self).last_reload() == if r {
                Some(now_ms)
            } else {
                old(self).last_reload()
            },
    {
        let is_modify = match kind {
            WatchEventKind::Modify => true,
            _ => false,
        };
        if !is_modify {
            return false;
        }
        let accept = match self.last_reload_ms {
            None => true,
            Some(t) => now_ms - t > DEBOUNCE_INTERVAL_MS,
        };
        if accept {
            self.last_reload_ms = Some(now_ms);
        }
        accept
    }
}

} // verus!
