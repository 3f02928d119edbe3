//! Watcher-side decisions: the file-name gate for Voltech dumps, server-path
//! validation, and the retry schedules around file opens and ingests.

use vstd::prelude::*;
use crate::text;
use crate::text::is_digit;
use crate::api::WatcherControl;

verus! {

/// A Voltech dump name: a `C`, seven digits, and the `.atr` ending.
pub open spec fn voltech_name(s: Seq<char>) -> bool {
    s.len() == 12 && s[0] == 'C' && (forall|i: int| 1 <= i < 8 ==> is_digit(#[trigger] s[i]))
        && s.subrange(8, 12) == ".atr"@
}

/// Whether a file name is a Voltech dump, per [`voltech_name`].
pub fn is_voltech_file(name: &str) -> (r: bool)
    ensures
        r == voltech_name(name@),
{
    let v = text::str_to_chars(name);
    if v.len() != 12 {
        return false;
    }
    if v[0] != 'C' {
        return false;
    }
    let mut i: usize = 1;
    while i < 8
        invariant
            1 <= i <= 8,
            v@ == name@,
            v@.len() == 12,
            forall|t: int| 1 <= t < i ==> is_digit(#[trigger] v@[t]),
        decreases 8 - i,
    {
        if !text::digit_char(v[i]) {
            proof {
                assert(!is_digit(name@[i as int]));
            }
            return false;
        }
        i = i + 1;
    }
    let tail = text::subrange_chars(&v, 8, 12);
    text::chars_eq_str(&tail, ".atr")
}

/// A path shape the watcher accepts: a UNC share or a drive-rooted local
/// path. Whether it exists on disk is the caller's concern.
pub open spec fn acceptable_path(s: Seq<char>) -> bool {
    (s.len() >= 2 && ((s[0] == '\\' && s[1] == '\\') || (s[0] == '/' && s[1] == '/'))) || (s.len()
        >= 3 && s[1] == ':' && (s[2] == '\\' || s[2] == '/'))
}

/// Validates the shape of a configured path, per [`acceptable_path`].
pub fn validate_path(path: &str) -> (r: Result<(), String>)
    ensures
        r is Ok <==> acceptable_path(path@),
{
    let v = text::str_to_chars(path);
    let is_unc = v.len() >= 2 && ((v[0] == '\\' && v[1] == '\\') || (v[0] == '/' && v[1] == '/'));
    let is_local = v.len() >= 3 && v[1] == ':' && (v[2] == '\\' || v[2] == '/');
    if is_unc || is_local {
        Ok(())
    } else {
        Err(String::from_str("Path must be a UNC share or a drive-rooted local path"))
    }
}

/// The delay in seconds before retrying a failed parse-and-insert: the
/// escalating schedule, then a long pause for any further attempt.
pub fn ingest_retry_delay(attempt: u32) -> (r: u64)
    ensures
        attempt == 0 ==> r == 5,
        attempt == 1 ==> r == 15,
        attempt == 2 ==> r == 30,
        attempt >= 3 ==> r == 300,
{
    if attempt == 0 {
        5
    } else if attempt == 1 {
        15
    } else if attempt == 2 {
        30
    } else {
        300
    }
}

/// The delay in milliseconds before retrying a failed file open: one second
/// doubled per attempt.
pub fn open_retry_delay_ms(attempt: u32) -> (r: u64)
    requires
        attempt < 3,
    ensures
        r == 1000u64 * (if attempt == 0 {
            1u64
        } else if attempt == 1 {
            2u64
        } else {
            4u64
        }),
{
    if attempt == 0 {
        1000
    } else if attempt == 1 {
        2000
    } else {
        4000
    }
}

/// Whether the periodic maintenance sweep is due: no sweep is recorded, or
/// the last one lies at least seven days back.
pub fn maintenance_due(last_scan: Option<i64>, now: i64) -> (r: bool)
    ensures
        (match last_scan {
            None => r,
            Some(t) => r == (now as int - t as int >= 7 * 86400),
        }),
{
    match last_scan {
        None => true,
        Some(t) => {
            let diff: i128 = (now as i128) - (t as i128);
            diff >= 604800
        },
    }
}


/// What the master's loop remembers between events: whether scans are held
/// off, and when the last maintenance sweep ran.
#[derive(Debug, PartialEq, Eq, Structural)]
pub struct WatcherSt {
    pub paused: bool,
    pub last_maintenance: Option<i64>,
}

/// What a poll tick observed of the lock row.
#[derive(Debug, PartialEq, Eq, Structural)]
pub struct LockSeen {
    /// The row's holder is this process.
    pub own: bool,
    /// The row's claim is live.
    pub is_active: bool,
}

/// One event the watcher loop reacts to.
#[derive(Debug)]
pub enum WatcherEvent {
    /// A command from the control channel.
    Control(WatcherControl),
    /// The heartbeat timer fired.
    HeartbeatTick,
    /// The heartbeat write reported whether a row changed.
    HeartbeatResult(bool),
    /// The poll timer fired, with the lock row as read back.
    PollTick(Option<LockSeen>),
}

/// One thing the loop must now do; the host performs it.
#[derive(Debug, PartialEq, Eq, Structural)]
pub enum WatcherAction {
    /// Write the heartbeat and feed the result back.
    UpdateHeartbeat,
    /// Tell the host the watcher paused.
    EmitPaused,
    /// Tell the host the watcher resumed.
    EmitResumed,
    /// Release the lock.
    ReleaseLock,
    /// Leave the loop.
    Exit,
    /// Rescan the server path.
    Scan,
    /// Run the look-back maintenance sweep and persist its time.
    RunMaintenance,
}

/// One step of the watcher loop: from state and event to the next state and
/// the actions the host performs. `Stop` releases the lock and exits;
/// `Pause` holds off scans but keeps the heartbeat alive; a failed
/// heartbeat, or a poll that finds the lock gone, inactive or another's,
/// demotes by exiting; an unpaused poll under an own live lock scans, and
/// also runs maintenance exactly when it is due.
pub fn watcher_step(st: WatcherSt, ev: WatcherEvent, now: i64) -> (r: (
    WatcherSt,
    Vec<WatcherAction>,
))
    ensures
        (match ev {
            WatcherEvent::Control(WatcherControl::Pause) => r.0 == (WatcherSt {
                paused: true,
                ..st
            }) && r.1@ == seq![WatcherAction::EmitPaused],
            WatcherEvent::Control(WatcherControl::Resume) => r.0 == (WatcherSt {
                paused: false,
                ..st
            }) && r.1@ == seq![WatcherAction::EmitResumed],
            WatcherEvent::Control(WatcherControl::Stop) => r.0 == st && r.1@ == seq![
                WatcherAction::ReleaseLock,
                WatcherAction::Exit,
            ],
            WatcherEvent::HeartbeatTick => r.0 == st && r.1@ == seq![
                WatcherAction::UpdateHeartbeat,
            ],
            WatcherEvent::HeartbeatResult(ok) => r.0 == st && (if ok {
                r.1@ == Seq::<WatcherAction>::empty()
            } else {
                r.1@ == seq![WatcherAction::Exit]
            }),
            WatcherEvent::PollTick(seen) => match seen {
                None => r.0 == st && r.1@ == seq![WatcherAction::Exit],
                Some(l) => {
                    if !l.own || !l.is_active {
                        r.0 == st && r.1@ == seq![WatcherAction::Exit]
                    } else if st.paused {
                        r.0 == st && r.1@ == Seq::<WatcherAction>::empty()
                    } else {
                        let due = match st.last_maintenance {
                            None => true,
                            Some(t) => now as int - t as int >= 7 * 86400,
                        };
                        if due {
                            r.0 == (WatcherSt { last_maintenance: Some(now), ..st }) && r.1@
                                == seq![WatcherAction::Scan, WatcherAction::RunMaintenance]
                        } else {
                            r.0 == st && r.1@ == seq![WatcherAction::Scan]
                        }
                    }
                },
            },
        }),
{
    let mut actions: Vec<WatcherAction> = Vec::new();
    match ev {
        WatcherEvent::Control(WatcherControl::Pause) => {
            actions.push(WatcherAction::EmitPaused);
            proof {
                assert(actions@ =~= seq![WatcherAction::EmitPaused]);
            }
            (WatcherSt { paused: true, ..st }, actions)
        },
        WatcherEvent::Control(WatcherControl::Resume) => {
            actions.push(WatcherAction::EmitResumed);
            proof {
                assert(actions@ =~= seq![WatcherAction::EmitResumed]);
            }
            (WatcherSt { paused: false, ..st }, actions)
        },
        WatcherEvent::Control(WatcherControl::Stop) => {
            actions.push(WatcherAction::ReleaseLock);
            actions.push(WatcherAction::Exit);
            proof {
                assert(actions@ =~= seq![WatcherAction::ReleaseLock, WatcherAction::Exit]);
            }
            (st, actions)
        },
        WatcherEvent::HeartbeatTick => {
            actions.push(WatcherAction::UpdateHeartbeat);
            proof {
                assert(actions@ =~= seq![WatcherAction::UpdateHeartbeat]);
            }
            (st, actions)
        },
        WatcherEvent::HeartbeatResult(ok) => {
            if !ok {
                actions.push(WatcherAction::Exit);
                proof {
                    assert(actions@ =~= seq![WatcherAction::Exit]);
                }
            }
            (st, actions)
        },
        WatcherEvent::PollTick(seen) => match seen {
            None => {
                actions.push(WatcherAction::Exit);
                proof {
                    assert(actions@ =~= seq![WatcherAction::Exit]);
                }
                (st, actions)
            },
            Some(l) => {
                if !l.own || !l.is_active {
                    actions.push(WatcherAction::Exit);
                    proof {
                        assert(actions@ =~= seq![WatcherAction::Exit]);
                    }
                    (st, actions)
                } else if st.paused {
                    (st, actions)
                } else {
                    actions.push(WatcherAction::Scan);
                    let due = maintenance_due(st.last_maintenance, now);
                    if due {
                        actions.push(WatcherAction::RunMaintenance);
                        proof {
                            assert(actions@ =~= seq![
                                WatcherAction::Scan,
                                WatcherAction::RunMaintenance,
                            ]);
                        }
                        (WatcherSt { last_maintenance: Some(now), ..st }, actions)
                    } else {
                        proof {
                            assert(actions@ =~= seq![WatcherAction::Scan]);
                        }
                        (st, actions)
                    }
                }
            },
        },
    }
}

} // verus!
