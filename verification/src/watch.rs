//! The decisions of watching paths for changes by polling: when to scan, and
//! what a path's state and events become given what the scan observed.

use vstd::prelude::*;

verus! {

/// Describes recursion strategies while watching a path.
#[derive(Debug, Clone, Copy, PartialEq, Eq, Structural)]
pub enum Recursion {
    /// Watch all the files and subfolders inside.
    Recursive,
    /// Only watch this path.
    NotRecursive,
}

/// The operations that can be done on a path.
#[derive(Debug, Clone, Copy, PartialEq, Eq, Structural)]
pub enum EventKind {
    /// The watched path has something created.
    Create,
    /// The watched path has something modified.
    Modify,
    /// The watched path has something deleted.
    Delete,
}

/// A filesystem event: when it happened (nanoseconds since the UNIX epoch),
/// the path it concerns and what happened.
#[derive(Debug, Clone)]
pub struct WatchEvent {
    pub time: u128,
    pub path: String,
    pub kind: EventKind,
}

/// The simplest watch, which watches nothing and never reports an event; it
/// stands in on platforms that cannot even poll file information.
#[derive(Debug)]
pub struct NullWatch;

impl NullWatch {
    /// Creates a new `NullWatch`.
    pub fn new() -> (r: Self) {
        NullWatch
    }

    /// Accepts a path to watch, and ignores it.
    pub fn watch(&mut self, _path: &str, _rec: Recursion) {
    }

    /// Accepts a path to stop watching, and ignores it.
    pub fn unwatch(&mut self, _path: &str) {
    }

    /// Reads the next event: there never is one.
    pub fn poll_event(&mut self) -> (r: Option<WatchEvent>)
        ensures
            r is None,
    {
        None
    }

    /// Accepts a polling interval, and ignores it.
    pub fn set_interval(&mut self, _interval_nanos: u128) {
    }
}

/// What a scan observed at a path.
#[derive(Debug, Clone, Copy, PartialEq, Eq, Structural)]
pub enum Observed {
    /// Nothing exists at the path.
    Missing,
    /// A file exists at the path.
    File,
    /// A directory exists at the path.
    Directory,
    /// Something that is neither a file nor a directory exists at the path.
    Other,
}

/// The state remembered for a watched path.
#[derive(Debug, Clone, Copy, PartialEq, Eq, Structural)]
pub enum NodeKind {
    /// Nothing existed at the path.
    NotExisting,
    /// A file modified at the given time existed at the path.
    ExistingFile(u128),
    /// A directory modified at the given time existed at the path.
    ExistingDirectory(u128),
}

/// How the state of a path changes after a scan.
#[derive(Debug, Clone, Copy, PartialEq, Eq, Structural)]
pub enum NodeChange {
    /// Nothing to report.
    Keep,
    /// Something appeared: build the state anew, reporting creations.
    Appeared,
    /// It disappeared: report deletions, and remember nothing exists.
    Vanished,
    /// It changed between file and directory: report deletions, then build
    /// the state anew, reporting creations.
    Replaced,
    /// It was modified at the given, later time: report it and remember it.
    Modified(u128),
}

/// The decision of a scan for one path: the change, and whether the entries
/// of a directory that stays one are scanned (before the change is applied).
#[derive(Debug, Clone, Copy, PartialEq, Eq, Structural)]
pub struct NodeUpdate {
    pub change: NodeChange,
    pub scan_children: bool,
}

/// The change that a scan makes to the remembered state of a path, given what
/// it observed and the modification time it could read.
pub open spec fn node_update_spec(kind: NodeKind, rec: Recursion, observed: Observed, mtime: Option<
    u128,
>) -> NodeUpdate {
    match kind {
        NodeKind::NotExisting => NodeUpdate {
            change: if observed == Observed::Missing {
                NodeChange::Keep
            } else {
                NodeChange::Appeared
            },
            scan_children: false,
        },
        NodeKind::ExistingFile(mod_time) => NodeUpdate {
            change: if observed == Observed::Missing {
                NodeChange::Vanished
            } else if observed != Observed::File {
                NodeChange::Replaced
            } else {
                match mtime {
                    Some(m) => if m > mod_time {
                        NodeChange::Modified(m)
                    } else {
                        NodeChange::Keep
                    },
                    None => NodeChange::Keep,
                }
            },
            scan_children: false,
        },
        NodeKind::ExistingDirectory(mod_time) => if observed == Observed::Missing {
            NodeUpdate { change: NodeChange::Vanished, scan_children: false }
        } else if observed != Observed::Directory {
            NodeUpdate { change: NodeChange::Replaced, scan_children: false }
        } else {
            NodeUpdate {
                change: match mtime {
                    Some(m) => if m > mod_time {
                        NodeChange::Modified(m)
                    } else {
                        NodeChange::Keep
                    },
                    None => NodeChange::Keep,
                },
                scan_children: rec == Recursion::Recursive,
            }
        },
    }
}

/// A scan reports exactly what it saw. A path that existed and is now missing
/// has vanished; one that was missing and now exists has appeared; one whose
/// kind (file or directory) changed was replaced. A path whose kind stayed is
/// kept, unless the modification time read is later than the remembered one:
/// then it was modified at that time. Only a directory that stays one is
/// scanned for its entries, and only when watching recursively.
pub proof fn lemma_node_update_follows_observation(
    kind: NodeKind,
    rec: Recursion,
    observed: Observed,
    mtime: Option<u128>,
)
    ensures
        ({
            let u = node_update_spec(kind, rec, observed, mtime);
            let existed = kind != NodeKind::NotExisting;
            let same_kind = match kind {
                NodeKind::NotExisting => observed == Observed::Missing,
                NodeKind::ExistingFile(_) => observed == Observed::File,
                NodeKind::ExistingDirectory(_) => observed == Observed::Directory,
            };
            let later = match (kind, mtime) {
                (NodeKind::ExistingFile(t), Some(m)) => m > t,
                (NodeKind::ExistingDirectory(t), Some(m)) => m > t,
                _ => false,
            };
            &&& (u.change == NodeChange::Vanished) <==> (existed && observed == Observed::Missing)
            &&& (u.change == NodeChange::Appeared) <==> (!existed && observed != Observed::Missing)
            &&& (u.change == NodeChange::Replaced) <==> (existed && observed != Observed::Missing
                && !same_kind)
            &&& (u.change == NodeChange::Keep) <==> (same_kind && !later)
            &&& (u.change is Modified) <==> (same_kind && later)
            &&& u.change matches NodeChange::Modified(m) ==> mtime == Some(m)
            &&& u.scan_children <==> (kind is ExistingDirectory && observed == Observed::Directory
                && rec == Recursion::Recursive)
        }),
{
}

/// Decides how a scan updates the remembered state of a path.
pub fn node_update(kind: NodeKind, rec: Recursion, observed: Observed, mtime: Option<u128>) -> (r:
    NodeUpdate)
    ensures
        r == node_update_spec(kind, rec, observed, mtime),
{
    match kind {
        NodeKind::NotExisting => {
            if observed != Observed::Missing {
                // Update the state while logging everything
                return NodeUpdate { change: NodeChange::Appeared, scan_children: false };
            }
            // Nothing changed
            NodeUpdate { change: NodeChange::Keep, scan_children: false }
        },
        NodeKind::ExistingFile(mod_time) => {
            if observed == Observed::Missing {
                // The file no longer exists
                return NodeUpdate { change: NodeChange::Vanished, scan_children: false };
            }
            if observed != Observed::File {
                // No longer a file: delete, then log everything anew
                return NodeUpdate { change: NodeChange::Replaced, scan_children: false };
            }
            // Still a file, check the modification date
            let change = match mtime {
                Some(m) => if m > mod_time {
                    NodeChange::Modified(m)
                } else {
                    NodeChange::Keep
                },
                None => NodeChange::Keep,
            };
            NodeUpdate { change, scan_children: false }
        },
        NodeKind::ExistingDirectory(mod_time) => {
            if observed == Observed::Missing {
                // The directory no longer exists
                return NodeUpdate { change: NodeChange::Vanished, scan_children: false };
            }
            if observed != Observed::Directory {
                // No longer a directory: delete, then log everything anew
                return NodeUpdate { change: NodeChange::Replaced, scan_children: false };
            }
            // Still a directory: scan its entries if recursive, then check the
            // modification date
            let change = match mtime {
                Some(m) => if m > mod_time {
                    NodeChange::Modified(m)
                } else {
                    NodeChange::Keep
                },
                None => NodeChange::Keep,
            };
            NodeUpdate { change, scan_children: rec == Recursion::Recursive }
        },
    }
}

/// The state a newly watched path starts from, given what was observed and
/// the time taken as its modification time: nothing, a file, or a directory
/// whose entries are watched too if the watch is recursive.
pub fn initial_node(observed: Observed, rec: Recursion, time: u128) -> (r: (NodeKind, bool))
    ensures
        observed == Observed::Missing ==> r == (NodeKind::NotExisting, false),
        observed == Observed::File ==> r == (NodeKind::ExistingFile(time), false),
        observed == Observed::Directory || observed == Observed::Other ==> r == (
            NodeKind::ExistingDirectory(time),
            rec == Recursion::Recursive,
        ),
{
    if observed == Observed::Missing {
        return (NodeKind::NotExisting, false);
    }
    if observed == Observed::File {
        return (NodeKind::ExistingFile(time), false);
    }
    (NodeKind::ExistingDirectory(time), rec == Recursion::Recursive)
}

/// The time recorded for a path that starts being watched: its modification
/// time; for a path that is new, its creation time if the modification time
/// cannot be read; and the current time if none of these can be read.
pub fn initial_time(log_create: bool, created: Option<u128>, modified: Option<u128>, now: u128) -> (r:
    u128)
    ensures
        r == if log_create {
            match modified {
                Some(m) => m,
                None => match created {
                    Some(c) => c,
                    None => now,
                },
            }
        } else {
            match modified {
                Some(m) => m,
                None => now,
            }
        },
{
    match modified {
        Some(m) => m,
        None => if log_create {
            match created {
                Some(c) => c,
                None => now,
            }
        } else {
            now
        },
    }
}

/// Whether a polling watch scans at `now` after its last scan at
/// `last_time`, and the time it then remembers as the last scan.
pub open spec fn scan_decision(now: u128, last_time: u128, interval: u128) -> (bool, u128) {
    if now < last_time {
        (false, now)
    } else if now - last_time < interval {
        (false, last_time)
    } else {
        (true, now)
    }
}

/// Scans are spaced by the interval: after a scan, no scan happens until the
/// interval has elapsed again.
pub proof fn lemma_scans_spaced(now1: u128, now2: u128, last_time: u128, interval: u128)
    requires
        scan_decision(now1, last_time, interval).0,
        now1 <= now2,
        now2 - now1 < interval,
    ensures
        !scan_decision(now2, scan_decision(now1, last_time, interval).1, interval).0,
{
}

/// Decides whether a polling watch scans now, given the current time, the time
/// of the last scan and the interval (all in nanoseconds). Returns the
/// decision and the time to remember as the last scan: a scan happens once
/// the interval has elapsed; if the clock went backwards, no scan happens and
/// the current time is remembered.
pub fn should_update(now: u128, last_time: u128, interval: u128) -> (r: (bool, u128))
    ensures
        r == scan_decision(now, last_time, interval),
{
    if now < last_time {
        // Time went backwards: take the new time, but don't force a scan
        return (false, now);
    }
    let elapsed = now - last_time;
    if elapsed < interval {
        // Not enough time has passed
        (false, last_time)
    } else {
        // Enough time has passed
        (true, now)
    }
}

} // verus!
