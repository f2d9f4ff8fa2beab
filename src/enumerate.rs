//! The order in which the volume list is locked, volumes are pinned against
//! unmount, and each read-only volume is visited. The caller owns the
//! volume list and performs each action; the enumerator decides the next one
//! from the outcome of the last.
use vstd::prelude::*;

verus! {

/// What the caller is asked to do next. A volume is named by a handle of the
/// caller's choosing.
#[derive(Debug, Clone, Copy, PartialEq, Eq, Structural)]
pub enum Action {
    /// Take the lock of the volume list.
    LockList,
    /// Read the first volume of the list; answer with `Volume` or `NoVolume`.
    ReadFirst,
    /// Pin the volume against unmount; pinning releases the list lock.
    Busy(u64),
    /// Take the volume's own lock.
    LockVolume(u64),
    /// Test whether the volume is read-only; answer with `ReadOnly`.
    TestReadOnly(u64),
    /// Release the volume's own lock.
    UnlockVolume(u64),
    /// Dump the volume; answer with `Visited`.
    Visit(u64),
    /// Take the list lock again, the volume still pinned.
    Relock(u64),
    /// Unpin the volume.
    Unbusy(u64),
    /// Read the volume that follows this one; answer with `Volume` or
    /// `NoVolume`.
    ReadNext(u64),
    /// Release the list lock.
    UnlockList,
    /// Enumeration is over: whether every visit succeeded.
    Finish(bool),
}

/// The outcome of the last action.
#[derive(Debug, Clone, Copy, PartialEq, Eq, Structural)]
pub enum Event {
    /// The action was carried out and has nothing to report.
    Done,
    /// A volume was read from the list.
    Volume(u64),
    /// The list has no (further) volume.
    NoVolume,
    /// Whether the tested volume is read-only.
    ReadOnly(bool),
    /// Whether the visit succeeded.
    Visited(bool),
}

/// The enumeration so far: the action last asked for, whether the current
/// volume tested read-only, and whether every visit so far succeeded.
#[derive(Debug, Clone, Copy, PartialEq, Eq, Structural)]
pub struct Enumerator {
    pub last: Action,
    pub read_only: bool,
    pub ok: bool,
}

/// The state after the caller reports `ev` for the action `e.last`. An event
/// other than the one asked for counts as the cautious answer: no volume,
/// not read-only, a failed visit.
pub open spec fn next(e: Enumerator, ev: Event) -> Enumerator {
    match e.last {
        Action::LockList => Enumerator { last: Action::ReadFirst, ..e },
        Action::ReadFirst | Action::ReadNext(_) => match ev {
            Event::Volume(h) => Enumerator { last: Action::Busy(h), ..e },
            _ => Enumerator { last: Action::UnlockList, ..e },
        },
        Action::Busy(h) => Enumerator { last: Action::LockVolume(h), ..e },
        Action::LockVolume(h) => Enumerator { last: Action::TestReadOnly(h), ..e },
        Action::TestReadOnly(h) => Enumerator {
            last: Action::UnlockVolume(h),
            read_only: ev == Event::ReadOnly(true),
            ..e
        },
        Action::UnlockVolume(h) => {
            if e.read_only {
                Enumerator { last: Action::Visit(h), ..e }
            } else {
                Enumerator { last: Action::Relock(h), ..e }
            }
        },
        Action::Visit(h) => Enumerator {
            last: Action::Relock(h),
            ok: e.ok && ev == Event::Visited(true),
            ..e
        },
        Action::Relock(h) => Enumerator { last: Action::Unbusy(h), ..e },
        Action::Unbusy(h) => {
            if e.ok {
                Enumerator { last: Action::ReadNext(h), ..e }
            } else {
                Enumerator { last: Action::UnlockList, ..e }
            }
        },
        Action::UnlockList => Enumerator { last: Action::Finish(e.ok), ..e },
        Action::Finish(r) => e,
    }
}

/// Whether the list lock is held once `a` is carried out.
pub open spec fn list_locked(a: Action) -> bool {
    match a {
        Action::LockList | Action::ReadFirst | Action::Relock(_) | Action::Unbusy(_)
        | Action::ReadNext(_) => true,
        _ => false,
    }
}

/// Whether a volume's own lock is held once `a` is carried out.
pub open spec fn volume_locked(a: Action) -> bool {
    match a {
        Action::LockVolume(_) | Action::TestReadOnly(_) => true,
        _ => false,
    }
}

/// The volume pinned once `a` is carried out, if any.
pub open spec fn pinned(a: Action) -> Option<u64> {
    match a {
        Action::Busy(h) | Action::LockVolume(h) | Action::TestReadOnly(h) | Action::UnlockVolume(
            h,
        )
        | Action::Visit(h) | Action::Relock(h) => Some(h),
        _ => None,
    }
}

impl Enumerator {
    /// A new enumeration and its first action: take the list lock.
    pub fn start() -> (r: (Enumerator, Action))
        ensures
            r.0 == (Enumerator { last: Action::LockList, read_only: false, ok: true }),
            r.1 == Action::LockList,
    {
        (Enumerator { last: Action::LockList, read_only: false, ok: true }, Action::LockList)
    }

    /// Takes the outcome of the last action and returns the next one.
    pub fn step(&mut self, ev: Event) -> (r: Action)
        ensures
            *final(self) == next(*old(self), ev),
            r == final(self).last,
    {
        let e = *self;
        let n = match e.last {
            Action::LockList => Enumerator { last: Action::ReadFirst, ..e },
            Action::ReadFirst | Action::ReadNext(_) => match ev {
                Event::Volume(h) => Enumerator { last: Action::Busy(h), ..e },
                _ => Enumerator { last: Action::UnlockList, ..e },
            },
            Action::Busy(h) => Enumerator { last: Action::LockVolume(h), ..e },
            Action::LockVolume(h) => Enumerator { last: Action::TestReadOnly(h), ..e },
            Action::TestReadOnly(h) => {
                let ro = match ev {
                    Event::ReadOnly(b) => b,
                    _ => false,
                };
                Enumerator { last: Action::UnlockVolume(h), read_only: ro, ..e }
            },
            Action::UnlockVolume(h) => {
                if e.read_only {
                    Enumerator { last: Action::Visit(h), ..e }
                } else {
                    Enumerator { last: Action::Relock(h), ..e }
                }
            },
            Action::Visit(h) => {
                let visited = match ev {
                    Event::Visited(b) => b,
                    _ => false,
                };
                Enumerator { last: Action::Relock(h), ok: e.ok && visited, ..e }
            },
            Action::Relock(h) => Enumerator { last: Action::Unbusy(h), ..e },
            Action::Unbusy(h) => {
                if e.ok {
                    Enumerator { last: Action::ReadNext(h), ..e }
                } else {
                    Enumerator { last: Action::UnlockList, ..e }
                }
            },
            Action::UnlockList => Enumerator { last: Action::Finish(e.ok), ..e },
            Action::Finish(_) => e,
        };
        *self = n;
        n.last
    }
}

/// A volume is visited with neither the list lock nor its own lock held,
/// while it is pinned, and only after it tested read-only.
pub proof fn lemma_visit_holds_no_lock(e: Enumerator, ev: Event, h: u64)
    requires
        next(e, ev).last == Action::Visit(h),
    ensures
        !list_locked(e.last),
        !volume_locked(e.last),
        pinned(e.last) == Some(h),
        e.last == Action::UnlockVolume(h),
        e.read_only,
{
}

/// A volume is pinned only while the list lock is held, and unpinned only
/// while the list lock is held; after unpinning, the next action reads the
/// following volume under that same lock, or releases it.
pub proof fn lemma_pin_under_list_lock(e: Enumerator, ev: Event, ev2: Event)
    ensures
        next(e, ev).last is Busy ==> list_locked(e.last),
        next(e, ev).last is Unbusy ==> list_locked(e.last) && pinned(e.last) == Some(
            next(e, ev).last->Unbusy_0,
        ),
        next(e, ev).last is Unbusy ==> next(next(e, ev), ev2).last == Action::ReadNext(
            next(e, ev).last->Unbusy_0,
        ) || next(next(e, ev), ev2).last == Action::UnlockList,
{
}

/// A pin ends only through `Unbusy` of the same volume, and a new pin starts
/// only when none is held.
pub proof fn lemma_pin_released_once(e: Enumerator, ev: Event)
    ensures
        pinned(e.last) is Some && pinned(next(e, ev).last) != pinned(e.last) ==> next(
            e,
            ev,
        ).last == Action::Unbusy(pinned(e.last)->Some_0),
        pinned(e.last) is None && pinned(next(e, ev).last) is Some ==> next(e, ev).last is Busy,
{
}

/// Enumeration ends with every lock released and no volume pinned, and
/// reports whether every visit succeeded.
pub proof fn lemma_finish_holds_nothing(e: Enumerator, ev: Event)
    requires
        !(e.last is Finish),
        next(e, ev).last is Finish,
    ensures
        !list_locked(e.last),
        !volume_locked(e.last),
        pinned(e.last) is None,
        next(e, ev).last == Action::Finish(e.ok),
{
}

/// After a failed visit the volume is unpinned under the list lock, the lock
/// is released and enumeration ends unsuccessfully, whatever is reported.
pub proof fn lemma_failed_visit_stops(e: Enumerator, h: u64, ev2: Event, ev3: Event, ev4: Event)
    requires
        e.last == Action::Visit(h),
    ensures
        ({
            let a = next(e, Event::Visited(false));
            let b = next(a, ev2);
            let c = next(b, ev3);
            let d = next(c, ev4);
            a.last == Action::Relock(h) && b.last == Action::Unbusy(h) && c.last
                == Action::UnlockList && d.last == Action::Finish(false)
        }),
{
}

} // verus!
