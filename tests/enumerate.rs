use obfw::enumerate::{Action, Enumerator, Event};

/// Runs an enumeration over volumes `(handle, read_only, visit_ok)` and
/// returns every action asked for.
fn drive(vols: &[(u64, bool, bool)]) -> Vec<Action> {
    let (mut e, mut a) = Enumerator::start();
    let mut trace = vec![a];
    let mut list_locked = false;
    let mut pinned: Option<u64> = None;
    for _ in 0..1000 {
        let ev = match a {
            Action::LockList => {
                assert!(!list_locked);
                list_locked = true;
                Event::Done
            }
            Action::ReadFirst => match vols.first() {
                Some(v) => Event::Volume(v.0),
                None => Event::NoVolume,
            },
            Action::Busy(h) => {
                assert!(list_locked && pinned.is_none());
                pinned = Some(h);
                list_locked = false;
                Event::Done
            }
            Action::LockVolume(_) | Action::UnlockVolume(_) => Event::Done,
            Action::TestReadOnly(h) => Event::ReadOnly(vols.iter().find(|v| v.0 == h).unwrap().1),
            Action::Visit(h) => {
                assert!(!list_locked && pinned == Some(h));
                Event::Visited(vols.iter().find(|v| v.0 == h).unwrap().2)
            }
            Action::Relock(_) => {
                assert!(!list_locked);
                list_locked = true;
                Event::Done
            }
            Action::Unbusy(h) => {
                assert!(list_locked && pinned == Some(h));
                pinned = None;
                Event::Done
            }
            Action::ReadNext(h) => {
                assert!(list_locked);
                let i = vols.iter().position(|v| v.0 == h).unwrap();
                match vols.get(i + 1) {
                    Some(v) => Event::Volume(v.0),
                    None => Event::NoVolume,
                }
            }
            Action::UnlockList => {
                assert!(list_locked);
                list_locked = false;
                Event::Done
            }
            Action::Finish(_) => {
                assert!(!list_locked && pinned.is_none());
                return trace;
            }
        };
        a = e.step(ev);
        trace.push(a);
    }
    panic!("enumeration did not finish");
}

#[test]
fn empty_list() {
    assert_eq!(drive(&[]), vec![Action::LockList, Action::ReadFirst, Action::UnlockList, Action::Finish(true)]);
}

#[test]
fn only_read_only_volumes_are_visited() {
    let trace = drive(&[(10, false, true), (20, true, true)]);
    assert_eq!(
        trace,
        vec![
            Action::LockList,
            Action::ReadFirst,
            Action::Busy(10),
            Action::LockVolume(10),
            Action::TestReadOnly(10),
            Action::UnlockVolume(10),
            Action::Relock(10),
            Action::Unbusy(10),
            Action::ReadNext(10),
            Action::Busy(20),
            Action::LockVolume(20),
            Action::TestReadOnly(20),
            Action::UnlockVolume(20),
            Action::Visit(20),
            Action::Relock(20),
            Action::Unbusy(20),
            Action::ReadNext(20),
            Action::UnlockList,
            Action::Finish(true),
        ]
    );
}

#[test]
fn failed_visit_stops_enumeration() {
    let trace = drive(&[(1, true, true), (2, true, false), (3, true, true)]);
    assert!(!trace.contains(&Action::Busy(3)));
    assert_eq!(
        &trace[trace.len() - 5..],
        &[Action::Visit(2), Action::Relock(2), Action::Unbusy(2), Action::UnlockList, Action::Finish(false)]
    );
}

#[test]
fn unexpected_events_are_cautious() {
    let (mut e, _) = Enumerator::start();
    assert_eq!(e.step(Event::Done), Action::ReadFirst);
    assert_eq!(e.step(Event::Volume(5)), Action::Busy(5));
    assert_eq!(e.step(Event::Done), Action::LockVolume(5));
    assert_eq!(e.step(Event::Done), Action::TestReadOnly(5));
    // No answer to the test: the volume is not treated as read-only.
    assert_eq!(e.step(Event::Done), Action::UnlockVolume(5));
    assert_eq!(e.step(Event::Done), Action::Relock(5));
    assert_eq!(e.step(Event::Done), Action::Unbusy(5));
    assert_eq!(e.step(Event::Done), Action::ReadNext(5));
    assert_eq!(e.step(Event::ReadOnly(true)), Action::UnlockList);
    assert_eq!(e.step(Event::Done), Action::Finish(true));
    assert_eq!(e.step(Event::Done), Action::Finish(true));
}
