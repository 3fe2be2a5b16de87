use reconciler::action::Action;
use reconciler::controller::Controller;
use reconciler::executor::{Command, Event};
use reconciler::key::ObjectKey;
use reconciler::mapper::{CrossReference, RelationMapper, SecondaryObject};
use reconciler::mux::{
    Cause, ChangeEvent, ChangeKind, EnqueueRequest, Input, Multiplexer, Output, Source,
};

#[derive(Debug)]
struct Failure;

fn deployment(name: &str) -> ObjectKey {
    ObjectKey::new("Deployment", "prod", name)
}

fn primary(name: &str, kind: ChangeKind) -> Input<u32> {
    Input::Primary(ChangeEvent { key: deployment(name), payload: 7, kind })
}

fn secondary(namespace: &str, target: Option<(&str, &str)>) -> Input<u32> {
    Input::Secondary(ChangeEvent {
        key: ObjectKey::new("HorizontalPodAutoscaler", namespace, "scaler"),
        payload: SecondaryObject {
            namespace: namespace.to_string(),
            target: target.map(|(kind, name)| CrossReference {
                kind: kind.to_string(),
                name: name.to_string(),
            }),
        },
        kind: ChangeKind::Modified,
    })
}

fn enqueue(key: ObjectKey, not_before: u64) -> Output {
    Output::Enqueue(EnqueueRequest { key, not_before })
}

fn mux() -> Multiplexer {
    Multiplexer::new(RelationMapper::new("Deployment"))
}

#[test]
fn mux_primary_event_asks_for_its_own_key_now() {
    let mut m = mux();
    assert_eq!(m.accept(&primary("web", ChangeKind::Added), 12), enqueue(deployment("web"), 12));
    assert_eq!(m.accept(&primary("web", ChangeKind::Modified), 13), enqueue(deployment("web"), 13));
    assert_eq!(m.accept(&primary("web", ChangeKind::Deleted), 14), enqueue(deployment("web"), 14));
}

#[test]
fn mux_secondary_event_asks_for_the_related_primary_key() {
    let mut m = mux();
    let out = m.accept(&secondary("prod", Some(("Deployment", "web"))), 5);
    assert_eq!(out, enqueue(deployment("web"), 5));
    let out = m.accept(&secondary("test", Some(("Deployment", "web"))), 6);
    assert_eq!(out, enqueue(ObjectKey::new("Deployment", "test", "web"), 6));
}

#[test]
fn mux_secondary_event_without_related_primary_asks_for_nothing() {
    let mut m = mux();
    assert_eq!(m.accept(&secondary("prod", Some(("StatefulSet", "web"))), 5), Output::Nothing);
    assert_eq!(m.accept(&secondary("prod", None), 5), Output::Nothing);
}

#[test]
fn mux_removes_no_duplicates_and_keeps_arrival_order() {
    let mut m = mux();
    let inputs = vec![
        primary("a", ChangeKind::Added),
        secondary("prod", Some(("Deployment", "b"))),
        primary("a", ChangeKind::Modified),
        secondary("prod", Some(("Other", "c"))),
        secondary("prod", Some(("Deployment", "a"))),
        primary("b", ChangeKind::Modified),
    ];
    let mut asked = Vec::new();
    for (i, input) in inputs.iter().enumerate() {
        if let Output::Enqueue(request) = m.accept(input, i as u64) {
            asked.push((request.key.name().to_string(), request.not_before));
        }
    }
    let expected: Vec<(String, u64)> =
        vec![("a", 0), ("b", 1), ("a", 2), ("a", 4), ("b", 5)]
            .into_iter()
            .map(|(n, t)| (n.to_string(), t))
            .collect();
    assert_eq!(asked, expected);
}

#[test]
fn mux_stops_only_when_both_streams_have_ended() {
    let mut m = mux();
    assert!(!m.is_terminated());
    assert_eq!(m.accept::<u32>(&Input::End(Source::Primary, Cause::Exhausted), 1), Output::Nothing);
    assert!(!m.is_terminated());
    assert_eq!(m.accept(&primary("late", ChangeKind::Added), 2), Output::Nothing);
    assert_eq!(
        m.accept(&secondary("prod", Some(("Deployment", "web"))), 3),
        enqueue(deployment("web"), 3)
    );
    assert_eq!(m.accept::<u32>(&Input::End(Source::Primary, Cause::Fatal), 4), Output::Nothing);
    assert!(!m.has_failed());
    assert_eq!(
        m.accept::<u32>(&Input::End(Source::Secondary, Cause::Exhausted), 5),
        Output::Stopped { fatal: false }
    );
    assert!(m.is_terminated());
    assert_eq!(m.accept(&secondary("prod", Some(("Deployment", "web"))), 6), Output::Nothing);
    assert_eq!(
        m.accept::<u32>(&Input::End(Source::Secondary, Cause::Exhausted), 7),
        Output::Stopped { fatal: false }
    );
}

#[test]
fn mux_reports_a_fatal_end_and_goes_on_with_the_other_stream() {
    let mut m = mux();
    assert_eq!(
        m.accept::<u32>(&Input::End(Source::Secondary, Cause::Fatal), 1),
        Output::Failed(Source::Secondary)
    );
    assert!(m.has_failed());
    assert!(!m.is_terminated());
    assert_eq!(m.accept(&primary("web", ChangeKind::Modified), 2), enqueue(deployment("web"), 2));
    assert_eq!(m.accept(&secondary("prod", Some(("Deployment", "web"))), 3), Output::Nothing);
    assert_eq!(
        m.accept::<u32>(&Input::End(Source::Primary, Cause::Exhausted), 4),
        Output::Stopped { fatal: true }
    );
    let mut n = mux();
    assert_eq!(
        n.accept::<u32>(&Input::End(Source::Secondary, Cause::Exhausted), 1),
        Output::Nothing
    );
    assert_eq!(
        n.accept::<u32>(&Input::End(Source::Primary, Cause::Fatal), 2),
        Output::Stopped { fatal: true }
    );
}

#[test]
fn controller_needs_at_least_one_worker() {
    assert!(Controller::new("Deployment", 0, 1_000).is_none());
    let c = Controller::new("Deployment", 1, 1_000).unwrap();
    assert_eq!(c.pool_size(), 1);
    let c = Controller::new("Deployment", 4, 3_600_000).unwrap();
    assert_eq!(c.pool_size(), 4);
    assert_eq!(c.resync_interval(), 3_600_000);
    assert_eq!(c.work_queue().len(), 0);
    assert!(!c.work_queue().is_closed());
}

#[test]
fn controller_enqueues_what_the_streams_report() {
    let mut c = Controller::new("Deployment", 2, 1_000).unwrap();
    c.observe(&primary("web", ChangeKind::Added), 10);
    c.observe(&secondary("prod", Some(("Deployment", "api"))), 11);
    c.observe(&secondary("prod", Some(("Deployment", "web"))), 12);
    c.observe(&secondary("prod", Some(("Job", "batch"))), 13);
    assert_eq!(c.work_queue().len(), 2);
    assert_eq!(c.work_queue().not_before(&deployment("web")), Some(10));
    assert_eq!(c.work_queue().not_before(&deployment("api")), Some(11));
}

#[test]
fn secondary_change_leads_to_a_fresh_fetch_of_the_primary() {
    let mut c = Controller::new("Deployment", 1, 1_000).unwrap();
    let out = c.observe(&secondary("prod", Some(("Deployment", "P"))), 100);
    assert_eq!(out, enqueue(deployment("P"), 100));
    assert_eq!(c.work_queue().not_before(&deployment("P")), Some(100));
    let command = c.drive::<Failure>(0, Event::Wake, 100);
    assert_eq!(command, Some(Command::Fetch(deployment("P"))));
    assert!(c.work_queue().is_in_flight(&deployment("P")));
    let command = c.drive::<Failure>(0, Event::Fetched(true), 101);
    assert_eq!(command, Some(Command::Reconcile(deployment("P"))));
    let command = c.drive::<Failure>(0, Event::Reconciled(Ok(Action::Continue)), 102);
    assert_eq!(command, Some(Command::Poll));
    assert!(!c.work_queue().is_in_flight(&deployment("P")));
    assert_eq!(c.drive::<Failure>(0, Event::Wake, 103), Some(Command::Sleep(None)));
}

#[test]
fn controller_has_no_worker_beyond_its_pool() {
    let mut c = Controller::new("Deployment", 2, 1_000).unwrap();
    c.observe(&primary("web", ChangeKind::Added), 0);
    assert_eq!(c.drive::<Failure>(2, Event::Wake, 0), None);
    assert_eq!(c.drive::<Failure>(usize::MAX, Event::Wake, 0), None);
    assert_eq!(c.work_queue().len(), 1);
    assert_eq!(c.drive::<Failure>(1, Event::Wake, 0), Some(Command::Fetch(deployment("web"))));
}

#[test]
fn controller_workers_share_the_queue_without_overlap() {
    let mut c = Controller::new("Deployment", 3, 1_000).unwrap();
    c.observe(&primary("a", ChangeKind::Added), 0);
    c.observe(&primary("b", ChangeKind::Added), 0);
    assert_eq!(c.drive::<Failure>(0, Event::Wake, 0), Some(Command::Fetch(deployment("a"))));
    c.observe(&primary("a", ChangeKind::Modified), 1);
    assert_eq!(c.drive::<Failure>(1, Event::Wake, 1), Some(Command::Fetch(deployment("b"))));
    assert_eq!(c.drive::<Failure>(2, Event::Wake, 1), Some(Command::Sleep(None)));
    assert_eq!(
        c.drive::<Failure>(0, Event::Fetched(true), 2),
        Some(Command::Reconcile(deployment("a")))
    );
    assert_eq!(c.drive(0, Event::Reconciled(Err(Failure)), 3), Some(Command::Poll));
    assert_eq!(c.work_queue().attempts(&deployment("a")), 1);
    assert_eq!(c.work_queue().not_before(&deployment("a")), Some(3));
    assert_eq!(c.drive::<Failure>(2, Event::Wake, 3), Some(Command::Fetch(deployment("a"))));
    assert_eq!(c.drive::<Failure>(0, Event::Wake, 3), Some(Command::Sleep(None)));
}

#[test]
fn controller_closes_the_queue_when_both_streams_have_ended() {
    let mut c = Controller::new("Deployment", 2, 1_000).unwrap();
    c.observe(&primary("web", ChangeKind::Added), 0);
    assert_eq!(
        c.observe::<u32>(&Input::End(Source::Primary, Cause::Exhausted), 1),
        Output::Nothing
    );
    assert!(!c.work_queue().is_closed());
    assert_eq!(
        c.observe::<u32>(&Input::End(Source::Secondary, Cause::Fatal), 2),
        Output::Stopped { fatal: true }
    );
    assert!(c.work_queue().is_closed());
    assert_eq!(c.drive::<Failure>(0, Event::Wake, 3), Some(Command::Fetch(deployment("web"))));
    assert_eq!(c.drive::<Failure>(1, Event::Wake, 3), Some(Command::Exit));
    assert_eq!(
        c.drive::<Failure>(0, Event::Fetched(true), 3),
        Some(Command::Reconcile(deployment("web")))
    );
    assert_eq!(
        c.drive::<Failure>(0, Event::Reconciled(Ok(Action::RequeueAfter(3_600_000))), 4),
        Some(Command::Poll)
    );
    assert_eq!(c.drive::<Failure>(0, Event::Wake, 4), Some(Command::Exit));
    assert_eq!(c.drive::<Failure>(0, Event::Wake, 5), Some(Command::Exit));
}
